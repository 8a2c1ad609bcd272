use base64::Engine;
use recognize_rs::command::{parse_command, Command};
use recognize_rs::images::{data_uri, encode_image, mime_for_path, select_images, sort_strings, ImageCandidate};
use recognize_rs::recognition::{ImageResult, Question};
use recognize_rs::report::{cell_text, column_position, nonblank, review_headers, review_rows, summarize};

fn cand(p: &str, e: &str) -> ImageCandidate {
    ImageCandidate { path: p.into(), extension: e.into() }
}

#[test]
fn mime_by_extension() {
    assert_eq!(mime_for_path("a/b.PNG"), "image/png");
    assert_eq!(mime_for_path("x.webp"), "image/webp");
    assert_eq!(mime_for_path("x.jpg"), "image/jpeg");
    assert_eq!(mime_for_path("noext"), "image/jpeg");
    assert_eq!(mime_for_path("a.png.Webp"), "image/webp");
    assert_eq!(mime_for_path("dir.png/file"), "image/jpeg");
}

#[test]
fn data_uri_of_bytes() {
    assert_eq!(encode_image("p.png", b"abc"), "data:image/png;base64,YWJj");
    assert_eq!(encode_image("p.jpg", b"ab"), "data:image/jpeg;base64,YWI=");
    assert_eq!(encode_image("p.webp", b""), "data:image/webp;base64,");
    assert_eq!(data_uri("image/png", "QQ=="), "data:image/png;base64,QQ==");
}

#[test]
fn images_selected_and_sorted() {
    let cs = vec![
        cand("d/c.JPG", "JPG"),
        cand("d/a.png", "png"),
        cand("d/notes.txt", "txt"),
        cand("d/b.gif", "gif"),
        cand("d/B.webp", "webp"),
        cand("d/z.bmp", "bmp"),
        cand("d/y.jpeg", "jpeg"),
    ];
    let imgs = select_images(&cs, "d").ok().unwrap();
    assert_eq!(imgs, vec!["d/B.webp", "d/a.png", "d/b.gif", "d/c.JPG", "d/y.jpeg", "d/z.bmp"]);
}

#[test]
fn images_none_found() {
    let e = select_images(&vec![cand("d/readme.md", "md")], "d").err().unwrap();
    assert_eq!(e, "目录里没有图片（支持 jpg/jpeg/png/webp/bmp/gif）：d");
    assert!(select_images(&vec![], "空").is_err());
}

#[test]
fn sort_matches_string_order() {
    let v: Vec<String> = vec!["错题2.png", "错题10.png", "a", "", "错", "Z", "a"].into_iter().map(String::from).collect();
    let mut expected = v.clone();
    expected.sort();
    assert_eq!(sort_strings(&v), expected);
}

fn question(label: &str, fig: bool, in_tree: bool) -> Question {
    Question {
        label: label.into(),
        read_text: "题".into(),
        has_figure: fig,
        primary_kp_id: "8A.1".into(),
        primary_kp_path: if in_tree { "八上 > 一".into() } else { String::new() },
        in_tree,
        alt_kp_ids: vec!["8A.2".into(), "8A.3".into()],
        confidence: "0.9".into(),
        reason: "因为".into(),
    }
}

fn result(image: &str, ok: bool, qs: Vec<Question>, tokens: u64) -> ImageResult {
    ImageResult {
        image: image.into(),
        ok,
        error: if ok { String::new() } else { "超时".into() },
        raw: String::new(),
        latency_bits: 0,
        prompt_tokens: 0,
        completion_tokens: 0,
        total_tokens: tokens,
        questions: qs,
    }
}

#[test]
fn review_table_rows() {
    let rs = vec![
        result("1.jpg", true, vec![question("4", true, true), question("", false, false)], 10),
        result("2.jpg", false, vec![], 0),
        result("3.jpg", true, vec![], 5),
    ];
    let rows = review_rows(&rs);
    assert_eq!(rows.len(), 3);
    assert_eq!(
        rows[0],
        vec!["1.jpg", "4", "题", "true", "8A.1", "八上 > 一", "8A.2 8A.3", "0.9", "因为", "", "", "", ""]
    );
    assert_eq!(rows[1][3], "false");
    assert_eq!(rows[1][4], "8A.1 (不在树中)");
    assert_eq!(rows[2][0], "2.jpg");
    assert_eq!(rows[2][2], "[识别失败] 超时");
    assert_eq!(rows[2].len(), 13);
    assert!(rows[2][3..].iter().all(|c| c.is_empty()));
    let h = review_headers();
    assert_eq!(h.len(), 13);
    assert_eq!(h[7], "置信度");
    assert_eq!(h[9], "读题正确(1=对/0.5=部分/0=错)");
    assert_eq!(h[10], "归类正确(1/0)");
}

#[test]
fn batch_summary() {
    let rs = vec![
        result("1.jpg", true, vec![question("4", true, true), question("5", false, false)], 10),
        result("2.jpg", false, vec![], 0),
        result("3.jpg", true, vec![question("6", true, false)], 5),
    ];
    let s = summarize(&rs);
    assert_eq!(s.images, 3);
    assert_eq!(s.succeeded, 2);
    assert_eq!(s.failed, 1);
    assert_eq!(s.succeeded + s.failed, s.images);
    assert_eq!(s.questions, 3);
    assert_eq!(s.with_figure, 2);
    assert_eq!(s.not_in_tree, 2);
    assert_eq!(s.total_tokens, 15);
    let e = summarize(&vec![]);
    assert_eq!((e.images, e.questions, e.total_tokens), (0, 0, 0));
}

#[test]
fn graded_cells() {
    let headers: Vec<String> = vec!["图片", "置信度", "x", "置信度"].into_iter().map(String::from).collect();
    assert_eq!(column_position(&headers, "置信度"), Some(1));
    assert_eq!(column_position(&headers, "缺"), None);
    let rec: Vec<String> = vec!["a".into(), " 0.5 ".into()];
    assert_eq!(cell_text(&rec, Some(1)), " 0.5 ");
    assert_eq!(cell_text(&rec, Some(5)), "");
    assert_eq!(cell_text(&rec, None), "");
    assert_eq!(nonblank(" 0.5 "), Some("0.5".to_string()));
    assert_eq!(nonblank(" \t "), None);
    assert_eq!(nonblank(""), None);
}

fn args(v: &[&str]) -> Vec<String> {
    v.iter().map(|s| s.to_string()).collect()
}

#[test]
fn commands_accepted() {
    assert!(matches!(parse_command(&args(&["r", "check"])), Ok(Command::Check)));
    match parse_command(&args(&["r", "run", "--image", "a.jpg"])) {
        Ok(Command::RunImage(p)) => assert_eq!(p, "a.jpg"),
        _ => panic!("expected run --image"),
    }
    match parse_command(&args(&["r", "run", "--dir", "imgs"])) {
        Ok(Command::RunDir(d)) => assert_eq!(d, "imgs"),
        _ => panic!("expected run --dir"),
    }
    match parse_command(&args(&["r", "score", "--review", "out/review.csv", "extra"])) {
        Ok(Command::Score(p)) => assert_eq!(p, "out/review.csv"),
        _ => panic!("expected score"),
    }
}

#[test]
fn commands_refused() {
    let err = |v: &[&str]| parse_command(&args(v)).err().unwrap();
    assert_eq!(err(&["r"]), "用法：recognize-rs <check | run --image 图 | run --dir 目录 | score --review csv>");
    assert_eq!(err(&["r", ""]), "用法：recognize-rs <check | run --image 图 | run --dir 目录 | score --review csv>");
    assert_eq!(err(&["r", "run", "--image"]), "用法：run --image <图片路径>");
    assert_eq!(err(&["r", "run", "--dir"]), "用法：run --dir <目录>");
    assert_eq!(err(&["r", "run"]), "用法：run --image <图> 或 run --dir <目录>");
    assert_eq!(err(&["r", "run", "--x", "y"]), "用法：run --image <图> 或 run --dir <目录>");
    assert_eq!(err(&["r", "score", "--review"]), "用法：score --review <review.csv>");
    assert_eq!(err(&["r", "score", "x", "y"]), "用法：score --review <review.csv>");
    assert_eq!(err(&["r", "scan"]), "未知子命令：scan");
}

#[test]
fn base64_text_decodes_back() {
    let inputs: Vec<Vec<u8>> = vec![vec![], vec![0], vec![255, 254], b"Man".to_vec(), (0u8..=255).collect(), vec![0xfb, 0xff, 0xbf, 0x00]];
    for b in inputs {
        let uri = encode_image("x.png", &b);
        let text = uri.strip_prefix("data:image/png;base64,").unwrap();
        assert_eq!(text.len(), (b.len() + 2) / 3 * 4);
        assert_eq!(base64::prelude::BASE64_STANDARD.decode(text).unwrap(), b);
    }
    assert_eq!(encode_image("m.jpg", b"Man"), "data:image/jpeg;base64,TWFu");
    assert_eq!(encode_image("m.jpg", &[0xfb, 0xff, 0xbf]), "data:image/jpeg;base64,+/+/");
}
