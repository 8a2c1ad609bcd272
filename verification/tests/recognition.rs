use recognize_rs::knowledge::{build_index, Chapter, KpTree, LoadedTree, Meta, Point, Section, Volume};
use recognize_rs::recognition::{
    bearer_header, finish_image, interpret_response, parse_questions, prefix_chars, question_from_raw,
    read_completion, read_items, vision_request, Completion, QuestionsError, RawQuestion, Usage,
    VisionReply,
};

fn loaded() -> LoadedTree {
    let t = KpTree {
        meta: Meta { version: "v0".into(), status: "draft".into() },
        volumes: vec![Volume {
            id: "8A".into(),
            grade: "八年级".into(),
            volume: "上册".into(),
            chapters: vec![Chapter {
                id: "8A.2".into(),
                name: "特殊三角形".into(),
                sections: vec![Section {
                    id: "8A.2.7".into(),
                    name: "勾股定理".into(),
                    points: vec![Point { id: "8A.2.7.1".into(), name: "勾股定理".into() }],
                }],
            }],
        }],
    };
    build_index(&t)
}

#[test]
fn questions_read_and_checked() {
    let l = loaded();
    let text = r#"好的：
[{"题号":"4","read_text":"求斜边","has_figure":true,"primary_kp_id":"8A.2.7.1","alt_kp_ids":["8A.2.7",3,"8A.2"],"confidence":0.85,"reason":"勾股"},
 {"read_text":"另一题","primary_kp_id":"9Z.1","confidence":1}]
谢谢"#;
    let qs = parse_questions(text, &l.id_index).ok().unwrap();
    assert_eq!(qs.len(), 2);
    assert_eq!(qs[0].label, "4");
    assert_eq!(qs[0].read_text, "求斜边");
    assert!(qs[0].has_figure);
    assert!(qs[0].in_tree);
    assert_eq!(qs[0].primary_kp_path, "八上 > 特殊三角形 > 勾股定理 > 勾股定理");
    assert_eq!(qs[0].alt_kp_ids, vec!["8A.2.7".to_string(), "8A.2".to_string()]);
    assert_eq!(qs[0].confidence, "0.85");
    assert_eq!(qs[0].reason, "勾股");
    assert_eq!(qs[1].label, "");
    assert!(!qs[1].has_figure);
    assert!(!qs[1].in_tree);
    assert_eq!(qs[1].primary_kp_path, "");
    assert!(qs[1].alt_kp_ids.is_empty());
    assert_eq!(qs[1].confidence, "1");
    assert_eq!(qs[1].reason, "");
}

#[test]
fn questions_missing_fields_defaulted() {
    let l = loaded();
    let qs = parse_questions("[{}, 5]", &l.id_index).ok().unwrap();
    assert_eq!(qs.len(), 2);
    for q in &qs {
        assert_eq!(q.primary_kp_id, "");
        assert!(!q.in_tree);
        assert_eq!(q.confidence, "0");
        assert!(!q.has_figure);
    }
}

#[test]
fn questions_with_stray_backslash_repaired() {
    let l = loaded();
    let qs = parse_questions(r#"[{"read_text":"\sqrt{2} 与 \angle A","primary_kp_id":"8A.2"}]"#, &l.id_index)
        .ok()
        .unwrap();
    assert_eq!(qs.len(), 1);
    assert_eq!(qs[0].read_text, "\\sqrt{2} 与 \\angle A");
    assert!(qs[0].in_tree);
    assert_eq!(qs[0].primary_kp_path, "八上 > 特殊三角形");
}

#[test]
fn questions_error_variants() {
    let l = loaded();
    let e = parse_questions("no array here", &l.id_index).err().unwrap();
    assert!(matches!(e, QuestionsError::NoArrayStart));
    assert_eq!(e.message(), "输出里找不到 JSON 数组开头 [");
    let e = parse_questions("[ unclosed", &l.id_index).err().unwrap();
    assert!(matches!(e, QuestionsError::NoArrayEnd));
    assert_eq!(e.message(), "输出里找不到 ]");
    let e = parse_questions("] then [", &l.id_index).err().unwrap();
    assert!(matches!(e, QuestionsError::BadBounds));
    assert_eq!(e.message(), "JSON 数组边界异常");
    let e = parse_questions("[oops]", &l.id_index).err().unwrap();
    let parser_msg = serde_json::from_str::<serde_json::Value>("[oops]").unwrap_err().to_string();
    match &e {
        QuestionsError::Json(m) => assert_eq!(m, &parser_msg),
        _ => panic!("expected a JSON error"),
    }
    assert_eq!(e.message(), format!("JSON 数组解析失败：{}", parser_msg));
    assert_eq!(QuestionsError::NotArray.message(), "解析结果不是数组");
}

#[test]
fn question_from_raw_defaults() {
    let l = loaded();
    let raw = RawQuestion {
        label: None,
        read_text: Some("t".into()),
        has_figure: None,
        primary_kp_id: Some("8A".into()),
        alt_kp_ids: Some(vec![None, Some("x".into())]),
        confidence: None,
        reason: None,
    };
    let q = question_from_raw(&raw, &l.id_index);
    assert_eq!(q.label, "");
    assert_eq!(q.read_text, "t");
    assert!(q.in_tree);
    assert_eq!(q.primary_kp_path, "八上");
    assert_eq!(q.alt_kp_ids, vec!["x".to_string()]);
    assert_eq!(q.confidence, "0");
}

#[test]
fn response_http_failure() {
    let body = "错".repeat(900);
    let e = interpret_response(false, "502 Bad Gateway", &body).err().unwrap();
    assert_eq!(e, format!("HTTP 502 Bad Gateway：{}", "错".repeat(800)));
    let e = interpret_response(false, "401 Unauthorized", "no").err().unwrap();
    assert_eq!(e, "HTTP 401 Unauthorized：no");
}

#[test]
fn response_not_json() {
    let e = interpret_response(true, "200 OK", "<html>").err().unwrap();
    let parser_msg = serde_json::from_str::<serde_json::Value>("<html>").unwrap_err().to_string();
    assert_eq!(e, format!("响应非 JSON：{}", parser_msg));
}

#[test]
fn response_without_content() {
    let body = format!("{{\"choices\":[],\"pad\":\"{}\"}}", "x".repeat(400));
    let e = interpret_response(true, "200 OK", &body).err().unwrap();
    assert_eq!(e, format!("响应里没有 choices[0].message.content：{}", &body[..300]));
}

#[test]
fn response_with_content_and_usage() {
    let body = r#"{"choices":[{"message":{"content":"[1]"}}],"usage":{"prompt_tokens":10,"completion_tokens":5,"total_tokens":15}}"#;
    let r = interpret_response(true, "200 OK", body).ok().unwrap();
    assert_eq!(r.content, "[1]");
    assert_eq!(r.usage, Usage { prompt_tokens: Some(10), completion_tokens: Some(5), total_tokens: Some(15) });
    let body = r#"{"choices":[{"message":{"content":"x"}}],"usage":{"prompt_tokens":"ten"}}"#;
    let r = interpret_response(true, "200 OK", body).ok().unwrap();
    assert_eq!(r.usage, Usage { prompt_tokens: None, completion_tokens: None, total_tokens: None });
}

#[test]
fn image_failed_before_reply() {
    let l = loaded();
    let r = finish_image("a.jpg", Err("读不到图 a.jpg：x".to_string()), 99, &l.id_index);
    assert_eq!(r.image, "a.jpg");
    assert!(!r.ok);
    assert_eq!(r.error, "读不到图 a.jpg：x");
    assert_eq!(r.raw, "");
    assert_eq!(r.latency_bits, 0);
    assert_eq!(r.total_tokens, 0);
    assert!(r.questions.is_empty());
}

#[test]
fn image_with_reply() {
    let l = loaded();
    let reply = VisionReply {
        content: r#"[{"primary_kp_id":"8A.2.7.1"}]"#.into(),
        usage: Usage { prompt_tokens: Some(7), completion_tokens: None, total_tokens: Some(9) },
    };
    let bits = 1.5f64.to_bits();
    let r = finish_image("b.png", Ok(reply), bits, &l.id_index);
    assert!(r.ok);
    assert_eq!(r.error, "");
    assert_eq!(r.latency_bits, bits);
    assert_eq!(r.prompt_tokens, 7);
    assert_eq!(r.completion_tokens, 0);
    assert_eq!(r.total_tokens, 9);
    assert_eq!(r.questions.len(), 1);
    assert!(r.questions[0].in_tree);
}

#[test]
fn image_with_unreadable_reply() {
    let l = loaded();
    let reply = VisionReply { content: "抱歉".into(), usage: Usage { prompt_tokens: None, completion_tokens: None, total_tokens: Some(3) } };
    let r = finish_image("c.png", Ok(reply), 5, &l.id_index);
    assert!(!r.ok);
    assert_eq!(r.error, "输出里找不到 JSON 数组开头 [");
    assert_eq!(r.raw, "抱歉");
    assert_eq!(r.total_tokens, 3);
    assert_eq!(r.latency_bits, 5);
}

#[test]
fn request_and_header() {
    let req = vision_request("qwen-vl", "sys", "data:image/png;base64,AA==");
    assert_eq!(req.model, "qwen-vl");
    assert_eq!(req.system_prompt, "sys");
    assert_eq!(req.instruction, "识别这张图里的所有题目，按要求只输出 JSON 数组。");
    assert_eq!(req.image_url, "data:image/png;base64,AA==");
    assert_eq!(req.detail, "high");
    assert_eq!(req.temperature, 0);
    assert_eq!(req.max_tokens, 1500);
    assert_eq!(bearer_header("sk-x"), "Bearer sk-x");
}

#[test]
fn prefix_chars_counts_characters() {
    assert_eq!(prefix_chars("一二三", 2), "一二");
    assert_eq!(prefix_chars("ab", 5), "ab");
}

#[test]
fn prose_around_array_ignored() {
    let l = loaded();
    let array = r#"[{"题号":"1","primary_kp_id":"8A.2.7.1","read_text":"甲"},{"primary_kp_id":"7Z"}]"#;
    let alone = parse_questions(array, &l.id_index).ok().unwrap();
    let wrapped = parse_questions(&format!("以下是结果：\n{}\n（完）", array), &l.id_index).ok().unwrap();
    assert_eq!(alone.len(), wrapped.len());
    for (a, b) in alone.iter().zip(wrapped.iter()) {
        assert_eq!(a.label, b.label);
        assert_eq!(a.read_text, b.read_text);
        assert_eq!(a.primary_kp_id, b.primary_kp_id);
        assert_eq!(a.in_tree, b.in_tree);
        assert_eq!(a.primary_kp_path, b.primary_kp_path);
    }
    assert!(alone[0].in_tree);
    assert!(!alone[1].in_tree);
}

#[test]
fn every_tree_id_is_in_tree() {
    let l = loaded();
    for id in ["8A", "8A.2", "8A.2.7", "8A.2.7.1"] {
        let qs = parse_questions(&format!(r#"[{{"primary_kp_id":"{}"}}]"#, id), &l.id_index).ok().unwrap();
        assert!(qs[0].in_tree);
        assert_eq!(qs[0].primary_kp_path, l.id_index.get(id).unwrap().path);
    }
    let qs = parse_questions(r#"[{"primary_kp_id":"8A.2.7.9"}]"#, &l.id_index).ok().unwrap();
    assert!(!qs[0].in_tree);
}

#[test]
fn image_with_reply_that_is_no_json() {
    let l = loaded();
    let reply = VisionReply { content: "[题目 \\ 未完]".into(), usage: Usage { prompt_tokens: Some(1), completion_tokens: Some(2), total_tokens: Some(3) } };
    let r = finish_image("d.png", Ok(reply), 7, &l.id_index);
    let fixed = recognize_rs::escapes::fix_json_escapes("[题目 \\ 未完]");
    let parser_msg = serde_json::from_str::<serde_json::Value>(&fixed).unwrap_err().to_string();
    assert!(!r.ok);
    assert_eq!(r.error, format!("JSON 数组解析失败：{}", parser_msg));
    assert_eq!(r.raw, "[题目 \\ 未完]");
    assert_eq!((r.prompt_tokens, r.completion_tokens, r.total_tokens), (1, 2, 3));
    assert!(r.questions.is_empty());
}

#[test]
fn items_read_from_parsed_value() {
    let l = loaded();
    let e = read_items(Err("bad".into()), &l.id_index).err().unwrap();
    assert_eq!(e.message(), "JSON 数组解析失败：bad");
    assert!(matches!(read_items(Ok(None), &l.id_index), Err(QuestionsError::NotArray)));
    let raw = RawQuestion {
        label: Some("1".into()),
        read_text: None,
        has_figure: Some(true),
        primary_kp_id: Some("8A.2.7".into()),
        alt_kp_ids: None,
        confidence: Some("0.5".into()),
        reason: None,
    };
    let qs = read_items(Ok(Some(vec![raw])), &l.id_index).ok().unwrap();
    assert_eq!(qs.len(), 1);
    assert_eq!(qs[0].primary_kp_path, "八上 > 特殊三角形 > 勾股定理");
    assert_eq!(qs[0].confidence, "0.5");
}

#[test]
fn completion_read_from_parsed_value() {
    assert_eq!(read_completion(Err("eof".into()), "x").err().unwrap(), "响应非 JSON：eof");
    let none = Usage { prompt_tokens: None, completion_tokens: None, total_tokens: None };
    let e = read_completion(Ok(Completion { content: None, usage: none }), "体").err().unwrap();
    assert_eq!(e, "响应里没有 choices[0].message.content：体");
    let u = Usage { prompt_tokens: Some(1), completion_tokens: Some(2), total_tokens: Some(3) };
    let r = read_completion(Ok(Completion { content: Some("[]".into()), usage: u }), "b").ok().unwrap();
    assert_eq!(r.content, "[]");
    assert_eq!(r.usage, u);
}
