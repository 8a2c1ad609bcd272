use recognize_rs::config::{build_system_prompt, normalize_endpoint, parse_env, SYSTEM_PROMPT_HEAD};
use recognize_rs::escapes::fix_json_escapes;
use recognize_rs::knowledge::PointRef;
use recognize_rs::text::{
    chars_of, concat3, ends_with, join_strings, starts_with, str_eq, strip_str, Strip,
};

#[test]
fn fix_escapes_doubles_stray_backslashes() {
    assert_eq!(fix_json_escapes(r#"{"a":"\sqrt{2}"}"#), r#"{"a":"\\sqrt{2}"}"#);
    assert_eq!(fix_json_escapes(r"\(x\)"), r"\\(x\\)");
    assert_eq!(fix_json_escapes("end\\"), "end\\\\");
}

#[test]
fn fix_escapes_keeps_valid_escapes() {
    let valid = r#"{"a":"line\nnext \"q\" \\ \/ \b\f\r\t \u00e9"}"#;
    assert_eq!(fix_json_escapes(valid), valid);
    assert_eq!(fix_json_escapes("没有反斜杠"), "没有反斜杠");
    assert_eq!(fix_json_escapes(""), "");
}

#[test]
fn fix_escapes_idempotent() {
    for s in [r"\sqrt \triangle \n \\", r"\\\x", r"\", r#"\"\q"#] {
        let once = fix_json_escapes(s);
        assert_eq!(fix_json_escapes(&once), once);
    }
}

#[test]
fn fix_escapes_result_parses_as_json() {
    let fixed = fix_json_escapes(r#"["\angle A = 30°", "\sqrt{3}"]"#);
    let v: serde_json::Value = serde_json::from_str(&fixed).unwrap();
    assert_eq!(v[0], "\\angle A = 30°");
    assert_eq!(v[1], "\\sqrt{3}");
}

#[test]
fn endpoint_forms() {
    assert_eq!(normalize_endpoint("https://api.example.com"), "https://api.example.com/v1/chat/completions");
    assert_eq!(normalize_endpoint("https://api.example.com/"), "https://api.example.com/v1/chat/completions");
    assert_eq!(normalize_endpoint("https://api.example.com/v1"), "https://api.example.com/v1/chat/completions");
    assert_eq!(normalize_endpoint("https://api.example.com/v1//"), "https://api.example.com/v1/chat/completions");
    assert_eq!(
        normalize_endpoint("https://api.example.com/v1/chat/completions/"),
        "https://api.example.com/v1/chat/completions"
    );
    assert_eq!(normalize_endpoint(""), "/v1/chat/completions");
}

#[test]
fn endpoint_idempotent() {
    for b in ["http://h", "http://h/v1/", "x/chat/completions", "/", ""] {
        let once = normalize_endpoint(b);
        assert!(once.ends_with("/chat/completions"));
        assert_eq!(normalize_endpoint(&once), once);
    }
}

#[test]
fn env_reads_settings() {
    let text = "# comment\nNEWAPI_BASE_URL = \"https://gw.example\"\r\n\nNEWAPI_KEY='sk-1=2'\nNEWAPI_MODEL=qwen-vl\nOTHER=1\nno equals here\n";
    let cfg = parse_env(text).unwrap();
    assert_eq!(cfg.base_url, "https://gw.example");
    assert_eq!(cfg.key, "sk-1=2");
    assert_eq!(cfg.model, "qwen-vl");
    assert_eq!(cfg.ca_cert, "");
}

#[test]
fn env_later_line_wins() {
    let text = "NEWAPI_BASE_URL=a\nNEWAPI_KEY=k\nNEWAPI_MODEL=m\nNEWAPI_BASE_URL=b\nNEWAPI_CA_CERT=\"\"ca.pem\"\"";
    let cfg = parse_env(text).unwrap();
    assert_eq!(cfg.base_url, "b");
    assert_eq!(cfg.ca_cert, "ca.pem");
}

#[test]
fn env_quotes_stripped_in_order() {
    let cfg = parse_env("NEWAPI_BASE_URL=\"'u'\"\nNEWAPI_KEY='\"k\"'\nNEWAPI_MODEL=m").unwrap();
    assert_eq!(cfg.base_url, "u");
    assert_eq!(cfg.key, "\"k\"");
}

#[test]
fn env_missing_settings_error() {
    let msg = "NEWAPI_BASE_URL / NEWAPI_KEY / NEWAPI_MODEL 三项缺一不可";
    assert_eq!(parse_env("NEWAPI_BASE_URL=a\nNEWAPI_KEY=k").err().unwrap(), msg);
    assert_eq!(parse_env("").err().unwrap(), msg);
    assert_eq!(parse_env("#NEWAPI_BASE_URL=a\nNEWAPI_KEY=k\nNEWAPI_MODEL=m").err().unwrap(), msg);
    assert_eq!(parse_env("NEWAPI_BASE_URL=\"\"\nNEWAPI_KEY=k\nNEWAPI_MODEL=m").err().unwrap(), msg);
}

#[test]
fn system_prompt_lists_points() {
    let pts = vec![
        PointRef { id: "7A.1.1.1".into(), name: "正数".into(), path: "七上 > 有理数 > 正负数 > 正数".into() },
        PointRef { id: "7A.1.1.2".into(), name: "负数".into(), path: "七上 > 有理数 > 正负数 > 负数".into() },
    ];
    let p = build_system_prompt(&pts);
    assert_eq!(
        p,
        format!("{}7A.1.1.1 | 七上 > 有理数 > 正负数 > 正数\n7A.1.1.2 | 七上 > 有理数 > 正负数 > 负数", SYSTEM_PROMPT_HEAD)
    );
    assert_eq!(build_system_prompt(&vec![]), SYSTEM_PROMPT_HEAD);
    assert!(SYSTEM_PROMPT_HEAD.ends_with("知识点清单（格式 id | 册 > 章 > 节 > 点）：\n"));
}

#[test]
fn text_helpers() {
    assert_eq!(chars_of("a数b"), vec!['a', '数', 'b']);
    assert_eq!(concat3("a", "-", "b"), "a-b");
    assert!(str_eq("勾股", "勾股"));
    assert!(!str_eq("勾股", "勾"));
    assert!(starts_with("8A.2", "8A"));
    assert!(!starts_with("8", "8A"));
    assert!(ends_with("abc/v1", "/v1"));
    assert!(!ends_with("v1", "/v1"));
    assert_eq!(strip_str("\u{3000} 值\t\r\n", Strip::Whitespace), "值");
    assert_eq!(strip_str("\"\"x\"", Strip::Only('"')), "x");
    assert_eq!(join_strings(&vec!["a".into(), "b".into(), "c".into()], " "), "a b c");
    assert_eq!(join_strings(&vec![], " "), "");
}
