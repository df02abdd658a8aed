//! Whole-parser runs: training on records, then speculating, with fallback.
use pikkr::Pikkr;

fn paths(strs: &[&str]) -> Vec<Vec<u8>> {
    strs.iter().map(|s| s.as_bytes().to_vec()).collect()
}

#[test]
fn test_pikkr_basic_parse() {
    let queries = paths(&["$.f1", "$.f2", "$.f2.f1", "$.f2.f2.f1", "$.f2.f3", "$.f3", "$.f4"]);
    let mut p = Pikkr::new(&queries, 1000000000).unwrap();
    let cases: Vec<(&str, Vec<Option<&[u8]>>)> = vec![
        (r#"{}"#, vec![None, None, None, None, None, None, None]),
        (r#"{"f0": "a"}"#, vec![None, None, None, None, None, None, None]),
        (
            r#"{"f0": "a", "f1": "b"}"#,
            vec![Some(r#""b""#.as_bytes()), None, None, None, None, None, None],
        ),
        (
            r#"{"f0": "a", "f1": "b", "f2": {"f1": 1, "f2": {"f1": "c", "f2": "d"}}, "f3": [1, 2, 3]}"#,
            vec![
                Some(r#""b""#.as_bytes()),
                Some(r#"{"f1": 1, "f2": {"f1": "c", "f2": "d"}}"#.as_bytes()),
                Some(r#"1"#.as_bytes()),
                Some(r#""c""#.as_bytes()),
                None,
                Some(r#"[1, 2, 3]"#.as_bytes()),
                None,
            ],
        ),
        (
            r#"{"f1": "Português do Brasil,Català,Deutsch,Español,Français,Bahasa,Italiano,עִבְרִית,日本語,한국어,Română,中文（简体）,中文（繁體）,Українська,Ўзбекча,Türkçe"}"#,
            vec![
                Some(
                    r#""Português do Brasil,Català,Deutsch,Español,Français,Bahasa,Italiano,עִבְרִית,日本語,한국어,Română,中文（简体）,中文（繁體）,Українська,Ўзбекча,Türkçe""#.as_bytes(),
                ),
                None,
                None,
                None,
                None,
                None,
                None,
            ],
        ),
        (
            r#"{"f1": "\"f1\": \\"}"#,
            vec![Some(r#""\"f1\": \\""#.as_bytes()), None, None, None, None, None, None],
        ),
        (
            "\n                        {\n                        \"f1\"     :   \"b\"\n                    }\n                ",
            vec![Some(r#""b""#.as_bytes()), None, None, None, None, None, None],
        ),
    ];
    for (rec, want) in cases {
        let got = p.parse(rec.as_bytes());
        assert_eq!(Ok(want), got);
    }
}

#[test]
fn test_pikkr_speculative_parse() {
    let queries = paths(&["$.f1", "$.f2", "$.f2.f1", "$.f2.f2.f1", "$.f3"]);
    let mut p = Pikkr::new(&queries, 1).unwrap();
    let cases: Vec<(&str, Vec<Option<&[u8]>>)> = vec![
        (
            r#"{"f0": "a", "f1": "b", "f2": {"f1": 1, "f2": {"f1": "c", "f2": "d"}}, "f3": [1, 2, 3]}"#,
            vec![
                Some(r#""b""#.as_bytes()),
                Some(r#"{"f1": 1, "f2": {"f1": "c", "f2": "d"}}"#.as_bytes()),
                Some(r#"1"#.as_bytes()),
                Some(r#""c""#.as_bytes()),
                Some(r#"[1, 2, 3]"#.as_bytes()),
            ],
        ),
        (
            r#"{"f0": "a", "f1": "b", "f2": {"f1": 1, "f2": {"f1": "c", "f2": "d"}}, "f3": [1, 2, 3]}"#,
            vec![
                Some(r#""b""#.as_bytes()),
                Some(r#"{"f1": 1, "f2": {"f1": "c", "f2": "d"}}"#.as_bytes()),
                Some(r#"1"#.as_bytes()),
                Some(r#""c""#.as_bytes()),
                Some(r#"[1, 2, 3]"#.as_bytes()),
            ],
        ),
        (
            r#"{"f1": "b", "f0": "a", "f3": [1, 2, 3], "f2": {"f2": {"f2": "d", "f1": "c"}, "f1": 1}}"#,
            vec![
                Some(r#""b""#.as_bytes()),
                Some(r#"{"f2": {"f2": "d", "f1": "c"}, "f1": 1}"#.as_bytes()),
                Some(r#"1"#.as_bytes()),
                Some(r#""c""#.as_bytes()),
                Some(r#"[1, 2, 3]"#.as_bytes()),
            ],
        ),
        (
            r#"{"f0": "a", "f1": "b", "f2": {"f1": 1, "f2": {"f1": "c", "f2": "d"}}}"#,
            vec![
                Some(r#""b""#.as_bytes()),
                Some(r#"{"f1": 1, "f2": {"f1": "c", "f2": "d"}}"#.as_bytes()),
                Some(r#"1"#.as_bytes()),
                Some(r#""c""#.as_bytes()),
                None,
            ],
        ),
        (r#"{}"#, vec![None, None, None, None, None]),
    ];
    for (rec, want) in cases {
        let got = p.parse(rec.as_bytes());
        assert_eq!(Ok(want), got);
    }
}
