//! Query-path validation and parser construction.
use pikkr::query::is_valid_query_str;
use pikkr::ErrorKind;
use pikkr::Pikkr;

#[test]
fn test_is_valid_query_str() {
    let cases: Vec<(&str, bool)> = vec![
        ("", false),
        ("$", false),
        ("$.", false),
        ("$..", false),
        ("a.a", false),
        ("$aa", false),
        ("$.a", true),
        ("$.aaaa", true),
        ("$.aaaa.", false),
        ("$.aaaa.b", true),
        ("$.aaaa.bbbb", true),
        ("$.aaaa.bbbb.", false),
    ];
    for (query_str, want) in cases {
        assert_eq!(want, is_valid_query_str(query_str.as_bytes()));
    }
}

fn paths(strs: &[&str]) -> Vec<Vec<u8>> {
    strs.iter().map(|s| s.as_bytes().to_vec()).collect()
}

#[test]
fn test_pikkr_new() {
    let cases: Vec<(Vec<&str>, bool)> = vec![
        (vec![], false),
        (vec![""], true),
        (vec!["$"], true),
        (vec!["$."], true),
        (vec!["$.aaaa"], false),
        (vec!["$.aaaa", ""], true),
        (vec!["$.aaaa", "$"], true),
        (vec!["$.aaaa", "$."], true),
        (vec!["$.aaaa", "$.bbbb"], false),
    ];
    for (query_strs, want_err) in cases {
        let err = Pikkr::new(&paths(&query_strs), 1).is_err();
        assert_eq!(want_err, err);
    }
}

#[test]
fn malformed_root_path_reports_invalid_query() {
    let e = Pikkr::new(&paths(&["$"]), 1).err().unwrap();
    assert_eq!(e.kind(), ErrorKind::InvalidQuery);
    assert_eq!(e.as_str(), "invalid query");
}

#[test]
fn duplicate_path_keeps_first_slot() {
    // both slots exist; the shared terminal carries the first occurrence
    let mut p = Pikkr::new(&paths(&["$.a", "$.a"]), 1000000000).unwrap();
    let got = p.parse("{\"a\": 1}".as_bytes()).unwrap();
    assert_eq!(got, vec![Some("1".as_bytes()), None]);
}
