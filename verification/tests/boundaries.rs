//! Word and lane boundaries, escape runs, trailing bytes, and repeat runs.
use pikkr::ErrorKind;
use pikkr::Pikkr;

fn paths(strs: &[&str]) -> Vec<Vec<u8>> {
    strs.iter().map(|s| s.as_bytes().to_vec()).collect()
}

#[test]
fn record_lengths_at_word_and_lane_boundaries() {
    // a record of exactly `n` bytes: `{"a":` + digits + `}`
    for n in [31usize, 32, 33, 63, 64, 65, 127, 128] {
        let digits = "7".repeat(n - 6);
        let rec = format!("{}{}{}", "{\"a\":", digits, "}");
        assert_eq!(rec.len(), n);
        let mut p = Pikkr::new(&paths(&["$.a"]), 1000000000).unwrap();
        let got = p.parse(rec.as_bytes()).unwrap();
        assert_eq!(got, vec![Some(digits.as_bytes())]);
    }
}

#[test]
fn record_length_one() {
    let mut p = Pikkr::new(&paths(&["$.a"]), 1000000000).unwrap();
    let got = p.parse("{".as_bytes()).unwrap();
    assert_eq!(got, vec![None]);
}

#[test]
fn escape_runs_before_a_quote() {
    // an even run of backslashes leaves the closing quote structural
    for r in [0usize, 2, 4, 6, 8] {
        let value = format!("{}{}{}", "\"", "\\".repeat(r), "\"");
        let rec = format!("{}{}{}", "{\"a\": ", value, "}");
        let mut p = Pikkr::new(&paths(&["$.a"]), 1000000000).unwrap();
        let got = p.parse(rec.as_bytes()).unwrap();
        assert_eq!(got, vec![Some(value.as_bytes())]);
    }
    // an odd run escapes the quote, which then sits inside the string
    for r in [1usize, 3, 5, 7] {
        let value = format!("{}{}{}", "\"", "\\".repeat(r), "\" x\"");
        let rec = format!("{}{}{}", "{\"a\": ", value, "}");
        let mut p = Pikkr::new(&paths(&["$.a"]), 1000000000).unwrap();
        let got = p.parse(rec.as_bytes()).unwrap();
        assert_eq!(got, vec![Some(value.as_bytes())]);
    }
}

#[test]
fn trailing_whitespace_comma_and_brace() {
    let mut p = Pikkr::new(&paths(&["$.a"]), 1000000000).unwrap();

    let got = p.parse("{\"a\": 1   }".as_bytes()).unwrap();
    assert_eq!(got, vec![Some("1".as_bytes())]);

    let got = p.parse("{\"a\": 1, \"b\": 2}".as_bytes()).unwrap();
    assert_eq!(got, vec![Some("1".as_bytes())]);

    let got = p.parse("{\"a\": {\"b\": 1}}".as_bytes()).unwrap();
    assert_eq!(got, vec![Some("{\"b\": 1}".as_bytes())]);

    let got = p.parse("{\"a\": 1\t\n\r }".as_bytes()).unwrap();
    assert_eq!(got, vec![Some("1".as_bytes())]);
}

#[test]
fn basic_parse_is_idempotent_with_training_off() {
    // a threshold this large keeps every parse in basic mode
    let mut p = Pikkr::new(&paths(&["$.a", "$.b.c"]), 1000000000).unwrap();
    let rec = "{\"b\": {\"c\": [3, 4]}, \"a\": \"x\"}";
    let first = p.parse(rec.as_bytes()).unwrap();
    let second = p.parse(rec.as_bytes()).unwrap();
    assert_eq!(first, second);
    assert_eq!(first, vec![Some("\"x\"".as_bytes()), Some("[3, 4]".as_bytes())]);
}

#[test]
fn absent_and_present_fields() {
    let mut p = Pikkr::new(&paths(&["$.f1"]), 1000000000).unwrap();
    assert_eq!(p.parse("{}".as_bytes()).unwrap(), vec![None]);
    assert_eq!(p.parse("{\"f0\": \"a\"}".as_bytes()).unwrap(), vec![None]);
    assert_eq!(
        p.parse("{\"f0\": \"a\", \"f1\": \"b\"}".as_bytes()).unwrap(),
        vec![Some("\"b\"".as_bytes())]
    );
}

#[test]
fn deep_record_beyond_query_depth() {
    // objects nested deeper than any query stay untouched
    let mut p = Pikkr::new(&paths(&["$.a.b"]), 1000000000).unwrap();
    let got = p.parse("{\"a\": {\"b\": {\"c\": {\"d\": 1}}}}".as_bytes()).unwrap();
    assert_eq!(got, vec![Some("{\"c\": {\"d\": 1}}".as_bytes())]);
}

#[test]
fn speculative_falls_back_on_shifted_fields() {
    let mut p = Pikkr::new(&paths(&["$.a"]), 1).unwrap();
    assert_eq!(
        p.parse("{\"x\": 1, \"a\": 2}".as_bytes()).unwrap(),
        vec![Some("2".as_bytes())]
    );
    // the trained colon index no longer matches: the basic scan takes over
    assert_eq!(
        p.parse("{\"a\": 3}".as_bytes()).unwrap(),
        vec![Some("3".as_bytes())]
    );
}

#[test]
fn empty_record_after_training_still_fails() {
    let mut p = Pikkr::new(&paths(&["$.a"]), 1).unwrap();
    assert_eq!(p.parse("{\"a\": 1}".as_bytes()).unwrap(), vec![Some("1".as_bytes())]);
    let e = p.parse("".as_bytes()).err().unwrap();
    assert_eq!(e.kind(), ErrorKind::InvalidRecord);
    assert_eq!(e.as_str(), "invalid record");
}
