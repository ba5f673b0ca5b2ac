use rust_decimal::etna::PropertyResult;
use rust_decimal::report::{
    accumulate, etna_witness, json_line, json_str, same_text, to_err, Metrics,
};

#[test]
fn json_str_quotes_and_escapes() {
    assert_eq!(json_str("plain"), "\"plain\"");
    assert_eq!(json_str(""), "\"\"");
    assert_eq!(json_str("a\"b\\c"), "\"a\\\"b\\\\c\"");
    assert_eq!(json_str("line\nfeed\r\ttab"), "\"line\\nfeed\\r\\ttab\"");
    assert_eq!(json_str("\u{1}\u{1f}"), "\"\\u0001\\u001f\"");
    assert_eq!(json_str("é ✓"), "\"é ✓\"");
}

#[test]
fn json_line_lays_out_a_run() {
    let m = Metrics { inputs: 3, elapsed_us: 1500 };
    assert_eq!(
        json_line("etna", "All", "passed", m, None, None),
        "{\"status\":\"passed\",\"tests\":3,\"discards\":0,\"time\":\"1500us\",\
         \"counterexample\":null,\"error\":null,\"tool\":\"etna\",\"property\":\"All\"}"
    );
    let z = Metrics { inputs: 0, elapsed_us: 0 };
    assert_eq!(
        json_line("hegel", "X", "aborted", z, Some("a\"b"), Some("boom")),
        "{\"status\":\"aborted\",\"tests\":0,\"discards\":0,\"time\":\"0us\",\
         \"counterexample\":\"a\\\"b\",\"error\":\"boom\",\"tool\":\"hegel\",\"property\":\"X\"}"
    );
}

#[test]
fn to_err_keeps_only_failures() {
    assert_eq!(to_err(PropertyResult::Pass), Ok(()));
    assert_eq!(to_err(PropertyResult::Discard), Ok(()));
    assert_eq!(to_err(PropertyResult::Fail(String::from("why"))), Err(String::from("why")));
}

#[test]
fn metrics_combine_adds() {
    let a = Metrics { inputs: 2, elapsed_us: 10 };
    let b = Metrics { inputs: 5, elapsed_us: 7 };
    let c = a.combine(b);
    assert_eq!(c.inputs, 7);
    assert_eq!(c.elapsed_us, 17);
    let d = Metrics::default();
    assert_eq!(d.inputs, 0);
    assert_eq!(d.elapsed_us, 0);
}

#[test]
fn witnesses_pass_for_every_property_name() {
    for name in [
        "AbsSubDifference",
        "IsIntegerMatchesString",
        "FromI128NoPanic",
        "FromI128Extremes",
        "RoundDpPreserves",
        "CheckedLnNoPanic",
        "ScientificFmtRoundtrip",
        "FromScientificNoPanic",
        "CheckedDivNoPanic",
    ] {
        assert_eq!(etna_witness(name), Some(Ok(())), "{name}");
    }
    assert_eq!(etna_witness("All"), None);
    assert_eq!(etna_witness("NoSuchProperty"), None);
    assert_eq!(etna_witness(""), None);
}

#[test]
fn same_text_compares_characters() {
    assert!(same_text("abc", "abc"));
    assert!(!same_text("abc", "abd"));
    assert!(!same_text("abc", "ab"));
    assert!(same_text("", ""));
}

#[test]
fn accumulate_keeps_first_failure() {
    let one = Metrics { inputs: 1, elapsed_us: 4 };
    let (r, m) = accumulate(Ok(()), Metrics::default(), Ok(()), one);
    assert_eq!(r, Ok(()));
    assert_eq!((m.inputs, m.elapsed_us), (1, 4));
    let (r, m) = accumulate(r, m, Err(String::from("first")), one);
    assert_eq!(r, Err(String::from("first")));
    let (r, m) = accumulate(r, m, Err(String::from("second")), one);
    assert_eq!(r, Err(String::from("first")));
    assert_eq!((m.inputs, m.elapsed_us), (3, 12));
}
