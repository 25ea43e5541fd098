use howis::outcome::{digit_char, ledger_line, push_decimal, Counter, Kind, Outcome};

#[test]
fn render_gives_the_fixed_tokens() {
    assert_eq!(Outcome::Good.render(), "good");
    assert_eq!(Outcome::Bad.render(), "bad");
    assert_eq!(Outcome::NotAvailable.render(), "n/a");
    assert_eq!(Outcome::Error("timed out".to_string()).render(), "error: timed out");
    assert_eq!(Outcome::Error(String::new()).render(), "error: ");
}

#[test]
fn bucket_names_the_kind() {
    assert_eq!(Outcome::Good.bucket(), Kind::Good);
    assert_eq!(Outcome::Bad.bucket(), Kind::Bad);
    assert_eq!(Outcome::NotAvailable.bucket(), Kind::NotAvailable);
    assert_eq!(Outcome::Error("x".to_string()).bucket(), Kind::Error);
}

#[test]
fn ledger_line_joins_name_and_status() {
    assert_eq!(ledger_line("file.bin", &Outcome::Good), "file.bin: good");
    assert_eq!(ledger_line("file.bin", &Outcome::Bad), "file.bin: bad");
    assert_eq!(ledger_line("file.bin", &Outcome::NotAvailable), "file.bin: n/a");
    assert_eq!(
        ledger_line("file.bin", &Outcome::Error("available".to_string())),
        "file.bin: error: available"
    );
    assert_eq!(ledger_line("", &Outcome::Good), ": good");
}

#[test]
fn counter_starts_at_zero() {
    let c = Counter::new();
    assert_eq!((c.good, c.bad, c.na, c.error), (0, 0, 0, 0));
    assert_eq!(Counter::default(), Counter::new());
}

#[test]
fn counter_record_bumps_one_bucket() {
    let mut c = Counter::new();
    c.record(Kind::Good);
    assert_eq!((c.good, c.bad, c.na, c.error), (1, 0, 0, 0));
    c.record(Kind::Bad);
    assert_eq!((c.good, c.bad, c.na, c.error), (1, 1, 0, 0));
    c.record(Kind::NotAvailable);
    assert_eq!((c.good, c.bad, c.na, c.error), (1, 1, 1, 0));
    c.record(Kind::Error);
    c.record(Kind::Error);
    assert_eq!((c.good, c.bad, c.na, c.error), (1, 1, 1, 2));
}

#[test]
fn counter_never_goes_down() {
    let mut c = Counter { good: 3, bad: 2, na: 1, error: 0 };
    for k in [Kind::Error, Kind::Good, Kind::NotAvailable, Kind::Bad, Kind::Good] {
        let before = c;
        c.record(k);
        assert!(c.good >= before.good && c.bad >= before.bad);
        assert!(c.na >= before.na && c.error >= before.error);
        assert_eq!(
            c.good + c.bad + c.na + c.error,
            before.good + before.bad + before.na + before.error + 1
        );
    }
}

#[test]
fn summary_lists_the_counts_in_order() {
    let c = Counter { good: 12, bad: 0, na: 3, error: 405 };
    assert_eq!(c.summary("loaded"), "loaded: 12 good, 0 bad, 3 n/a, 405 error");
    assert_eq!(c.summary("finished"), "finished: 12 good, 0 bad, 3 n/a, 405 error");
    assert_eq!(Counter::new().summary("loaded"), "loaded: 0 good, 0 bad, 0 n/a, 0 error");
}

#[test]
fn summary_renders_the_largest_count() {
    let c = Counter { good: u64::MAX, bad: 10, na: 99, error: 100 };
    assert_eq!(
        c.summary("finished"),
        "finished: 18446744073709551615 good, 10 bad, 99 n/a, 100 error"
    );
}

#[test]
fn push_decimal_appends_the_numeral() {
    for n in [0u64, 7, 9, 10, 11, 99, 100, 101, 12345, 1_000_000, u64::MAX] {
        let mut s = String::from("n=");
        push_decimal(&mut s, n);
        assert_eq!(s, format!("n={}", n));
    }
}

#[test]
fn digit_char_gives_each_digit() {
    let digits: Vec<char> = (0u64..10).map(digit_char).collect();
    assert_eq!(digits, vec!['0', '1', '2', '3', '4', '5', '6', '7', '8', '9']);
}
