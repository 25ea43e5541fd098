use howis::ledger::{classify, load_rec, parse_line, SkipSet};
use howis::outcome::{ledger_line, Counter, Kind, Outcome};
use howis::source::Source;

fn counts(c: &Counter) -> (u64, u64, u64, u64) {
    (c.good, c.bad, c.na, c.error)
}

#[test]
fn parse_line_splits_at_the_first_separator() {
    assert_eq!(
        parse_line("file.bin: good"),
        Some(("file.bin".to_string(), "good".to_string()))
    );
    assert_eq!(
        parse_line("file.bin: error: timed out: again"),
        Some(("file.bin".to_string(), "error: timed out: again".to_string()))
    );
    assert_eq!(parse_line(": "), Some((String::new(), String::new())));
    assert_eq!(parse_line("a: "), Some(("a".to_string(), String::new())));
    assert_eq!(parse_line(": b"), Some((String::new(), "b".to_string())));
}

#[test]
fn parse_line_rejects_a_line_without_separator() {
    assert_eq!(parse_line("no separator here"), None);
    assert_eq!(parse_line("colon:only"), None);
    assert_eq!(parse_line("a:"), None);
    assert_eq!(parse_line(""), None);
}

#[test]
fn classify_takes_the_fixed_tokens() {
    assert_eq!(classify("good"), Some(Kind::Good));
    assert_eq!(classify("bad"), Some(Kind::Bad));
    assert_eq!(classify("n/a"), Some(Kind::NotAvailable));
}

#[test]
fn classify_takes_whatever_begins_with_error() {
    assert_eq!(classify("error"), Some(Kind::Error));
    assert_eq!(classify("error: available"), Some(Kind::Error));
    assert_eq!(classify("error: missing source"), Some(Kind::Error));
    assert_eq!(classify("errors galore"), Some(Kind::Error));
}

#[test]
fn classify_leaves_other_statuses_out() {
    assert_eq!(classify(""), None);
    assert_eq!(classify("Good"), None);
    assert_eq!(classify("good "), None);
    assert_eq!(classify(" good"), None);
    assert_eq!(classify("goodness"), None);
    assert_eq!(classify("erro"), None);
    assert_eq!(classify("an error"), None);
    assert_eq!(classify("good\r"), None);
}

#[test]
fn skip_set_holds_what_was_inserted() {
    let mut skip = SkipSet::new();
    assert!(!skip.contains("a"));
    skip.insert("a".to_string());
    skip.insert("a".to_string());
    assert!(skip.contains("a"));
    assert!(!skip.contains("b"));
}

#[test]
fn replay_counts_and_skips() {
    let text = "a: good\nb: bad\nc: n/a\nd: error: boom\ne: good\n";
    let mut src = Source::template("h/{}");
    let (skip, counter) = load_rec(text, &mut src);
    assert_eq!(counts(&counter), (2, 1, 1, 1));
    for name in ["a", "b", "c", "d", "e"] {
        assert!(skip.contains(name));
    }
    assert!(!skip.contains("f"));
}

#[test]
fn replay_of_an_empty_ledger_is_empty() {
    let mut src = Source::from_list("h/a\n");
    let (skip, counter) = load_rec("", &mut src);
    assert_eq!(counts(&counter), (0, 0, 0, 0));
    assert!(!skip.contains("a"));
    assert_eq!(src.provide("a"), Some("h/a".to_string()));
}

#[test]
fn replay_ignores_a_malformed_line() {
    let with = "a: good\nthis line has no separator\nb: bad\n";
    let without = "a: good\nb: bad\n";
    let mut src_with = Source::from_list("h/a\nh/b\nh/this line has no separator\n");
    let mut src_without = Source::from_list("h/a\nh/b\nh/this line has no separator\n");
    let (skip_with, counter_with) = load_rec(with, &mut src_with);
    let (skip_without, counter_without) = load_rec(without, &mut src_without);
    assert_eq!(counts(&counter_with), (1, 1, 0, 0));
    assert_eq!(counter_with, counter_without);
    assert!(!skip_with.contains("this line has no separator"));
    assert!(!skip_with.contains(""));
    for name in ["a", "b", "c", "this line has no separator"] {
        assert_eq!(skip_with.contains(name), skip_without.contains(name));
    }
    assert_eq!(
        src_with.into_rest(),
        vec![(
            "this line has no separator".to_string(),
            "h/this line has no separator".to_string()
        )]
    );
    assert_eq!(src_without.into_rest().len(), 1);
}

#[test]
fn replay_skips_a_name_of_unknown_status_without_counting() {
    let mut src = Source::template("{}");
    let (skip, counter) = load_rec("a: pending\nb: \nc: GOOD\n", &mut src);
    assert_eq!(counts(&counter), (0, 0, 0, 0));
    assert!(skip.contains("a"));
    assert!(skip.contains("b"));
    assert!(skip.contains("c"));
}

#[test]
fn replay_reads_crlf_lines() {
    let mut src = Source::template("{}");
    let (skip, counter) = load_rec("a: good\r\nb: bad\r\nc: n/a\r\n", &mut src);
    assert_eq!(counts(&counter), (1, 1, 1, 0));
    assert!(skip.contains("a") && skip.contains("b") && skip.contains("c"));
}

#[test]
fn replay_reads_a_last_line_without_line_feed() {
    let mut src = Source::template("{}");
    let (skip, counter) = load_rec("a: good\nb: bad", &mut src);
    assert_eq!(counts(&counter), (1, 1, 0, 0));
    assert!(skip.contains("b"));
}

#[test]
fn replay_keeps_a_carriage_return_that_no_line_feed_follows() {
    let mut src = Source::template("{}");
    let (skip, counter) = load_rec("a: good\r", &mut src);
    assert_eq!(counts(&counter), (0, 0, 0, 0));
    assert!(skip.contains("a"));
}

#[test]
fn replay_counts_a_name_each_time_it_occurs() {
    let mut src = Source::template("{}");
    let (skip, counter) = load_rec("a: good\na: bad\na: good\n", &mut src);
    assert_eq!(counts(&counter), (2, 1, 0, 0));
    assert!(skip.contains("a"));
}

#[test]
fn replay_takes_decided_names_from_the_table() {
    let mut src = Source::from_list("h/a\nh/b\nh/c\n");
    let (skip, _) = load_rec("a: good\nc: error: boom\nz: n/a\n", &mut src);
    assert!(skip.contains("a") && skip.contains("c") && skip.contains("z"));
    assert_eq!(src.provide("a"), None);
    assert_eq!(src.provide("c"), None);
    assert_eq!(src.into_rest(), vec![("b".to_string(), "h/b".to_string())]);
}

#[test]
fn replay_leaves_a_template_alone() {
    let mut src = Source::template("h/{}");
    let _ = load_rec("a: good\n", &mut src);
    assert_eq!(src.provide("a"), Some("h/a".to_string()));
}

#[test]
fn replay_splits_a_name_with_colon_at_the_first_separator() {
    let mut src = Source::template("{}");
    let (skip, counter) = load_rec("odd: name: good\n", &mut src);
    assert!(skip.contains("odd"));
    assert!(!skip.contains("odd: name"));
    assert_eq!(counts(&counter), (0, 0, 0, 0));
}

#[test]
fn resume_after_append_skips_and_counts_once() {
    let before = "a: good\nb: bad\n";
    let outcomes = [
        Outcome::Good,
        Outcome::Bad,
        Outcome::NotAvailable,
        Outcome::Error("connection reset".to_string()),
        Outcome::Error("ends in a carriage return\r".to_string()),
    ];
    let expected = [(2, 1, 0, 0), (1, 2, 0, 0), (1, 1, 1, 0), (1, 1, 0, 1), (1, 1, 0, 1)];
    for (outcome, want) in outcomes.iter().zip(expected) {
        let mut text = before.to_string();
        text.push_str(&ledger_line("new.bin", outcome));
        text.push('\n');
        let mut src = Source::template("{}");
        let (skip, counter) = load_rec(&text, &mut src);
        assert!(skip.contains("new.bin"));
        assert!(skip.contains("a") && skip.contains("b"));
        assert_eq!(counts(&counter), want);
    }
}

#[test]
fn resume_twice_changes_nothing() {
    let text = "a: good\nb: error: boom\n";
    let mut first = Source::from_list("h/a\nh/b\nh/c\n");
    let mut second = Source::from_list("h/a\nh/b\nh/c\n");
    let (skip_first, counter_first) = load_rec(text, &mut first);
    let (skip_second, counter_second) = load_rec(text, &mut second);
    assert_eq!(counter_first, counter_second);
    for name in ["a", "b", "c"] {
        assert_eq!(skip_first.contains(name), skip_second.contains(name));
    }
    assert_eq!(first.into_rest(), second.into_rest());
}
