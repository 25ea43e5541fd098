use howis::source::{fill_template, Source};

fn sorted_rest(src: Source) -> Vec<(String, String)> {
    let mut rest = src.into_rest();
    rest.sort();
    rest
}

#[test]
fn table_serves_a_name_once() {
    let mut src = Source::from_list("https://host/a.bin\nhttps://host/b.bin\n");
    assert_eq!(src.provide("a.bin"), Some("https://host/a.bin".to_string()));
    assert_eq!(src.provide("a.bin"), None);
    assert_eq!(src.provide("b.bin"), Some("https://host/b.bin".to_string()));
    assert_eq!(src.provide("b.bin"), None);
}

#[test]
fn table_has_nothing_for_an_unknown_name() {
    let mut src = Source::from_list("https://host/a.bin\n");
    assert_eq!(src.provide("c.bin"), None);
    assert_eq!(src.provide("a.bin"), Some("https://host/a.bin".to_string()));
}

#[test]
fn table_keys_urls_by_derived_name() {
    let mut src = Source::from_list("https://host/path/file.bin?token=abc\narchive.tar.gz");
    assert_eq!(
        src.provide("file.bin"),
        Some("https://host/path/file.bin?token=abc".to_string())
    );
    assert_eq!(src.provide("archive.tar.gz"), Some("archive.tar.gz".to_string()));
}

#[test]
fn table_later_url_replaces_earlier_one() {
    let mut src = Source::from_list("https://one/x.bin\nhttps://two/x.bin\n");
    assert_eq!(src.provide("x.bin"), Some("https://two/x.bin".to_string()));
    assert_eq!(src.provide("x.bin"), None);
}

#[test]
fn table_reads_crlf_lines() {
    let mut src = Source::from_list("https://host/a.bin\r\nhttps://host/b.bin\r\n");
    assert_eq!(src.provide("a.bin"), Some("https://host/a.bin".to_string()));
    assert_eq!(src.provide("b.bin"), Some("https://host/b.bin".to_string()));
}

#[test]
fn table_remove_forgets_without_serving() {
    let mut src = Source::from_list("https://host/a.bin\nhttps://host/b.bin\n");
    src.remove("a.bin");
    assert_eq!(src.provide("a.bin"), None);
    src.remove("never-there");
    assert_eq!(
        sorted_rest(src),
        vec![("b.bin".to_string(), "https://host/b.bin".to_string())]
    );
}

#[test]
fn table_rest_is_what_was_not_taken() {
    let mut src = Source::from_list("h/a\nh/b\nh/c\nh/d\n");
    assert_eq!(src.provide("b"), Some("h/b".to_string()));
    src.remove("d");
    assert_eq!(
        sorted_rest(src),
        vec![
            ("a".to_string(), "h/a".to_string()),
            ("c".to_string(), "h/c".to_string()),
        ]
    );
}

#[test]
fn table_rest_lists_each_name_once() {
    let src = Source::from_list("one/x\ntwo/x\nthree/x\none/y\n");
    assert_eq!(
        sorted_rest(src),
        vec![
            ("x".to_string(), "three/x".to_string()),
            ("y".to_string(), "one/y".to_string()),
        ]
    );
}

#[test]
fn table_of_empty_list_is_empty() {
    let mut src = Source::from_list("");
    assert_eq!(src.provide("a"), None);
    assert!(src.into_rest().is_empty());
}

#[test]
fn table_holds_nothing_under_the_empty_name() {
    let mut src = Source::from_list("h/a\n\nh/b\n");
    assert_eq!(src.provide(""), None);
    assert_eq!(
        sorted_rest(src),
        vec![("a".to_string(), "h/a".to_string()), ("b".to_string(), "h/b".to_string())]
    );
}

#[test]
fn table_leaves_out_a_line_that_gives_no_name() {
    let list = "https://host/dir/\nhttps://host/?q=1\n\n\r\n?\n/\nhttps://host/a.bin\n";
    let mut src = Source::from_list(list);
    assert_eq!(src.provide(""), None);
    assert_eq!(
        src.into_rest(),
        vec![("a.bin".to_string(), "https://host/a.bin".to_string())]
    );
}

#[test]
fn table_of_lines_without_names_is_empty() {
    assert!(Source::from_list("\n\n\n").into_rest().is_empty());
    assert!(Source::from_list("https://host/dir/").into_rest().is_empty());
    assert!(Source::build("list", Some("https://host/dir/\n")).into_rest().is_empty());
}

#[test]
fn table_shrinks_by_one_for_each_name_served() {
    let list = "h/a\nh/b\nh/c\n";
    assert_eq!(Source::from_list(list).into_rest().len(), 3);

    let mut src = Source::from_list(list);
    assert_eq!(src.provide("b"), Some("h/b".to_string()));
    assert_eq!(src.into_rest().len(), 2);

    let mut src = Source::from_list(list);
    assert_eq!(src.provide("zzz"), None);
    assert_eq!(src.provide("a"), Some("h/a".to_string()));
    assert_eq!(src.provide("a"), None);
    src.remove("c");
    src.remove("c");
    assert_eq!(src.into_rest().len(), 1);
}

#[test]
fn template_never_runs_out() {
    let mut src = Source::template("https://host/files/{}");
    assert_eq!(src.provide("a.bin"), Some("https://host/files/a.bin".to_string()));
    assert_eq!(src.provide("a.bin"), Some("https://host/files/a.bin".to_string()));
    assert_eq!(src.provide("b.bin"), Some("https://host/files/b.bin".to_string()));
    src.remove("a.bin");
    assert_eq!(src.provide("a.bin"), Some("https://host/files/a.bin".to_string()));
    assert!(src.into_rest().is_empty());
}

#[test]
fn template_rest_is_empty_from_the_start() {
    assert!(Source::template("{}").into_rest().is_empty());
    assert!(Source::template("no marker").into_rest().is_empty());
}

#[test]
fn fill_replaces_every_marker() {
    assert_eq!(fill_template("{}", "n"), "n");
    assert_eq!(fill_template("a{}b{}c", "xy"), "axybxyc");
    assert_eq!(fill_template("{}{}", "ab"), "abab");
    assert_eq!(fill_template("plain", "n"), "plain");
    assert_eq!(fill_template("", "n"), "");
}

#[test]
fn fill_handles_braces_that_are_no_marker() {
    assert_eq!(fill_template("{{}}", "n"), "{n}");
    assert_eq!(fill_template("{ }", "n"), "{ }");
    assert_eq!(fill_template("}{", "n"), "}{");
    assert_eq!(fill_template("{", "n"), "{");
    assert_eq!(fill_template("{}{", "n"), "n{");
}

#[test]
fn fill_does_not_rescan_the_name() {
    assert_eq!(fill_template("<{}>", "{}"), "<{}>");
    assert_eq!(fill_template("{}", ""), "");
}

#[test]
fn fill_agrees_with_std_replace() {
    let templates = ["{}", "a{}b", "{{}}", "{}{}{}", "x{y}z{}", "{", "}", "\u{e9}{}\u{2603}"];
    let names = ["", "n", "{}", "file.bin", "\u{fc}ber"];
    for t in templates {
        for n in names {
            assert_eq!(fill_template(t, n), t.replace("{}", n));
        }
    }
}

#[test]
fn build_picks_table_or_template() {
    let mut table = Source::build("list.txt", Some("https://host/a.bin\n"));
    assert!(matches!(table, Source::List(_)));
    assert_eq!(table.provide("a.bin"), Some("https://host/a.bin".to_string()));
    assert_eq!(table.provide("a.bin"), None);

    let mut template = Source::build("https://host/{}", None);
    assert!(matches!(template, Source::Template(_)));
    assert_eq!(template.provide("a.bin"), Some("https://host/a.bin".to_string()));
}
