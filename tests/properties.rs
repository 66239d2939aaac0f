use xssan::prelude::{remove_html_tags, remove_brackets, sanitize_string, AllocatingSanitizer};
use xssan::entities::replace_all;

const SAMPLES: [&str; 12] = [
    "",
    "plain text",
    "<h1>hi!</h1>",
    "<h1<p>>hi!</h1>",
    "<<<<<<<hi!",
    "<div data=foo>bar>content</div>",
    "a>b<c>d>",
    "text > more text >> even more",
    "<a><b><c",
    "&lt;p&rt;",
    "<你好>世界<",
    "><><>>><<<",
];

#[test]
fn remove_html_tags_twice_is_once() {
    for s in SAMPLES {
        let once = remove_html_tags(s);
        assert_eq!(once, remove_html_tags(once.clone()), "input {:?}", s);
    }
}

#[test]
fn remove_brackets_twice_is_once() {
    for s in SAMPLES {
        let once = remove_brackets(s);
        assert_eq!(once, remove_brackets(once.clone()), "input {:?}", s);
    }
}

#[test]
fn sanitize_string_twice_is_once() {
    for s in SAMPLES {
        let once = sanitize_string(s);
        assert_eq!(once, sanitize_string(once.clone()), "input {:?}", s);
    }
    assert_eq!("&lt;", sanitize_string(sanitize_string("<")));
}

#[test]
fn output_lengths_against_input() {
    for s in SAMPLES {
        let n = s.chars().count();
        assert!(sanitize_string(s).chars().count() >= n, "input {:?}", s);
        assert!(remove_brackets(s).chars().count() <= n, "input {:?}", s);
        assert!(remove_html_tags(s).chars().count() <= n, "input {:?}", s);
    }
}

#[test]
fn empty_input_gives_empty_output() {
    assert_eq!("", sanitize_string(""));
    assert_eq!("", remove_brackets(""));
    assert_eq!("", remove_html_tags(""));
}

#[test]
fn remove_html_tags_counts_characters_not_bytes() {
    assert_eq!("世界", remove_html_tags("<你好>世界"));
    assert_eq!("é<ü", remove_html_tags("é<ü"));
    assert_eq!("ça", remove_html_tags("<b>ç</b>a"));
}

#[test]
fn remove_html_tags_stray_gt_extends_last_deletion() {
    assert_eq!("w", remove_html_tags("<a>xyz>w"));
    assert_eq!("a>b", remove_html_tags("a>b<c>d>"));
}

#[test]
fn remove_html_tags_keeps_gt_before_any_tag() {
    assert_eq!("a>b", remove_html_tags("a>b"));
    assert_eq!(">>x", remove_html_tags(">>x"));
}

#[test]
fn sanitize_string_replaces_in_both_orders() {
    assert_eq!("&rt;&lt;", sanitize_string("><"));
    assert_eq!("&lt;é&rt;", sanitize_string("<é>"));
}

#[test]
fn sanitize_in_place_on_unicode() {
    let mut s = "<ü>".to_string();
    s.sanitize();
    assert_eq!("&lt;ü&rt;", s);
}

#[test]
fn replace_all_replaces_each_occurrence() {
    assert_eq!("a--b--", replace_all("a-b-", '-', "--"));
    assert_eq!("ab", replace_all("a-b", '-', ""));
    assert_eq!("abc", replace_all("abc", '-', "xyz"));
    assert_eq!("x€y", replace_all("x€y", '€', "€"));
}
