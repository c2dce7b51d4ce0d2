use kb_archive::kb_utils;
use kb_archive::format_url;

#[test]
fn test_format_url_bulk() {
    let inputs_and_outputs = "\
en/library/ https://mariadb.com/kb/en/library/
/en/library https://mariadb.com/kb/en/library
kb/en/library https://mariadb.com/kb/en/library
/kb/en/library https://mariadb.com/kb/en/library
mariadb.com/kb/en https://mariadb.com/kb/en
https://mariadb.com/kb/en https://mariadb.com/kb/en
en/x?foo=1 https://mariadb.com/kb/en/x
en/x#frag https://mariadb.com/kb/en/x
en/x?foo=1#frag https://mariadb.com/kb/en/x
https://mariadb.com/kb/ https://mariadb.com/kb/";
    for content in inputs_and_outputs.lines() {
        let (input, output) = content.split_once(' ').unwrap();
        assert_eq!(kb_utils::format_url(input.trim()), output.trim());
    }
}

#[test]
fn format_url_prefixes_root() {
    assert_eq!(kb_utils::format_url("en/library"), "https://mariadb.com/kb/en/library");
    assert_eq!(format_url::format_url("en/library"), "https://mariadb.com/kb/en/library");
}

#[test]
fn format_url_truncates_query_and_fragment() {
    assert_eq!(kb_utils::format_url("en/a?b=c&d=e"), "https://mariadb.com/kb/en/a");
    assert_eq!(kb_utils::format_url("en/a#section"), "https://mariadb.com/kb/en/a");
    assert_eq!(kb_utils::format_url("en/a#x?y"), "https://mariadb.com/kb/en/a");
}

#[test]
fn format_url_trims_whitespace() {
    assert_eq!(kb_utils::format_url(" en/a "), "https://mariadb.com/kb/en/a");
}

#[test]
fn format_url_is_idempotent_on_samples() {
    let samples = vec![
        "en/library/",
        "/kb/en/x",
        "https://mariadb.com/kb/en/x",
        "weird#frag?q",
        "",
        "///",
        " spaced ",
    ];
    for s in samples {
        let once = kb_utils::format_url(s);
        let twice = kb_utils::format_url(&once);
        assert_eq!(once, twice);
        let once2 = format_url::format_url(s);
        let twice2 = format_url::format_url(&once2);
        assert_eq!(once2, twice2);
    }
}

#[test]
fn valid_url_rejects_administrative_segments() {
    assert!(!kb_utils::valid_url("https://mariadb.com/kb/article/+history/"));
    assert!(!kb_utils::valid_url("https://mariadb.com/kb/article/ask/more"));
    assert!(!kb_utils::valid_url("https://mariadb.com/kb/article/post/x"));
    assert!(!format_url::valid_url("https://mariadb.com/kb/article/+history/"));
    assert!(!format_url::valid_url("https://mariadb.com/kb/article/+r/42"));
}

#[test]
fn valid_url_rejects_administrative_suffixes() {
    assert!(!kb_utils::valid_url("https://mariadb.com/kb/article/ask"));
    assert!(!kb_utils::valid_url("https://mariadb.com/kb/article/flag"));
    assert!(!kb_utils::valid_url("https://mariadb.com/kb/article+search"));
    assert!(!format_url::valid_url("https://mariadb.com/kb/article/ask"));
    assert!(!format_url::valid_url("https://mariadb.com/kb/article/+flag"));
}

#[test]
fn valid_url_inclusion_boundary() {
    assert!(!kb_utils::valid_url("https://mariadb.com/kb/"));
    assert!(kb_utils::valid_url("https://mariadb.com/kb/article"));
    assert!(!format_url::valid_url("https://mariadb.com/kb/"));
    assert!(!format_url::valid_url("https://mariadb.com/kb"));
    assert!(format_url::valid_url("https://mariadb.com/kb/article"));
}

#[test]
fn filter_urls_formats_and_screens() {
    let raw = vec![
        String::from("en/library"),
        String::from("en/article/+history/"),
        String::from("en/article/ask"),
        String::from("en/good?q=1"),
    ];
    let out = kb_utils::filter_urls(raw.clone());
    assert_eq!(
        out,
        vec![
            String::from("https://mariadb.com/kb/en/library"),
            String::from("https://mariadb.com/kb/en/good"),
        ]
    );
    let out2 = format_url::filter_urls(raw);
    assert_eq!(
        out2,
        vec![
            String::from("https://mariadb.com/kb/en/library"),
            String::from("https://mariadb.com/kb/en/good"),
        ]
    );
}

#[test]
fn url_to_path_appends_html_when_no_extension() {
    let p = kb_utils::url_to_path("../HTML/", "https://mariadb.com/kb/", "https://mariadb.com/kb/en/library/");
    assert_eq!(p, "../HTML/en/library.html");
}

#[test]
fn url_to_path_keeps_existing_extension() {
    let p = kb_utils::url_to_path("../HTML/", "https://mariadb.com/kb/", "https://mariadb.com/kb/en/logo.png");
    assert_eq!(p, "../HTML/en/logo.png");
}
