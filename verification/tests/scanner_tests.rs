use kb_archive::scrape::{
    scrape_raw_urls, scrape_urls, scrape_recent_article_urls, get_lang_urls, get_url_suffix,
    url_to_path, path_to_url,
};
use kb_archive::date::{Date, parse_date};
use kb_archive::scrape_client::{FetchError, should_retry, remaining_wait, get_file_extention};

#[test]
fn scrape_raw_urls_finds_each_link_shape() {
    let html = r#"<a href="/kb/en/one"><a href="kb/en/two"><img src="https://mariadb.com/kb/en/three.png"><a href="mariadb.com/kb/en/four"><a href="https://elsewhere.example/">"#;
    let urls = scrape_raw_urls(html);
    assert_eq!(
        urls,
        vec![
            "en/one".to_string(),
            "en/two".to_string(),
            "en/three.png".to_string(),
            "en/four".to_string(),
        ]
    );
}

#[test]
fn scrape_urls_canonicalizes_and_screens() {
    let html = r#"<a href="/kb/en/one"><a href="/kb/en/one/+history/"><a href="/kb/en/one/ask">"#;
    let urls = scrape_urls(html);
    assert_eq!(urls, vec!["https://mariadb.com/kb/en/one".to_string()]);
}

#[test]
fn scrape_raw_urls_keeps_duplicates_in_order() {
    let html = r#"<a href="/kb/a"><a href="/kb/b"><a href="/kb/a">"#;
    let urls = scrape_raw_urls(html);
    assert_eq!(urls, vec!["a".to_string(), "b".to_string(), "a".to_string()]);
}

#[test]
fn recent_article_urls_pair_links_with_dates() {
    let html = r#"<li class="history_item" value="12">Article <a href="https://mariadb.com/kb/en/alpha/"><span class="datetime" title="2023-11-05 08:30"><li class="history_item" value="13">Article <a href="/kb/en/beta"><span class="datetime" title="2023-11-04 10:00">"#;
    let entries = scrape_recent_article_urls(html);
    assert_eq!(entries.len(), 2);
    assert_eq!(entries[0].0, "https://mariadb.com/kb/en/alpha/");
    assert_eq!(entries[0].1, Date { year: 2023, month: 11, day: 5 });
    assert_eq!(entries[1].0, "https://mariadb.com/kb/en/beta");
    assert_eq!(entries[1].1, Date { year: 2023, month: 11, day: 4 });
}

#[test]
fn lang_urls_come_from_the_localized_versions_list() {
    let html = "<a href=\"/kb/en/outside\">\n<h3> Localized Versions </h3> </div> <div> <ul>\n <li><a href=\"/kb/es/inside\">inside</a> [es] </li>\n <li><a href=\"/kb/fr/inside\">inside</a> [fr] </li>\n</ul>\n<a href=\"/kb/en/after\">";
    let urls = get_lang_urls(html);
    assert_eq!(
        urls,
        vec![
            "https://mariadb.com/kb/es/inside".to_string(),
            "https://mariadb.com/kb/fr/inside".to_string(),
        ]
    );
}

#[test]
fn lang_urls_empty_without_the_section() {
    assert_eq!(get_lang_urls("<p>nothing here</p>"), Vec::<String>::new());
}

#[test]
fn url_suffix_strips_root_parts() {
    assert_eq!(get_url_suffix("https://mariadb.com/kb/en/library?p=2"), "en/library");
    assert_eq!(get_url_suffix("kb/en/library"), "en/library");
    assert_eq!(get_url_suffix("en/library"), "en/library");
}

#[test]
fn url_to_path_applies_inferred_extension() {
    let p = url_to_path("../html/", "https://mariadb.com/kb/en/library", "html");
    assert_eq!(p, "../html/en/library.html");
    let q = url_to_path("../html/", "https://mariadb.com/kb/en/logo.svg", "png");
    assert_eq!(q, "../html/en/logo.png");
}

#[test]
fn path_to_url_inverts_the_mapping() {
    let p = url_to_path("../html/", "https://mariadb.com/kb/en/library", "html");
    assert_eq!(path_to_url("../html/", &p), "https://mariadb.com/kb/en/library");
}

#[test]
fn parse_date_validates_the_calendar() {
    assert_eq!(parse_date("2024-02-29"), Some(Date { year: 2024, month: 2, day: 29 }));
    assert_eq!(parse_date("2023-02-29"), None);
    assert_eq!(parse_date("2023-13-01"), None);
    assert_eq!(parse_date("2023-00-10"), None);
    assert_eq!(parse_date("2023-1-5"), Some(Date { year: 2023, month: 1, day: 5 }));
    assert_eq!(parse_date("not-a-date"), None);
    assert_eq!(parse_date(""), None);
}

#[test]
fn date_comparison_is_by_calendar_order() {
    let d = |y, m, day| Date { year: y, month: m, day };
    assert!(d(2024, 1, 2).ge(&d(2024, 1, 2)));
    assert!(d(2024, 2, 1).ge(&d(2024, 1, 30)));
    assert!(!d(2023, 12, 31).ge(&d(2024, 1, 1)));
}

#[test]
fn only_connection_failures_retry() {
    assert!(should_retry(&FetchError::ConnectionFailure));
    assert!(!should_retry(&FetchError::HttpStatusFailure(503)));
    assert!(!should_retry(&FetchError::ContentTypeMissing));
}

#[test]
fn throttle_waits_out_the_remainder() {
    assert_eq!(remaining_wait(120, 500), 380);
    assert_eq!(remaining_wait(500, 500), 0);
    assert_eq!(remaining_wait(900, 500), 0);
}

#[test]
fn extension_comes_from_the_content_type() {
    assert_eq!(get_file_extention("text/html; charset=utf-8"), Some("html".to_string()));
    assert_eq!(get_file_extention("application/pdf"), Some("pdf".to_string()));
    assert_eq!(get_file_extention("nonsense"), None);
}
