use kb_archive::date::Date;
use kb_archive::scrape::{Scraper, ScrapeMethod, use_local_copy, updated_urls_page, last_run_cutoff, parse_url_locations};
use kb_archive::kb_urls::KbItem;

fn date(day: u32) -> Date {
    Date { year: 2024, month: 1, day }
}

#[test]
fn standard_scrape_visits_each_url_once_and_terminates() {
    let a = "https://mariadb.com/kb/a";
    let b = "https://mariadb.com/kb/b";
    let c = "https://mariadb.com/kb/c";
    let mut s = Scraper::new("../html/", "", false);
    s.seed(a);
    let mut visited: Vec<String> = Vec::new();
    let mut steps = 0;
    while let Some(u) = s.next_url() {
        steps += 1;
        assert!(steps <= 10, "traversal did not terminate");
        let body = match u.as_str() {
            "https://mariadb.com/kb/a" => r#"<a href="/kb/b">"#,
            "https://mariadb.com/kb/b" => r#"<a href="/kb/a"> <a href="/kb/c">"#,
            "https://mariadb.com/kb/c" => "no links here",
            other => panic!("unexpected fetch of {other}"),
        };
        s.record_stored(&u, "p");
        s.enqueue_links(body);
        visited.push(u);
    }
    assert_eq!(visited, vec![a.to_string(), b.to_string(), c.to_string()]);
}

#[test]
fn next_url_skips_completed_entries() {
    let mut s = Scraper::new("../html/", "", false);
    s.seed("https://mariadb.com/kb/a");
    s.seed("https://mariadb.com/kb/a");
    s.record_failed("https://mariadb.com/kb/a");
    assert_eq!(s.next_url(), None);
}

#[test]
fn resume_uses_local_copy_only_when_path_exists() {
    assert!(use_local_copy(ScrapeMethod::Resume, true));
    assert!(!use_local_copy(ScrapeMethod::Resume, false));
    assert!(!use_local_copy(ScrapeMethod::Standard, true));
    assert!(!use_local_copy(ScrapeMethod::RecentChanges, true));
}

#[test]
fn resume_still_enqueues_links_of_local_copy() {
    let u = "https://mariadb.com/kb/a";
    let mut s = Scraper::new("../html/", "", false);
    assert!(use_local_copy(ScrapeMethod::Resume, true));
    let local_body = r#"<a href="/kb/b">"#;
    s.record_stored(u, "../html/a.html");
    s.enqueue_links(local_body);
    assert_eq!(s.next_url(), Some("https://mariadb.com/kb/b".to_string()));
}

#[test]
fn recent_changes_cutoff_stops_after_second_page() {
    fn item(name: &str, day: u32) -> String {
        format!(
            "<li class=\"history_item\" value=\"1\">Article <a href=\"/kb/{name}\"><span class=\"datetime\" title=\"2024-01-0{day} 10:00\">"
        )
    }
    let page1 = format!("{}{}{}", item("a5", 5), item("a4", 4), item("a3", 3));
    let page2 = format!("{}{}{}", item("a3", 3), item("a2", 2), item("a1", 1));
    let cutoff = date(3);

    let (kept1, stop1) = updated_urls_page(&page1, &cutoff);
    let urls1: Vec<String> = kept1.iter().map(|e| e.0.clone()).collect();
    assert_eq!(
        urls1,
        vec![
            "https://mariadb.com/kb/a5".to_string(),
            "https://mariadb.com/kb/a4".to_string(),
            "https://mariadb.com/kb/a3".to_string(),
        ]
    );
    assert!(!stop1, "page of only-new entries must continue pagination");

    let (kept2, stop2) = updated_urls_page(&page2, &cutoff);
    let urls2: Vec<String> = kept2.iter().map(|e| e.0.clone()).collect();
    assert_eq!(urls2, vec!["https://mariadb.com/kb/a3".to_string()]);
    assert!(stop2, "page holding entries below the cutoff must stop pagination");
}

#[test]
fn last_run_cutoff_defaults_to_minimum() {
    assert_eq!(last_run_cutoff(None), Date { year: 0, month: 1, day: 1 });
    assert_eq!(last_run_cutoff(Some("garbage")), Date { year: 0, month: 1, day: 1 });
    assert_eq!(last_run_cutoff(Some("2024-03-09")), Date { year: 2024, month: 3, day: 9 });
}

#[test]
fn index_survives_render_and_reload() {
    let mut s = Scraper::new("../html/", "", false);
    s.record_stored("https://mariadb.com/kb/a/", "../html/a.html");
    let text = s.render_url_locations();
    assert_eq!(text, "https://mariadb.com/kb/a ../html/a.html");
    let reloaded = Scraper::new("../html/", &text, false);
    assert!(reloaded.index_has_key("https://mariadb.com/kb/a"));
    assert!(!reloaded.index_has_key("https://mariadb.com/kb/b"));
}

#[test]
fn index_render_joins_lines_and_overwrites_keys() {
    let mut s = Scraper::new("../html/", "", false);
    s.record_stored("https://mariadb.com/kb/a", "p1");
    s.record_stored("https://mariadb.com/kb/b", "p2");
    s.record_stored("https://mariadb.com/kb/a", "p3");
    let text = s.render_url_locations();
    assert_eq!(text, "https://mariadb.com/kb/a p3\nhttps://mariadb.com/kb/b p2");
}

#[test]
fn parse_url_locations_skips_damaged_lines() {
    let parsed = parse_url_locations("u1 p1\ndamaged-line\nu2 p2 extra");
    assert_eq!(
        parsed,
        vec![
            ("u1".to_string(), "p1".to_string()),
            ("u2".to_string(), "p2 extra".to_string()),
        ]
    );
}

#[test]
fn pdf_urls_respects_flags_and_resume() {
    let rows = vec![
        KbItem { url: "https://mariadb.com/kb/a".to_string(), pdf_include: 1 },
        KbItem { url: "https://mariadb.com/kb/b".to_string(), pdf_include: 0 },
        KbItem { url: "https://mariadb.com/kb/c/".to_string(), pdf_include: 1 },
        KbItem { url: "https://mariadb.com/kb/d".to_string(), pdf_include: 2 },
    ];
    let fresh = Scraper::new("../html/", "", false);
    assert_eq!(
        fresh.pdf_urls(&rows),
        vec!["https://mariadb.com/kb/a".to_string(), "https://mariadb.com/kb/c/".to_string()]
    );
    let resumed = Scraper::new("../html/", "https://mariadb.com/kb/c x.html", true);
    assert_eq!(resumed.pdf_urls(&rows), vec!["https://mariadb.com/kb/a".to_string()]);
}

#[test]
fn pdf_langs_seed_urls_dedups_consecutive() {
    let rows = vec![
        KbItem { url: "u1".to_string(), pdf_include: 1 },
        KbItem { url: "u1".to_string(), pdf_include: 2 },
        KbItem { url: "u3".to_string(), pdf_include: 0 },
        KbItem { url: "u2".to_string(), pdf_include: 1 },
        KbItem { url: "u1".to_string(), pdf_include: 1 },
    ];
    let seeds = kb_archive::scrape::pdf_langs_seed_urls(&rows);
    assert_eq!(seeds, vec!["u1".to_string(), "u2".to_string(), "u1".to_string()]);
}
