use spider::configuration::Configuration;
use spider::page::Page;
use spider::url_set::UrlSet;

#[test]
fn url_set_insert_idempotent() {
    let mut s = UrlSet::new();
    assert!(s.is_empty());
    s.insert("https://a.com/".to_string());
    s.insert("https://a.com/".to_string());
    s.insert("https://a.com/x".to_string());
    assert_eq!(s.len(), 2);
    assert!(s.contains(&"https://a.com/".to_string()));
    assert!(s.contains(&"https://a.com/x".to_string()));
    assert!(!s.contains(&"https://a.com/y".to_string()));
}

#[test]
fn url_set_merge_disjoint() {
    // the round merge: discovered minus visited is the next frontier, and it
    // never overlaps the visited set
    let mut discovered = UrlSet::new();
    discovered.insert("https://a.com/1".to_string());
    discovered.insert("https://a.com/2".to_string());
    discovered.insert("https://a.com/3".to_string());

    let mut visited = UrlSet::new();
    visited.insert("https://a.com/2".to_string());

    let frontier = discovered.minus(&visited);
    assert_eq!(frontier.len(), 2);
    assert!(frontier.contains(&"https://a.com/1".to_string()));
    assert!(!frontier.contains(&"https://a.com/2".to_string()));
    assert!(frontier.contains(&"https://a.com/3".to_string()));
    for u in frontier.to_vec() {
        assert!(!visited.contains(&u));
    }
}

#[test]
fn failure_isolation_round() {
    // a frontier of three URLs, one of which fails to fetch (empty body):
    // all three are visited, the two good bodies contribute links, and three
    // page records come out
    let urls = [
        "https://a.com/1".to_string(),
        "https://a.com/2".to_string(),
        "https://a.com/3".to_string(),
    ];
    let bodies = [r#"<a href="/x">x</a>"#, r#"<a href="/y">y</a>"#, ""];

    let mut visited = UrlSet::new();
    let mut discovered = UrlSet::new();
    let mut records: Vec<Page> = Vec::new();
    for (url, body) in urls.iter().zip(bodies.iter()) {
        visited.insert(url.clone());
        let page = Page::build(url, body);
        discovered.extend_with(&page.links());
        records.push(page);
    }

    assert_eq!(visited.len(), 3);
    assert_eq!(records.len(), 3);
    let frontier = discovered.minus(&visited);
    assert_eq!(frontier.len(), 2);
    assert!(frontier.contains(&"https://a.com/x".to_string()));
    assert!(frontier.contains(&"https://a.com/y".to_string()));
}

#[test]
fn configuration_defaults() {
    let configuration = Configuration::new();
    assert!(!configuration.respect_robots_txt);
    assert!(configuration.blacklist_url.is_empty());
    assert_eq!(configuration.user_agent, "spider/1.1.2");
    assert_eq!(configuration.delay, 250);
    assert!(configuration.concurrency >= 1);
    assert!(matches!(
        configuration.follow_links,
        spider::configuration::FollowLinks::HOSTNAME
    ));
    assert!(matches!(
        spider::configuration::FollowLinks::default(),
        spider::configuration::FollowLinks::HOSTNAME
    ));
}

#[test]
fn delay_override_prefers_directive() {
    assert_eq!(spider::website::delay_override(Some(60000), 250), 60000);
    assert_eq!(spider::website::delay_override(Some(10000), 250), 10000);
    assert_eq!(spider::website::delay_override(None, 250), 250);
}
