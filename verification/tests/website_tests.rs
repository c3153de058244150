use spider::configuration::FollowLinks;
use spider::website::Website;

#[test]
fn crawl_invalid() {
    let url = "https://w.com";
    let mut website: Website = Website::new(url);
    website.crawl();
    let visited = website.get_links();
    assert_eq!(visited.len(), 1);
    assert!(visited.contains(&format!("{}/", url)));
}

#[test]
fn not_crawl_blacklist() {
    let mut website: Website = Website::new("https://choosealicense.com");
    website
        .configuration
        .blacklist_url
        .push("https://choosealicense.com/licenses/".to_string());
    website.crawl();
    assert!(
        !website
            .get_links()
            .contains(&"https://choosealicense.com/licenses/".to_string())
    );
}

#[test]
fn test_link_duplicates() {
    fn has_unique_elements<T>(iter: T) -> bool
    where
        T: IntoIterator,
        T::Item: Eq + std::hash::Hash,
    {
        let mut uniq = hashbrown::HashSet::new();
        iter.into_iter().all(move |x| uniq.insert(x))
    }

    let mut website: Website = Website::new("http://0.0.0.0:8000");
    website.crawl();

    assert!(has_unique_elements(website.get_links().to_vec()));
}

#[test]
fn scope_hostname_enforced() {
    let website = Website::new("https://a.com");
    assert!(!website.is_allowed(&"https://b.com/x".to_string()));
    assert!(website.is_allowed(&"https://a.com/y".to_string()));
}

#[test]
fn scope_variants() {
    let mut website = Website::new("https://a.com");

    website.configuration.follow_links = FollowLinks::ALL;
    assert!(website.is_allowed(&"https://b.com/x".to_string()));

    website.configuration.follow_links = FollowLinks::NONE;
    assert!(!website.is_allowed(&"https://a.com/y".to_string()));

    // the two scopes without a differentiated rule keep the legacy
    // always-false behavior
    website.configuration.follow_links = FollowLinks::SUBDOMAINS;
    assert!(!website.is_allowed(&"https://a.com/y".to_string()));
    website.configuration.follow_links = FollowLinks::SAMEDOMAIN;
    assert!(!website.is_allowed(&"https://a.com/y".to_string()));
}

#[test]
fn blacklist_seed_never_visited() {
    let mut website = Website::new("https://w.com");
    website.configuration.blacklist_url.push("https://w.com/".to_string());
    assert!(!website.is_allowed(&"https://w.com/".to_string()));
    website.crawl();
    assert_eq!(website.get_links().len(), 0);
}

#[test]
fn sequential_parallel_equivalence() {
    let mut concurrent = Website::new("http://0.0.0.0:8000");
    concurrent.crawl();
    let mut sequential = Website::new("http://0.0.0.0:8000");
    sequential.crawl_sync();

    let visited_concurrent = concurrent.get_links();
    let visited_sequential = sequential.get_links();
    assert_eq!(visited_concurrent.len(), visited_sequential.len());
    for u in visited_concurrent.to_vec() {
        assert!(visited_sequential.contains(&u));
    }
}

#[test]
fn get_pages_synthesized() {
    let mut website = Website::new("https://w.com");
    website.crawl();
    let pages = website.get_pages();
    assert_eq!(pages.len(), 1);
    assert_eq!(pages[0].get_url(), "https://w.com/");
    assert_eq!(pages[0].get_html(), "");
}

#[test]
fn scrape_records_failed_fetch() {
    let mut website = Website::new("http://0.0.0.0:8000");
    website.scrape();
    let pages = website.get_pages();
    assert_eq!(pages.len(), 1);
    assert_eq!(pages[0].get_url(), "http://0.0.0.0:8000/");
    assert_eq!(pages[0].get_html(), "");
}

#[test]
fn try_new_invalid() {
    assert!(Website::try_new("not a url").is_none());
    assert!(Website::try_new("https://a.com").is_some());
}

#[test]
fn seed_is_normalized() {
    let website = Website::new("https://w.com");
    assert_eq!(website.domain, "https://w.com/");
}

#[test]
fn robots_pending_denies() {
    // no policy resolved yet: the robots check allows nothing, but with
    // compliance off the admission filter never consults it
    let website = Website::new("https://a.com");
    assert!(!website.is_allowed_robots(&"https://a.com/x".to_string()));
    assert!(website.is_allowed(&"https://a.com/x".to_string()));
}

#[test]
fn respect_robots_denies_before_policy_resolved() {
    let mut website = Website::new("https://stackoverflow.com");
    website.configuration.respect_robots_txt = true;
    assert_eq!(website.configuration.delay, 250);
    assert!(!website.is_allowed(&"https://stackoverflow.com/posts/".to_string()));
}

#[test]
fn robots_unreachable_fails_open() {
    let mut website = Website::new("http://0.0.0.0:8000");
    website.configuration.respect_robots_txt = true;
    website.configure_robots_parser();
    // the robots.txt fetch fails, so the policy allows everything and the
    // configured delay stands
    assert!(website.is_allowed_robots(&"http://0.0.0.0:8000/x".to_string()));
    assert_eq!(website.configuration.delay, 250);
    assert!(website.is_allowed(&"http://0.0.0.0:8000/x".to_string()));
}

#[test]
fn crawl_reports_completion() {
    let mut website = Website::new("https://w.com");
    assert!(website.crawl());
    let mut sequential = Website::new("https://w.com");
    assert!(sequential.crawl_sync());
    let mut scraped = Website::new("https://w.com");
    assert!(scraped.scrape());
}

#[test]
fn hostname_scope_distinguishes_ip_hosts() {
    let website = Website::new("http://1.2.3.4/");
    assert!(!website.is_allowed(&"http://5.6.7.8/x".to_string()));
    assert!(website.is_allowed(&"http://1.2.3.4/x".to_string()));
}

#[test]
fn seed_gets_visited() {
    // completeness: an admissible seed in the frontier is dispatched
    let mut website = Website::new("https://w.com");
    if website.crawl() {
        assert!(website.get_links().contains(&"https://w.com/".to_string()));
    }
}

#[test]
fn robots_configuration_is_idempotent() {
    let mut website = Website::new("http://0.0.0.0:8000");
    website.configuration.respect_robots_txt = true;
    website.configure_robots_parser();
    let delay_after_first = website.configuration.delay;
    website.configure_robots_parser();
    assert_eq!(website.configuration.delay, delay_after_first);
}

#[test]
fn link_rewrite_hook_keeps_admission() {
    let mut website = Website::new("https://w.com");
    let done = website.crawl_sync_with(&|s: String| format!("{}?rewritten=1", s));
    if done {
        // the visited set keeps the admitted URL, not the rewritten target
        assert!(website.get_links().contains(&"https://w.com/".to_string()));
        assert!(!website.get_links().contains(&"https://w.com/?rewritten=1".to_string()));
    }
}

#[test]
fn link_rewrite_hook_concurrent() {
    let mut website = Website::new("https://w.com");
    let done = website.crawl_with(&|s: String| format!("{}?rewritten=1", s));
    if done {
        assert!(website.get_links().contains(&"https://w.com/".to_string()));
        assert!(!website.get_links().contains(&"https://w.com/?rewritten=1".to_string()));
    }
}
