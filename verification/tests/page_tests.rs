use spider::page::Page;

fn offline_client() -> reqwest::blocking::Client {
    reqwest::blocking::Client::builder()
        .user_agent("spider/1.1.2")
        .build()
        .unwrap()
}

#[test]
fn test_abs_path() {
    let client = offline_client();
    let link_result = "https://choosealicense.com/".to_string();
    let page: Page = Page::new(&link_result, &client);

    assert_eq!(
        page.abs_path("/page"),
        url::Url::parse("https://choosealicense.com/page").unwrap().as_str()
    );
    assert_eq!(
        page.abs_path("/page?query=keyword"),
        url::Url::parse("https://choosealicense.com/page?query=keyword").unwrap().as_str()
    );
    assert_eq!(
        page.abs_path("/page#hash"),
        url::Url::parse("https://choosealicense.com/page").unwrap().as_str()
    );
    assert_eq!(
        page.abs_path("/page?query=keyword#hash"),
        url::Url::parse("https://choosealicense.com/page?query=keyword").unwrap().as_str()
    );
    assert_eq!(
        page.abs_path("#hash"),
        url::Url::parse("https://choosealicense.com/").unwrap().as_str()
    );
    assert_eq!(
        page.abs_path("tel://+212 3456"),
        url::Url::parse("https://choosealicense.com/").unwrap().as_str()
    );
}

#[test]
fn fragment_and_query_normalization() {
    let page = Page::build(&"https://a.com/".to_string(), "");
    assert_eq!(page.abs_path("/page#hash"), "https://a.com/page");
    assert_eq!(page.abs_path("/page?q=1#hash"), "https://a.com/page?q=1");
    assert_eq!(page.abs_path("tel:123"), "https://a.com/");
}

#[test]
fn page_build_getters() {
    let url = "https://a.com/".to_string();
    let mut page = Page::build(&url, "<html><body>hi</body></html>");
    assert_eq!(page.get_url(), "https://a.com/");
    assert_eq!(page.get_html(), "<html><body>hi</body></html>");
    page.clear_html();
    assert_eq!(page.get_html(), "");
}

#[test]
fn links_found_and_resolved() {
    let html = r#"<html><body>
        <a href="/x">x</a>
        <a href="/y#frag">y</a>
        <a href="/logo.png">logo</a>
    </body></html>"#;
    let page = Page::build(&"https://a.com/".to_string(), html);
    let links = page.links();
    assert!(links.contains(&"https://a.com/x".to_string()));
    assert!(links.contains(&"https://a.com/y".to_string()));
    assert!(!links.contains(&"https://a.com/logo.png".to_string()));
}

#[test]
fn links_deduplicated() {
    let html = r#"<a href="/x">one</a><a href="/x">two</a><a href="/x#frag">three</a>"#;
    let page = Page::build(&"https://a.com/".to_string(), html);
    let links = page.links();
    assert_eq!(links.len(), 1);
    assert!(links.contains(&"https://a.com/x".to_string()));
}

#[test]
fn selectors_mention_domain() {
    let page = Page::build(&"https://a.com/".to_string(), "");
    let selectors = page.get_page_selectors("https://a.com/");
    assert!(selectors.contains(r#"a[href^="/"]"#));
    assert!(selectors.contains(r#"a[href^="https://a.com/"]"#));
    assert!(selectors.contains(r#":not([href$=".png"])"#));
}
