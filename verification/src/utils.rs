//! The crawl engine's external collaborators: the HTTP fetcher, the polite
//! delay, the worker pool, the robots.txt policy source, and URL
//! normalization. Each outside call sits behind a trusted wrapper whose
//! contract states what the engine may rely on.

use vstd::prelude::*;

use reqwest::blocking::Client;
use rayon::ThreadPool;
use robotparser_fork::model::FetchedRobotsTxt;
use robotparser_fork::parser::parse_fetched_robots_txt;
use robotparser_fork::service::RobotsTxtService;
use std::sync::mpsc::channel;

verus! {

#[verifier::external_type_specification]
#[verifier::external_body]
pub struct ExClient(Client);

#[verifier::external_type_specification]
#[verifier::external_body]
pub struct ExThreadPool(ThreadPool);

#[verifier::external_type_specification]
#[verifier::external_body]
pub struct ExFetchedRobotsTxt(FetchedRobotsTxt);

/// What `url::Url::parse` makes of a string: the serialized canonical form of
/// the URL when the string parses as an absolute URL, `None` otherwise.
pub uninterp spec fn parse_norm(u: Seq<char>) -> Option<Seq<char>>;

/// Whether a string parses as an absolute URL.
pub open spec fn parse_ok(u: Seq<char>) -> bool {
    parse_norm(u) is Some
}

/// What `url::Url::host_str` makes of a URL string: its host, `None` when
/// the URL has no host or the string does not parse.
pub uninterp spec fn host_of(u: Seq<char>) -> Option<Seq<char>>;

/// Relies on url::Url::parse: `Some` holds the parsed URL's serialization
/// (host normalization, default-port elision, path added where required),
/// `None` means the string is not an absolute URL.
#[verifier::external_body]
pub(crate) fn normalize_url(u: &str) -> (r: Option<String>)
    ensures
        r.deep_view() == parse_norm(u@),
{
    match url::Url::parse(u) {
        Ok(parsed) => Some(parsed.to_string()),
        Err(_) => None,
    }
}

/// Relies on url::Url::host_str: the URL's host (a domain name or an IP
/// address); `None` for a URL without a host or a string that does not parse
/// as a URL.
#[verifier::external_body]
pub(crate) fn url_host(u: &str) -> (r: Option<String>)
    ensures
        r.deep_view() == host_of(u@),
{
    match url::Url::parse(u) {
        Ok(parsed) => parsed.host_str().map(|h| h.to_string()),
        Err(_) => None,
    }
}

/// Relies on reqwest's blocking client: issues a GET for the URL and returns
/// the body text of a 200 response, or the empty string on any network
/// error, other status, or undecodable body.
#[verifier::external_body]
pub fn fetch_page_html(url: &str, client: &Client) -> (r: String) {
    client.get(url).send().ok().filter(|res| res.status() == reqwest::StatusCode::OK).and_then(
        |res| res.text().ok(),
    ).unwrap_or_default()
}

/// The polite per-request crawl delay: blocks the calling thread for the
/// given number of milliseconds. Relies on mpsc's recv_timeout: receiving on
/// a channel whose sender is held but never written times out after exactly
/// the given duration.
#[verifier::external_body]
pub(crate) fn sleep_ms(ms: u64) {
    let (_keep, never) = channel::<()>();
    let _ = never.recv_timeout(std::time::Duration::from_millis(ms));
}

/// Relies on reqwest's blocking ClientBuilder: a client that sends keep-alive
/// connection headers and the given user agent; `None` when the builder
/// fails (an invalid user-agent string, or no usable TLS backend).
#[verifier::external_body]
pub(crate) fn build_http_client(user_agent: &str) -> (r: Option<Client>) {
    let mut headers = reqwest::header::HeaderMap::new();
    headers.insert(reqwest::header::CONNECTION, reqwest::header::HeaderValue::from_static("keep-alive"));
    Client::builder().default_headers(headers).user_agent(user_agent).build().ok()
}

/// Relies on rayon's ThreadPoolBuilder: a pool of the given number of worker
/// threads (rayon substitutes its own default for zero); `None` when the
/// pool cannot be built.
#[verifier::external_body]
pub(crate) fn build_thread_pool(num_threads: usize) -> (r: Option<ThreadPool>) {
    rayon::ThreadPoolBuilder::new().num_threads(num_threads).build().ok()
}

/// Relies on rayon and reqwest: fetches every URL on the pool, at most the
/// pool's thread count in flight at once, each worker sleeping `delay`
/// milliseconds before its GET, and blocks until every worker has reported
/// back through the collection channel — the round's synchronization
/// barrier. One `(url, body)` pair comes back per input URL, in completion
/// order; a failed fetch yields an empty body.
#[verifier::external_body]
pub(crate) fn fetch_batch(pool: &ThreadPool, client: &Client, urls: &Vec<String>, delay: u64) -> (r:
    Vec<(String, String)>)
    ensures
        r@.len() == urls@.len(),
        forall|i: int| 0 <= i < r@.len() ==> urls.deep_view().contains((#[trigger] r@[i].0)@),
        forall|j: int|
            0 <= j < urls@.len() ==> exists|i: int|
                0 <= i < r@.len() && r@[i].0@ == (#[trigger] urls@[j])@,
        urls.deep_view().no_duplicates() ==> forall|i: int, j: int|
            0 <= i < j < r@.len() ==> (#[trigger] r@[i].0)@ != (#[trigger] r@[j].0)@,
{
    let (tx, rx) = channel();
    for u in urls.iter().cloned() {
        let (t, c) = (tx.clone(), client.clone());
        pool.spawn(move || {
            sleep_ms(delay);
            let body = fetch_page_html(u.as_str(), &c);
            let _ = t.send((u, body));
        });
    }
    drop(tx);
    rx.into_iter().collect()
}

/// Relies on reqwest and robotparser: fetches `robots.txt` at the site's
/// origin with the given client and parses it, taking the response status
/// into account (401/403 deny everything, a failed fetch allows everything).
/// `None` when `site` is not a URL.
#[verifier::external_body]
pub(crate) fn read_robots_txt(site: &str, client: &Client) -> (r: Option<FetchedRobotsTxt>) {
    let origin = match url::Url::parse(site) {
        Ok(u) => u.origin(),
        Err(_) => {
            return None;
        },
    };
    let target = format!("{}/robots.txt", origin.unicode_serialization());
    let (status, text) = match client.get(&target).send() {
        Ok(res) => (res.status().as_u16(), res.text().unwrap_or_default()),
        Err(_) => (599u16, String::new()),
    };
    Some(parse_fetched_robots_txt(origin, status, &text).get_result())
}

/// Relies on robotparser's RobotsTxtService::can_fetch: whether the fetched
/// policy allows the agent to fetch the URL; a URL that does not parse is
/// not allowed.
#[verifier::external_body]
pub(crate) fn robots_can_fetch(robots: &FetchedRobotsTxt, agent: &str, url: &str) -> (r: bool) {
    match url::Url::parse(url) {
        Ok(u) => robots.can_fetch(agent, &u),
        Err(_) => false,
    }
}

/// Relies on robotparser's RobotsTxtService::get_crawl_delay: the policy's
/// crawl delay for the agent, in whole milliseconds.
#[verifier::external_body]
pub(crate) fn robots_crawl_delay(robots: &FetchedRobotsTxt, agent: &str) -> (r: Option<u64>) {
    robots.get_crawl_delay(agent).map(|d| d.as_millis() as u64)
}

} // verus!
