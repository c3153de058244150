//! The crawl engine: a website with its frontier and visited sets, the
//! admission filter, and the breadth-first dispatch-collect-merge rounds, in
//! a bounded-concurrency variant and a sequential reference variant.

use vstd::prelude::*;
use vstd::set_lib::lemma_len_subset;

use crate::black_list;
use crate::configuration::Configuration;
use crate::configuration::FollowLinks;
use crate::page::links_of;
use crate::page::Page;
use crate::url_set::UrlSet;
use crate::utils::build_http_client;
use crate::utils::build_thread_pool;
use crate::utils::host_of;
use crate::utils::fetch_batch;
use crate::utils::normalize_url;
use crate::utils::parse_norm;
use crate::utils::parse_ok;
use crate::utils::read_robots_txt;
use crate::utils::robots_can_fetch;
use crate::utils::robots_crawl_delay;
use crate::utils::sleep_ms;
use crate::utils::url_host;
use rayon::ThreadPool;
use reqwest::blocking::Client;
use robotparser_fork::model::FetchedRobotsTxt;

verus! {

/// Whether the follow-links scope admits candidate `u` for a crawl seeded at
/// `seed`. `HOSTNAME` asks for exact host equality. `SUBDOMAINS` and
/// `SAMEDOMAIN` are defined scopes without a differentiated rule yet; they
/// admit nothing, preserving the legacy behavior.
pub open spec fn scope_allows(follow: FollowLinks, seed: Seq<char>, u: Seq<char>) -> bool {
    match follow {
        FollowLinks::ALL => true,
        FollowLinks::HOSTNAME => host_of(u) == host_of(seed),
        FollowLinks::SAMEDOMAIN => false,
        FollowLinks::SUBDOMAINS => false,
        FollowLinks::NONE => false,
    }
}

/// The crawl delay after a robots policy has been read: a crawl-delay
/// directive for the agent overrides the current delay; without one the
/// current delay stands.
pub fn delay_override(directive: Option<u64>, current: u64) -> (r: u64)
    ensures
        r == (if directive is Some {
            directive.unwrap()
        } else {
            current
        }),
{
    match directive {
        Some(ms) => ms,
        None => current,
    }
}

/// Whether two URL strings have the same host.
fn same_host(a: &String, b: &String) -> (r: bool)
    ensures
        r == (host_of(a@) == host_of(b@)),
{
    let ha = url_host(a.as_str());
    let hb = url_host(b.as_str());
    match (ha, hb) {
        (Some(x), Some(y)) => x.eq(&y),
        (None, None) => true,
        _ => false,
    }
}

/// A website to crawl, gathering all reachable links breadth-first.
#[derive(Debug)]
pub struct Website {
    /// Crawl policy for this website.
    pub configuration: Configuration,
    /// The canonical form of the start URL given to `new`.
    pub domain: String,
    /// The frontier: URLs discovered but not yet dispatched.
    links: UrlSet,
    /// URLs dispatched for fetch at least once.
    links_visited: UrlSet,
    /// Pages stored by `scrape`.
    pages: Vec<Page>,
    /// The robots.txt policy, fetched at most once per crawl.
    robots: Option<FetchedRobotsTxt>,
}

impl Website {
    /// The frontier set.
    pub closed spec fn frontier(self) -> UrlSet {
        self.links
    }

    /// The visited set.
    pub closed spec fn visited(self) -> UrlSet {
        self.links_visited
    }

    /// The stored page records.
    pub closed spec fn page_records(self) -> Seq<Page> {
        self.pages@
    }

    /// The robots.txt policy handle, if one has been fetched.
    pub closed spec fn robots_handle(self) -> Option<FetchedRobotsTxt> {
        self.robots
    }

    /// The crawl configuration, as a spec value.
    pub closed spec fn config(self) -> Configuration {
        self.configuration
    }

    /// The canonical seed URL.
    pub closed spec fn seed(self) -> Seq<char> {
        self.domain@
    }

    /// Whether `u` has been dispatched for fetch.
    pub open spec fn has_visited(self, u: Seq<char>) -> bool {
        self.visited().has(u)
    }

    /// Whether `u` is waiting in the frontier.
    pub open spec fn in_frontier(self, u: Seq<char>) -> bool {
        self.frontier().has(u)
    }

    /// How many URLs have been visited.
    pub open spec fn visited_count(self) -> nat {
        self.visited().card()
    }

    /// Whether `u` matches the configured blacklist.
    pub open spec fn blacklisted_url(self, u: Seq<char>) -> bool {
        black_list::blacklisted(self.config().blacklist_url.deep_view(), u)
    }

    /// Whether `u` passes the follow-links scope for this website.
    pub open spec fn scope_ok(self, u: Seq<char>) -> bool {
        scope_allows(self.config().follow_links, self.seed(), u)
    }

    /// The admission filter's decision, short of the robots policy: `u` has
    /// not been visited, is not blacklisted, and is in scope.
    pub open spec fn admissible(self, u: Seq<char>) -> bool {
        &&& !self.has_visited(u)
        &&& !self.blacklisted_url(u)
        &&& self.scope_ok(u)
    }

    /// Both URL sets are well-formed.
    pub open spec fn sets_wf(self) -> bool {
        self.frontier().wf() && self.visited().wf()
    }

    /// The set-algebra invariant restored by every round merge: no URL is in
    /// the frontier and visited at once.
    pub open spec fn merged(self) -> bool {
        forall|u: Seq<char>| !(self.in_frontier(u) && self.has_visited(u))
    }

    /// A well-formed website: both sets well-formed and disjoint.
    pub open spec fn wf(self) -> bool {
        self.sets_wf() && self.merged()
    }

    /// The policy fields a crawl never changes (everything in the
    /// configuration but the delay, which robots.txt may override once).
    pub open spec fn policy_kept(pre: Website, post: Website) -> bool {
        &&& post.config().respect_robots_txt == pre.config().respect_robots_txt
        &&& post.config().blacklist_url == pre.config().blacklist_url
        &&& post.config().follow_links == pre.config().follow_links
        &&& post.config().user_agent == pre.config().user_agent
        &&& post.config().concurrency == pre.config().concurrency
        &&& post.seed() == pre.seed()
    }

    /// Initialize a website from a start URL, which must parse; the frontier
    /// starts as exactly the canonical form of the seed.
    pub fn new(domain: &str) -> (r: Self)
        requires
            parse_ok(domain@),
        ensures
            r.wf(),
            r.seed() == parse_norm(domain@).unwrap(),
            forall|u: Seq<char>| r.in_frontier(u) <==> u == parse_norm(domain@).unwrap(),
            forall|u: Seq<char>| !r.has_visited(u),
            r.page_records().len() == 0,
            r.robots_handle() is None,
            !r.config().respect_robots_txt,
            r.config().blacklist_url@.len() == 0,
            r.config().follow_links is HOSTNAME,
            r.config().user_agent@ == "spider/1.1.2"@,
            r.config().delay == 250,
            r.config().concurrency >= 4,
            r.config().wf(),
    {
        let parsed = normalize_url(domain);
        let url: String = match parsed {
            Some(n) => n,
            None => {
                proof {
                    assert(false);
                }
                String::new()
            },
        };
        let mut links = UrlSet::new();
        links.insert(url.clone());
        Website {
            configuration: Configuration::new(),
            domain: url,
            links,
            links_visited: UrlSet::new(),
            pages: Vec::new(),
            robots: None,
        }
    }

    /// Initialize a website from a start URL, or `None` when the string does
    /// not parse as a URL.
    pub fn try_new(domain: &str) -> (r: Option<Self>)
        ensures
            r is Some <==> parse_ok(domain@),
            r matches Some(w) ==> w.wf() && w.seed() == parse_norm(domain@).unwrap() && (forall|
                u: Seq<char>,
            | w.in_frontier(u) <==> u == parse_norm(domain@).unwrap()) && (forall|u: Seq<char>|
                !w.has_visited(u)) && w.page_records().len() == 0,
    {
        match normalize_url(domain) {
            Some(_) => Some(Website::new(domain)),
            None => None,
        }
    }

    /// Page getter: the stored records, or, for crawls that kept no bodies,
    /// one body-less record per visited URL.
    pub fn get_pages(&self) -> (r: Vec<Page>)
        requires
            self.wf(),
        ensures
            self.page_records().len() > 0 ==> r@.len() == self.page_records().len(),
            self.page_records().len() > 0 ==> forall|i: int|
                0 <= i < r@.len() ==> (#[trigger] r@[i]).url_spec()
                    == self.page_records()[i].url_spec() && r@[i].html_spec()
                    == self.page_records()[i].html_spec(),
            self.page_records().len() == 0 ==> r@.len() == self.visited_count(),
            self.page_records().len() == 0 ==> forall|i: int|
                0 <= i < r@.len() ==> self.has_visited((#[trigger] r@[i]).url_spec()) && r@[
                    i
                ].html_spec().len() == 0,
            self.page_records().len() == 0 ==> forall|u: Seq<char>|
                self.has_visited(u) ==> exists|i: int|
                    0 <= i < r@.len() && (#[trigger] r@[i]).url_spec() == u,
    {
        if self.pages.len() > 0 {
            let mut r: Vec<Page> = Vec::new();
            let mut i: usize = 0;
            while i < self.pages.len()
                invariant
                    i <= self.pages@.len(),
                    r@.len() == i,
                    forall|j: int|
                        0 <= j < i ==> (#[trigger] r@[j]).url_spec() == self.pages@[j].url_spec()
                            && r@[j].html_spec() == self.pages@[j].html_spec(),
                decreases self.pages@.len() - i,
            {
                let p = &self.pages[i];
                r.push(Page::build(p.get_url(), p.get_html().as_str()));
                i = i + 1;
            }
            r
        } else {
            let vs = self.links_visited.to_vec();
            let mut r: Vec<Page> = Vec::new();
            let mut i: usize = 0;
            while i < vs.len()
                invariant
                    self.wf(),
                    i <= vs@.len(),
                    r@.len() == i,
                    vs@.len() == self.visited_count(),
                    forall|j: int| 0 <= j < vs@.len() ==> self.has_visited((#[trigger] vs@[j])@),
                    forall|x: Seq<char>|
                        self.has_visited(x) ==> exists|k: int|
                            0 <= k < vs@.len() && (#[trigger] vs@[k])@ == x,
                    forall|j: int|
                        0 <= j < i ==> (#[trigger] r@[j]).url_spec() == vs@[j]@ && r@[
                            j
                        ].html_spec().len() == 0,
                decreases vs@.len() - i,
            {
                proof {
                    reveal_strlit("");
                }
                r.push(Page::build(&vs[i], ""));
                i = i + 1;
            }
            assert forall|u: Seq<char>| self.has_visited(u) implies exists|i: int|
                0 <= i < r@.len() && (#[trigger] r@[i]).url_spec() == u by {
                let k = choose|k: int| 0 <= k < vs@.len() && (#[trigger] vs@[k])@ == u;
                assert(r@[k].url_spec() == u);
            }
            r
        }
    }

    /// Visited-links getter.
    pub fn get_links(&self) -> (r: &UrlSet)
        ensures
            r == self.visited(),
    {
        &self.links_visited
    }

    /// Crawl delay getter, in milliseconds.
    fn get_delay(&self) -> (d: u64)
        ensures
            d == self.configuration.delay,
    {
        self.configuration.delay
    }

    /// Fetch and parse robots.txt once per crawl, when the configuration asks
    /// for it; a crawl-delay directive for the configured user agent
    /// overrides the configured delay. A failed fetch leaves the policy
    /// fail-open and the delay unchanged.
    pub fn configure_robots_parser(&mut self)
        ensures
            final(self).frontier() == old(self).frontier(),
            final(self).visited() == old(self).visited(),
            final(self).page_records() == old(self).page_records(),
            Self::policy_kept(*old(self), *final(self)),
            !old(self).config().respect_robots_txt ==> *final(self) == *old(self),
            old(self).robots_handle() is Some ==> *final(self) == *old(self),
            final(self).robots_handle() is None ==> final(self).config().delay == old(
                self).config().delay && final(self).robots_handle() == old(self).robots_handle(),
    {
        if self.configuration.respect_robots_txt && self.robots.is_none() {
            let client = build_http_client(self.configuration.user_agent.as_str());
            match client {
                Some(c) => {
                    match read_robots_txt(self.domain.as_str(), &c) {
                        Some(robots) => {
                            let directive = robots_crawl_delay(
                                &robots,
                                self.configuration.user_agent.as_str(),
                            );
                            self.configuration.delay = delay_override(
                                directive,
                                self.get_delay(),
                            );
                            self.robots = Some(robots);
                        },
                        None => {},
                    }
                },
                None => {},
            }
        }
    }

    /// Resolve the robots policy, then build the HTTP client for this crawl.
    fn setup(&mut self) -> (client: Option<Client>)
        ensures
            final(self).frontier() == old(self).frontier(),
            final(self).visited() == old(self).visited(),
            final(self).page_records() == old(self).page_records(),
            Self::policy_kept(*old(self), *final(self)),
    {
        self.configure_robots_parser();
        build_http_client(self.configuration.user_agent.as_str())
    }

    /// Start to crawl the website with bounded-concurrency dispatch.
    /// Returns whether the crawl ran to completion; `false` surfaces a setup
    /// failure (HTTP client or worker pool construction) and leaves the
    /// crawl state untouched.
    pub fn crawl(&mut self) -> (done: bool)
        requires
            old(self).wf(),
        ensures
            final(self).wf(),
            forall|u: Seq<char>| #![trigger final(self).has_visited(u)] old(self).has_visited(u) ==> final(self).has_visited(u),
            forall|u: Seq<char>|
                #![trigger final(self).has_visited(u)]
                final(self).has_visited(u) && !old(self).has_visited(u) ==> old(self).admissible(u),
            done ==> forall|u: Seq<char>| !final(self).in_frontier(u),
            !done ==> final(self).frontier() == old(self).frontier() && final(self).visited()
                == old(self).visited() && final(self).page_records() == old(self).page_records(),
            done && !old(self).config().respect_robots_txt ==> forall|u: Seq<char>|
                #![trigger final(self).has_visited(u)]
                old(self).in_frontier(u) && old(self).admissible(u) ==> final(self).has_visited(
                    u,
                ),
            final(self).page_records() == old(self).page_records(),
            Self::policy_kept(*old(self), *final(self)),
    {
        self.crawl_with(&(|s: String| s))
    }

    /// Like `crawl`, but every admitted URL runs through the `on_link_found`
    /// hook immediately before its fetch, letting the caller redirect or
    /// rewrite targets; the admission decision already made, and the visited
    /// set, keep the admitted URL.
    pub fn crawl_with<F: Fn(String) -> String>(&mut self, on_link_found: &F) -> (done: bool)
        requires
            old(self).wf(),
            forall|s: String| #[trigger] call_requires(*on_link_found, (s,)),
        ensures
            final(self).wf(),
            forall|u: Seq<char>| #![trigger final(self).has_visited(u)] old(self).has_visited(u) ==> final(self).has_visited(u),
            forall|u: Seq<char>|
                #![trigger final(self).has_visited(u)]
                final(self).has_visited(u) && !old(self).has_visited(u) ==> old(self).admissible(u),
            done ==> forall|u: Seq<char>| !final(self).in_frontier(u),
            !done ==> final(self).frontier() == old(self).frontier() && final(self).visited()
                == old(self).visited() && final(self).page_records() == old(self).page_records(),
            done && !old(self).config().respect_robots_txt ==> forall|u: Seq<char>|
                #![trigger final(self).has_visited(u)]
                old(self).in_frontier(u) && old(self).admissible(u) ==> final(self).has_visited(
                    u,
                ),
            final(self).page_records() == old(self).page_records(),
            Self::policy_kept(*old(self), *final(self)),
    {
        let client = self.setup();
        let ghost mid = *self;
        match client {
            Some(c) => {
                let done = self.crawl_concurrent(&c, on_link_found);
                proof {
                    lemma_entry_bridge(*old(self), mid, *self, done);
                }
                done
            },
            None => {
                proof {
                    assert(*self == mid);
                    assert(self.frontier() == old(self).frontier());
                    assert(self.visited() == old(self).visited());
                    lemma_entry_bridge(*old(self), mid, *self, false);
                }
                false
            },
        }
    }

    /// Start to scrape the website (crawl and keep page bodies) with
    /// bounded-concurrency dispatch. Returns whether the scrape ran to
    /// completion; `false` surfaces a setup failure and leaves the crawl
    /// state untouched.
    pub fn scrape(&mut self) -> (done: bool)
        requires
            old(self).wf(),
        ensures
            final(self).wf(),
            forall|u: Seq<char>| #![trigger final(self).has_visited(u)] old(self).has_visited(u) ==> final(self).has_visited(u),
            forall|u: Seq<char>|
                #![trigger final(self).has_visited(u)]
                final(self).has_visited(u) && !old(self).has_visited(u) ==> old(self).admissible(u),
            done ==> forall|u: Seq<char>| !final(self).in_frontier(u),
            !done ==> final(self).frontier() == old(self).frontier() && final(self).visited()
                == old(self).visited() && final(self).page_records() == old(self).page_records(),
            done && !old(self).config().respect_robots_txt ==> forall|u: Seq<char>|
                #![trigger final(self).has_visited(u)]
                old(self).in_frontier(u) && old(self).admissible(u) ==> final(self).has_visited(
                    u,
                ),
            Self::policy_kept(*old(self), *final(self)),
            final(self).page_records().len() + old(self).visited_count() == old(self).page_records().len() + final(self).visited_count(),
            forall|i: int|
                0 <= i < old(self).page_records().len() ==> final(self).page_records()[i] == old(self).page_records()[i],
            forall|i: int|
                old(self).page_records().len() <= i < final(self).page_records().len() ==> final(self).has_visited(final(self).page_records()[i].url_spec()) && !old(self).has_visited(final(self).page_records()[i].url_spec()),
            forall|i: int, j: int|
                old(self).page_records().len() <= i < j < final(self).page_records().len() ==> final(self).page_records()[i].url_spec() != final(self).page_records()[j].url_spec(),
            done && !old(self).config().respect_robots_txt ==> forall|i: int, l: Seq<char>|
                #![trigger links_of(final(self).page_records()[i].html_spec(), final(self).page_records()[i].url_spec()).contains(l)]
                old(self).page_records().len() <= i < final(self).page_records().len() && links_of(
                    final(self).page_records()[i].html_spec(),
                    final(self).page_records()[i].url_spec(),
                ).contains(l) && !old(self).blacklisted_url(l) && old(self).scope_ok(l) ==> final(self).has_visited(l),
    {
        let client = self.setup();
        let ghost mid = *self;
        match client {
            Some(c) => {
                let done = self.scrape_concurrent(&c);
                proof {
                    lemma_entry_bridge(*old(self), mid, *self, done);
                    if done && !old(self).config().respect_robots_txt {
                        assert(mid.config().respect_robots_txt == old(
                            self,
                        ).config().respect_robots_txt);
                        assert forall|i: int, l: Seq<char>|
                            old(self).page_records().len() <= i < self.page_records().len()
                            && links_of(
                            self.page_records()[i].html_spec(),
                            self.page_records()[i].url_spec(),
                        ).contains(l) && !old(self).blacklisted_url(l) && old(
                            self,
                        ).scope_ok(l) implies self.has_visited(l) by {
                            assert(mid.page_records() == old(self).page_records());
                            assert(mid.config().blacklist_url == old(
                                self,
                            ).config().blacklist_url);
                            assert(mid.config().follow_links == old(self).config().follow_links);
                            assert(mid.seed() == old(self).seed());
                            assert(!mid.blacklisted_url(l));
                            assert(mid.scope_ok(l));
                        }
                    }
                }
                done
            },
            None => {
                proof {
                    assert(*self == mid);
                    assert(self.frontier() == old(self).frontier());
                    assert(self.visited() == old(self).visited());
                    lemma_entry_bridge(*old(self), mid, *self, false);
                }
                false
            },
        }
    }

    /// Start to crawl the website sequentially, one URL at a time on the
    /// calling thread. Returns whether the crawl ran to completion; `false`
    /// surfaces a setup failure and leaves the crawl state untouched.
    pub fn crawl_sync(&mut self) -> (done: bool)
        requires
            old(self).wf(),
        ensures
            final(self).wf(),
            forall|u: Seq<char>| #![trigger final(self).has_visited(u)] old(self).has_visited(u) ==> final(self).has_visited(u),
            forall|u: Seq<char>|
                #![trigger final(self).has_visited(u)]
                final(self).has_visited(u) && !old(self).has_visited(u) ==> old(self).admissible(u),
            done ==> forall|u: Seq<char>| !final(self).in_frontier(u),
            !done ==> final(self).frontier() == old(self).frontier() && final(self).visited()
                == old(self).visited() && final(self).page_records() == old(self).page_records(),
            done && !old(self).config().respect_robots_txt ==> forall|u: Seq<char>|
                #![trigger final(self).has_visited(u)]
                old(self).in_frontier(u) && old(self).admissible(u) ==> final(self).has_visited(
                    u,
                ),
            final(self).page_records() == old(self).page_records(),
            Self::policy_kept(*old(self), *final(self)),
    {
        self.crawl_sync_with(&(|s: String| s))
    }

    /// Like `crawl_sync`, but every admitted URL runs through the
    /// `on_link_found` hook immediately before its fetch, letting the caller
    /// redirect or rewrite targets; the admission decision already made, and
    /// the visited set, keep the admitted URL.
    pub fn crawl_sync_with<F: Fn(String) -> String>(&mut self, on_link_found: &F) -> (done: bool)
        requires
            old(self).wf(),
            forall|s: String| #[trigger] call_requires(*on_link_found, (s,)),
        ensures
            final(self).wf(),
            forall|u: Seq<char>| #![trigger final(self).has_visited(u)] old(self).has_visited(u) ==> final(self).has_visited(u),
            forall|u: Seq<char>|
                #![trigger final(self).has_visited(u)]
                final(self).has_visited(u) && !old(self).has_visited(u) ==> old(self).admissible(u),
            done ==> forall|u: Seq<char>| !final(self).in_frontier(u),
            !done ==> final(self).frontier() == old(self).frontier() && final(self).visited()
                == old(self).visited() && final(self).page_records() == old(self).page_records(),
            done && !old(self).config().respect_robots_txt ==> forall|u: Seq<char>|
                #![trigger final(self).has_visited(u)]
                old(self).in_frontier(u) && old(self).admissible(u) ==> final(self).has_visited(
                    u,
                ),
            final(self).page_records() == old(self).page_records(),
            Self::policy_kept(*old(self), *final(self)),
    {
        let client = self.setup();
        let ghost mid = *self;
        match client {
            Some(c) => {
                self.crawl_sequential(&c, on_link_found);
                let done = true;
                proof {
                    lemma_entry_bridge(*old(self), mid, *self, done);
                }
                done
            },
            None => {
                proof {
                    assert(*self == mid);
                    assert(self.frontier() == old(self).frontier());
                    assert(self.visited() == old(self).visited());
                    lemma_entry_bridge(*old(self), mid, *self, false);
                }
                false
            },
        }
    }

    /// One round of admission: run the filter over the current frontier and
    /// mark every admitted URL visited, before anything is fetched, so no
    /// URL can be dispatched twice.
    fn admit_round(&mut self) -> (admitted: Vec<String>)
        requires
            old(self).sets_wf(),
        ensures
            final(self).sets_wf(),
            forall|x: Seq<char>|
                #![trigger final(self).has_visited(x)]
                #![trigger admitted.deep_view().contains(x)]
                final(self).has_visited(x) == (old(self).has_visited(x)
                    || admitted.deep_view().contains(x)),
            forall|i: int|
                0 <= i < admitted.deep_view().len() ==> old(self).admissible(
                    #[trigger] admitted.deep_view()[i],
                ),
            forall|i: int|
                0 <= i < admitted.deep_view().len() ==> old(self).in_frontier(
                    #[trigger] admitted.deep_view()[i],
                ),
            admitted.deep_view().no_duplicates(),
            !old(self).config().respect_robots_txt ==> forall|u: Seq<char>|
                #![trigger old(self).in_frontier(u)]
                old(self).in_frontier(u) && old(self).admissible(u) ==> final(self).has_visited(u),
            final(self).visited().card() == old(self).visited().card() + admitted@.len(),
            final(self).frontier() == old(self).frontier(),
            final(self).page_records() == old(self).page_records(),
            final(self).configuration == old(self).configuration,
            final(self).domain == old(self).domain,
            final(self).robots_handle() == old(self).robots_handle(),
    {
        let round = self.links.to_vec();
        let mut admitted: Vec<String> = Vec::new();
        let mut i: usize = 0;
        while i < round.len()
            invariant
                self.links_visited.wf(),
                i <= round@.len(),
                self.links == old(self).links,
                self.pages@ == old(self).pages@,
                self.configuration == old(self).configuration,
                self.domain == old(self).domain,
                self.robots == old(self).robots,
                forall|j: int| 0 <= j < round@.len() ==> self.links.has((#[trigger] round@[j])@),
                forall|x: Seq<char>|
                    #![trigger self.links_visited.has(x)]
                    #![trigger admitted.deep_view().contains(x)]
                    self.links_visited.has(x) == (old(self).links_visited.has(x)
                        || admitted.deep_view().contains(x)),
                forall|k: int|
                    0 <= k < admitted@.len() ==> old(self).admissible((#[trigger] admitted@[k])@)
                        && old(self).links.has(admitted@[k]@),
                admitted.deep_view().no_duplicates(),
                !old(self).configuration.respect_robots_txt ==> forall|u: Seq<char>|
                    #![trigger old(self).links.has(u)]
                    old(self).links.has(u) && old(self).admissible(u) ==> (self.links_visited.has(
                        u,
                    ) || exists|j: int| i <= j < round@.len() && (#[trigger] round@[j])@ == u),
                self.links_visited.card() == old(self).links_visited.card() + admitted@.len(),
            decreases round@.len() - i,
        {
            let ghost head = *self;
            let link = &round[i];
            let allowed = self.is_allowed(link);
            if allowed {
                let ghost pre_admitted = admitted.deep_view();
                let ghost pre_visited = self.links_visited;
                self.links_visited.insert(link.clone());
                admitted.push(link.clone());
                proof {
                    let new_admitted = admitted.deep_view();
                    assert(new_admitted =~= pre_admitted.push(link@));
                    assert forall|x: Seq<char>|
                        new_admitted.contains(x) == (pre_admitted.contains(x) || x == link@) by {
                        if new_admitted.contains(x) {
                            let k = choose|k: int|
                                0 <= k < new_admitted.len() && new_admitted[k] == x;
                            if k < pre_admitted.len() {
                                assert(pre_admitted[k] == x);
                                assert(pre_admitted.contains(x));
                            } else {
                                assert(x == link@);
                            }
                        }
                        if pre_admitted.contains(x) {
                            let k = choose|k: int|
                                0 <= k < pre_admitted.len() && pre_admitted[k] == x;
                            assert(new_admitted[k] == x);
                        }
                        if x == link@ {
                            assert(new_admitted[pre_admitted.len() as int] == x);
                        }
                    }
                    assert(!pre_visited.has(link@));
                    assert(!pre_admitted.contains(link@));
                    assert forall|a: int, b: int|
                        0 <= a < new_admitted.len() && 0 <= b < new_admitted.len() && a
                            != b implies new_admitted[a] != new_admitted[b] by {
                        if a == pre_admitted.len() as int && b < pre_admitted.len() {
                            if new_admitted[a] == new_admitted[b] {
                                assert(pre_admitted.contains(link@));
                            }
                        } else if b == pre_admitted.len() as int && a < pre_admitted.len() {
                            if new_admitted[a] == new_admitted[b] {
                                assert(pre_admitted.contains(link@));
                            }
                        }
                    }
                    assert forall|x: Seq<char>|
                        self.links_visited.has(x) == (old(self).links_visited.has(x)
                            || new_admitted.contains(x)) by {
                        assert(self.links_visited.has(x) == (pre_visited.has(x) || x == link@));
                        assert(pre_visited.has(x) == (old(self).links_visited.has(x)
                            || pre_admitted.contains(x)));
                        assert(new_admitted.contains(x) == (pre_admitted.contains(x) || x
                            == link@));
                    }
                }
            }
            i = i + 1;
            proof {
                if !old(self).configuration.respect_robots_txt {
                    assert forall|u: Seq<char>|
                        old(self).links.has(u) && old(self).admissible(u) implies (
                    self.links_visited.has(u) || exists|j: int|
                        i <= j < round@.len() && (#[trigger] round@[j])@ == u) by {
                        if !self.links_visited.has(u) {
                            if head.links_visited.has(u) {
                                assert(self.links_visited.has(u));
                            } else {
                                let j = choose|j: int|
                                    i - 1 <= j < round@.len() && (#[trigger] round@[j])@ == u;
                                if j == i - 1 {
                                    assert(u == link@);
                                    if allowed {
                                        assert(self.links_visited.has(u));
                                    } else {
                                        assert(!head.admissible(link@));
                                        assert(!head.blacklisted_url(u) && head.scope_ok(u));
                                        assert(head.has_visited(u));
                                        assert(head.links_visited.has(u));
                                    }
                                } else {
                                    assert(i <= j < round@.len() && round@[j]@ == u);
                                }
                            }
                        }
                    }
                }
            }
        }
        proof {
            assert forall|k: int|
                0 <= k < admitted.deep_view().len() implies old(self).admissible(
                #[trigger] admitted.deep_view()[k]) && old(self).in_frontier(
                admitted.deep_view()[k]) by {
                assert(admitted.deep_view()[k] == (#[trigger] admitted@[k])@);
            }
            if !old(self).configuration.respect_robots_txt {
                assert forall|u: Seq<char>|
                    old(self).in_frontier(u) && old(self).admissible(u) implies
                self.links_visited.has(u) by {
                    assert(old(self).links.has(u));
                }
            }
        }
        admitted
    }

    /// Crawl rounds with bounded-concurrency dispatch: admit and mark a full
    /// round, rewrite each admitted URL through `on_link_found`, fetch the
    /// targets in parallel behind the round barrier, extract links from
    /// every body, and merge the discoveries minus the visited set into the
    /// next frontier. The admission decision and the visited set keep the
    /// admitted URL, not the rewritten target.
    fn crawl_concurrent<F: Fn(String) -> String>(
        &mut self,
        client: &Client,
        on_link_found: &F,
    ) -> (done: bool)
        requires
            old(self).sets_wf(),
            forall|s: String| #[trigger] call_requires(*on_link_found, (s,)),
        ensures
            final(self).sets_wf(),
            forall|u: Seq<char>| #![trigger final(self).has_visited(u)] old(self).has_visited(u) ==> final(self).has_visited(u),
            forall|u: Seq<char>|
                #![trigger final(self).has_visited(u)]
                final(self).has_visited(u) && !old(self).has_visited(u) ==> old(self).admissible(u),
            done ==> forall|u: Seq<char>| !final(self).in_frontier(u),
            !done ==> *final(self) == *old(self),
            done && !old(self).config().respect_robots_txt ==> forall|u: Seq<char>|
                #![trigger final(self).has_visited(u)]
                old(self).in_frontier(u) && old(self).admissible(u) ==> final(self).has_visited(
                    u,
                ),
            forall|u: Seq<char>|
                final(self).in_frontier(u) ==> old(self).in_frontier(u) || !final(self).has_visited(u),
            final(self).page_records() == old(self).page_records(),
            final(self).configuration == old(self).configuration,
            final(self).domain == old(self).domain,
            final(self).robots_handle() == old(self).robots_handle(),
    {
        let pool = match build_thread_pool(self.configuration.concurrency) {
            Some(p) => p,
            None => {
                return false;
            },
        };
        let delay = self.configuration.delay;
        // `dispatched` is, in order, every URL this call hands to the fetcher;
        // the loop keeps it duplicate-free (the no-duplicate-fetch law, applied
        // round over round), since a round marks its batch visited before the
        // next admission runs.
        let ghost mut dispatched: Seq<Seq<char>> = Seq::empty();
        loop
            invariant
                self.sets_wf(),
                forall|s: String| #[trigger] call_requires(*on_link_found, (s,)),
                dispatched.no_duplicates(),
                forall|k: int|
                    0 <= k < dispatched.len() ==> self.links_visited.has(#[trigger] dispatched[k]),
                forall|u: Seq<char>| #![trigger self.has_visited(u)] old(self).has_visited(u) ==> self.has_visited(u),
                forall|u: Seq<char>|
                    #![trigger self.has_visited(u)]
                    self.has_visited(u) && !old(self).has_visited(u) ==> old(self).admissible(u),
                forall|u: Seq<char>|
                    self.in_frontier(u) ==> old(self).in_frontier(u) || !self.has_visited(u),
                self.pages@ == old(self).pages@,
                self.configuration == old(self).configuration,
                self.domain == old(self).domain,
                self.robots == old(self).robots,
                !old(self).configuration.respect_robots_txt ==> forall|u: Seq<char>|
                    #![trigger old(self).links.has(u)]
                    old(self).links.has(u) && old(self).admissible(u) ==> (self.links_visited.has(
                        u,
                    ) || self.links.has(u)),
                delay == self.configuration.delay,
            ensures
                self.sets_wf(),
                forall|s: String| #[trigger] call_requires(*on_link_found, (s,)),
                dispatched.no_duplicates(),
                forall|k: int|
                    0 <= k < dispatched.len() ==> self.links_visited.has(#[trigger] dispatched[k]),
                forall|u: Seq<char>| #![trigger self.has_visited(u)] old(self).has_visited(u) ==> self.has_visited(u),
                forall|u: Seq<char>|
                    #![trigger self.has_visited(u)]
                    self.has_visited(u) && !old(self).has_visited(u) ==> old(self).admissible(u),
                forall|u: Seq<char>| !self.in_frontier(u),
                !old(self).configuration.respect_robots_txt ==> forall|u: Seq<char>|
                    #![trigger old(self).links.has(u)]
                    old(self).links.has(u) && old(self).admissible(u) ==> self.links_visited.has(
                        u,
                    ),
                self.pages@ == old(self).pages@,
                self.configuration == old(self).configuration,
                self.domain == old(self).domain,
                self.robots == old(self).robots,
            decreases usize::MAX - self.visited().card(),
        {
            if self.links.is_empty() {
                proof {
                    if !old(self).configuration.respect_robots_txt {
                        assert forall|u: Seq<char>|
                            old(self).links.has(u) && old(self).admissible(u) implies
                        self.links_visited.has(u) by {
                            assert(!self.links.has(u));
                        }
                    }
                }
                break;
            }
            let ghost pre_round = *self;
            let admitted = self.admit_round();
            let ghost adm = admitted.deep_view();
            let ghost mid = *self;
            if admitted.len() == 0 {
                self.links = UrlSet::new();
                proof {
                    assert(self.links_visited == mid.links_visited);
                    assert forall|x: Seq<char>|
                        self.has_visited(x) == (pre_round.has_visited(x) || adm.contains(x)) by {
                        assert(mid.has_visited(x) == (pre_round.has_visited(x) || adm.contains(
                            x,
                        )));
                    }
                    lemma_round_transfer(pre_round, *self, *old(self), adm);
                    assert forall|k: int|
                        0 <= k < dispatched.len() implies self.links_visited.has(
                    #[trigger] dispatched[k]) by {
                        assert(pre_round.links_visited.has(dispatched[k]));
                        assert(mid.has_visited(dispatched[k]) == (pre_round.has_visited(
                            dispatched[k]) || adm.contains(dispatched[k])));
                        assert(self.links_visited == mid.links_visited);
                    }
                    if !old(self).configuration.respect_robots_txt {
                        assert forall|u: Seq<char>|
                            old(self).links.has(u) && old(self).admissible(u) implies
                        self.links_visited.has(u) by {
                            assert(pre_round.configuration == old(self).configuration);
                            assert(pre_round.domain == old(self).domain);
                            assert(!pre_round.config().respect_robots_txt);
                            if pre_round.links_visited.has(u) {
                                assert(pre_round.has_visited(u));
                                assert(mid.has_visited(u) == (pre_round.has_visited(u)
                                    || adm.contains(u)));
                                assert(self.links_visited == mid.links_visited);
                                assert(self.has_visited(u));
                            } else if pre_round.links.has(u) {
                                assert(pre_round.in_frontier(u) && pre_round.admissible(u));
                                assert(mid.has_visited(u));
                                assert(self.links_visited == mid.links_visited);
                                assert(self.has_visited(u));
                            }
                        }
                    }
                }
                break;
            }
            proof {
                assert(self.links_visited.card() > pre_round.links_visited.card());
            }
            let mut targets: Vec<String> = Vec::new();
            let mut t: usize = 0;
            while t < admitted.len()
                invariant
                    t <= admitted@.len(),
                    targets@.len() == t,
                    forall|s: String| #[trigger] call_requires(*on_link_found, (s,)),
                decreases admitted@.len() - t,
            {
                targets.push(on_link_found(admitted[t].clone()));
                t = t + 1;
            }
            let results = fetch_batch(&pool, client, &targets, delay);
            let ghost snap = *self;
            let mut new_links = UrlSet::new();
            let mut i: usize = 0;
            while i < results.len()
                invariant
                    *self == snap,
                    snap.links_visited.wf(),
                    new_links.wf(),
                    i <= results@.len(),
                decreases results@.len() - i,
            {
                let page = Page::build(&results[i].0, results[i].1.as_str());
                let found = page.links();
                new_links.extend_with(&found);
                i = i + 1;
            }
            self.links = new_links.minus(&self.links_visited);
            proof {
                assert(self.links_visited == mid.links_visited);
                assert forall|x: Seq<char>|
                    self.has_visited(x) == (pre_round.has_visited(x) || adm.contains(x)) by {
                    assert(mid.has_visited(x) == (pre_round.has_visited(x) || adm.contains(x)));
                }
                lemma_round_transfer(pre_round, *self, *old(self), adm);
                if !old(self).configuration.respect_robots_txt {
                    assert forall|u: Seq<char>|
                        old(self).links.has(u) && old(self).admissible(u) implies
                    self.links_visited.has(u) by {
                        assert(pre_round.configuration == old(self).configuration);
                        assert(pre_round.domain == old(self).domain);
                        assert(!pre_round.config().respect_robots_txt);
                        if pre_round.links_visited.has(u) {
                            assert(pre_round.has_visited(u));
                            assert(mid.has_visited(u) == (pre_round.has_visited(u)
                                || adm.contains(u)));
                            assert(self.links_visited == mid.links_visited);
                            assert(self.has_visited(u));
                        } else if pre_round.links.has(u) {
                            assert(pre_round.in_frontier(u) && pre_round.admissible(u));
                            assert(mid.has_visited(u));
                            assert(self.links_visited == mid.links_visited);
                            assert(self.has_visited(u));
                        }
                    }
                }
                let prev_log = dispatched;
                assert forall|k: int|
                    0 <= k < prev_log.len() implies Set::new(
                    |u: Seq<char>| pre_round.has_visited(u)).contains(#[trigger] prev_log[k]) by {
                    assert(pre_round.links_visited.has(prev_log[k]));
                    assert(pre_round.has_visited(prev_log[k]));
                }
                assert forall|k: int|
                    0 <= k < adm.len() implies !Set::new(
                    |u: Seq<char>| pre_round.has_visited(u)).contains(#[trigger] adm[k]) by {
                    assert(pre_round.admissible(adm[k]));
                }
                lemma_no_duplicate_fetch(
                    prev_log,
                    Set::new(|u: Seq<char>| pre_round.has_visited(u)),
                    adm,
                );
                dispatched = prev_log + adm;
                assert forall|k: int|
                    0 <= k < dispatched.len() implies self.links_visited.has(
                #[trigger] dispatched[k]) by {
                    if k < prev_log.len() {
                        assert(dispatched[k] == prev_log[k]);
                        assert(pre_round.links_visited.has(prev_log[k]));
                        assert(self.has_visited(prev_log[k]) == (pre_round.has_visited(
                            prev_log[k]) || adm.contains(prev_log[k])));
                    } else {
                        assert(dispatched[k] == adm[k - prev_log.len()]);
                        assert(adm.contains(adm[k - prev_log.len()]));
                        assert(self.has_visited(dispatched[k]) == (pre_round.has_visited(
                            dispatched[k]) || adm.contains(dispatched[k])));
                    }
                }
                assert(self.visited().card() == pre_round.visited().card() + adm.len());
                assert(self.visited().card() > pre_round.visited().card());
                self.links_visited.lemma_wf_card();
                pre_round.links_visited.lemma_wf_card();
            }
        }
        true
    }

    /// Crawl rounds sequentially: the same admit-fetch-extract-merge state
    /// machine, one URL at a time on the calling thread. Every admitted URL
    /// runs through `on_link_found` immediately before its fetch; the
    /// admission decision and the visited set keep the admitted URL.
    fn crawl_sequential<F: Fn(String) -> String>(&mut self, client: &Client, on_link_found: &F)
        requires
            old(self).sets_wf(),
            forall|s: String| #[trigger] call_requires(*on_link_found, (s,)),
        ensures
            final(self).sets_wf(),
            forall|u: Seq<char>| #![trigger final(self).has_visited(u)] old(self).has_visited(u) ==> final(self).has_visited(u),
            forall|u: Seq<char>|
                #![trigger final(self).has_visited(u)]
                final(self).has_visited(u) && !old(self).has_visited(u) ==> old(self).admissible(u),
            forall|u: Seq<char>| !final(self).in_frontier(u),
            !old(self).config().respect_robots_txt ==> forall|u: Seq<char>|
                #![trigger final(self).has_visited(u)]
                old(self).in_frontier(u) && old(self).admissible(u) ==> final(self).has_visited(
                    u,
                ),
            final(self).page_records() == old(self).page_records(),
            final(self).configuration == old(self).configuration,
            final(self).domain == old(self).domain,
            final(self).robots_handle() == old(self).robots_handle(),
    {
        let delay = self.configuration.delay;
        // `dispatched` is, in order, every URL this call hands to the fetcher;
        // the loop keeps it duplicate-free (the no-duplicate-fetch law, applied
        // round over round), since a round marks its batch visited before the
        // next admission runs.
        let ghost mut dispatched: Seq<Seq<char>> = Seq::empty();
        loop
            invariant
                self.sets_wf(),
                forall|s: String| #[trigger] call_requires(*on_link_found, (s,)),
                dispatched.no_duplicates(),
                forall|k: int|
                    0 <= k < dispatched.len() ==> self.links_visited.has(#[trigger] dispatched[k]),
                forall|u: Seq<char>| #![trigger self.has_visited(u)] old(self).has_visited(u) ==> self.has_visited(u),
                forall|u: Seq<char>|
                    #![trigger self.has_visited(u)]
                    self.has_visited(u) && !old(self).has_visited(u) ==> old(self).admissible(u),
                self.pages@ == old(self).pages@,
                self.configuration == old(self).configuration,
                self.domain == old(self).domain,
                self.robots == old(self).robots,
                !old(self).configuration.respect_robots_txt ==> forall|u: Seq<char>|
                    #![trigger old(self).links.has(u)]
                    old(self).links.has(u) && old(self).admissible(u) ==> (self.links_visited.has(
                        u,
                    ) || self.links.has(u)),
                delay == self.configuration.delay,
            ensures
                self.sets_wf(),
                forall|s: String| #[trigger] call_requires(*on_link_found, (s,)),
                dispatched.no_duplicates(),
                forall|k: int|
                    0 <= k < dispatched.len() ==> self.links_visited.has(#[trigger] dispatched[k]),
                forall|u: Seq<char>| #![trigger self.has_visited(u)] old(self).has_visited(u) ==> self.has_visited(u),
                forall|u: Seq<char>|
                    #![trigger self.has_visited(u)]
                    self.has_visited(u) && !old(self).has_visited(u) ==> old(self).admissible(u),
                forall|u: Seq<char>| !self.in_frontier(u),
                !old(self).configuration.respect_robots_txt ==> forall|u: Seq<char>|
                    #![trigger old(self).links.has(u)]
                    old(self).links.has(u) && old(self).admissible(u) ==> self.links_visited.has(
                        u,
                    ),
                self.pages@ == old(self).pages@,
                self.configuration == old(self).configuration,
                self.domain == old(self).domain,
                self.robots == old(self).robots,
            decreases usize::MAX - self.visited().card(),
        {
            if self.links.is_empty() {
                proof {
                    if !old(self).configuration.respect_robots_txt {
                        assert forall|u: Seq<char>|
                            old(self).links.has(u) && old(self).admissible(u) implies
                        self.links_visited.has(u) by {
                            assert(!self.links.has(u));
                        }
                    }
                }
                break;
            }
            let ghost pre_round = *self;
            let admitted = self.admit_round();
            let ghost adm = admitted.deep_view();
            let ghost mid = *self;
            if admitted.len() == 0 {
                self.links = UrlSet::new();
                proof {
                    assert(self.links_visited == mid.links_visited);
                    assert forall|x: Seq<char>|
                        self.has_visited(x) == (pre_round.has_visited(x) || adm.contains(x)) by {
                        assert(mid.has_visited(x) == (pre_round.has_visited(x) || adm.contains(
                            x,
                        )));
                    }
                    lemma_round_transfer(pre_round, *self, *old(self), adm);
                    assert forall|k: int|
                        0 <= k < dispatched.len() implies self.links_visited.has(
                    #[trigger] dispatched[k]) by {
                        assert(pre_round.links_visited.has(dispatched[k]));
                        assert(mid.has_visited(dispatched[k]) == (pre_round.has_visited(
                            dispatched[k]) || adm.contains(dispatched[k])));
                        assert(self.links_visited == mid.links_visited);
                    }
                    if !old(self).configuration.respect_robots_txt {
                        assert forall|u: Seq<char>|
                            old(self).links.has(u) && old(self).admissible(u) implies
                        self.links_visited.has(u) by {
                            assert(pre_round.configuration == old(self).configuration);
                            assert(pre_round.domain == old(self).domain);
                            assert(!pre_round.config().respect_robots_txt);
                            if pre_round.links_visited.has(u) {
                                assert(pre_round.has_visited(u));
                                assert(mid.has_visited(u) == (pre_round.has_visited(u)
                                    || adm.contains(u)));
                                assert(self.links_visited == mid.links_visited);
                                assert(self.has_visited(u));
                            } else if pre_round.links.has(u) {
                                assert(pre_round.in_frontier(u) && pre_round.admissible(u));
                                assert(mid.has_visited(u));
                                assert(self.links_visited == mid.links_visited);
                                assert(self.has_visited(u));
                            }
                        }
                    }
                }
                break;
            }
            proof {
                assert(self.links_visited.card() > pre_round.links_visited.card());
            }
            let ghost snap = *self;
            let mut new_links = UrlSet::new();
            let mut i: usize = 0;
            while i < admitted.len()
                invariant
                    *self == snap,
                    snap.links_visited.wf(),
                    new_links.wf(),
                    i <= admitted@.len(),
                    forall|s: String| #[trigger] call_requires(*on_link_found, (s,)),
                    delay == self.configuration.delay,
                decreases admitted@.len() - i,
            {
                if delay > 0 {
                    sleep_ms(delay);
                }
                let link_result = on_link_found(admitted[i].clone());
                let page = Page::new(&link_result, client);
                let found = page.links();
                new_links.extend_with(&found);
                i = i + 1;
            }
            self.links = new_links.minus(&self.links_visited);
            proof {
                assert(self.links_visited == mid.links_visited);
                assert forall|x: Seq<char>|
                    self.has_visited(x) == (pre_round.has_visited(x) || adm.contains(x)) by {
                    assert(mid.has_visited(x) == (pre_round.has_visited(x) || adm.contains(x)));
                }
                lemma_round_transfer(pre_round, *self, *old(self), adm);
                if !old(self).configuration.respect_robots_txt {
                    assert forall|u: Seq<char>|
                        old(self).links.has(u) && old(self).admissible(u) implies
                    self.links_visited.has(u) by {
                        assert(pre_round.configuration == old(self).configuration);
                        assert(pre_round.domain == old(self).domain);
                        assert(!pre_round.config().respect_robots_txt);
                        if pre_round.links_visited.has(u) {
                            assert(pre_round.has_visited(u));
                            assert(mid.has_visited(u) == (pre_round.has_visited(u)
                                || adm.contains(u)));
                            assert(self.links_visited == mid.links_visited);
                            assert(self.has_visited(u));
                        } else if pre_round.links.has(u) {
                            assert(pre_round.in_frontier(u) && pre_round.admissible(u));
                            assert(mid.has_visited(u));
                            assert(self.links_visited == mid.links_visited);
                            assert(self.has_visited(u));
                        }
                    }
                }
                let prev_log = dispatched;
                assert forall|k: int|
                    0 <= k < prev_log.len() implies Set::new(
                    |u: Seq<char>| pre_round.has_visited(u)).contains(#[trigger] prev_log[k]) by {
                    assert(pre_round.links_visited.has(prev_log[k]));
                    assert(pre_round.has_visited(prev_log[k]));
                }
                assert forall|k: int|
                    0 <= k < adm.len() implies !Set::new(
                    |u: Seq<char>| pre_round.has_visited(u)).contains(#[trigger] adm[k]) by {
                    assert(pre_round.admissible(adm[k]));
                }
                lemma_no_duplicate_fetch(
                    prev_log,
                    Set::new(|u: Seq<char>| pre_round.has_visited(u)),
                    adm,
                );
                dispatched = prev_log + adm;
                assert forall|k: int|
                    0 <= k < dispatched.len() implies self.links_visited.has(
                #[trigger] dispatched[k]) by {
                    if k < prev_log.len() {
                        assert(dispatched[k] == prev_log[k]);
                        assert(pre_round.links_visited.has(prev_log[k]));
                        assert(self.has_visited(prev_log[k]) == (pre_round.has_visited(
                            prev_log[k]) || adm.contains(prev_log[k])));
                    } else {
                        assert(dispatched[k] == adm[k - prev_log.len()]);
                        assert(adm.contains(adm[k - prev_log.len()]));
                        assert(self.has_visited(dispatched[k]) == (pre_round.has_visited(
                            dispatched[k]) || adm.contains(dispatched[k])));
                    }
                }
                assert(self.visited().card() == pre_round.visited().card() + adm.len());
                assert(self.visited().card() > pre_round.visited().card());
                self.links_visited.lemma_wf_card();
                pre_round.links_visited.lemma_wf_card();
            }
        }
    }

    /// Scrape rounds with bounded-concurrency dispatch: like the concurrent
    /// crawl, but every fetched page is appended to the record store — one
    /// record per dispatched URL, failed fetches included.
    fn scrape_concurrent(&mut self, client: &Client) -> (done: bool)
        requires
            old(self).sets_wf(),
        ensures
            final(self).sets_wf(),
            forall|u: Seq<char>| #![trigger final(self).has_visited(u)] old(self).has_visited(u) ==> final(self).has_visited(u),
            forall|u: Seq<char>|
                #![trigger final(self).has_visited(u)]
                final(self).has_visited(u) && !old(self).has_visited(u) ==> old(self).admissible(u),
            done ==> forall|u: Seq<char>| !final(self).in_frontier(u),
            !done ==> *final(self) == *old(self),
            done && !old(self).config().respect_robots_txt ==> forall|u: Seq<char>|
                #![trigger final(self).has_visited(u)]
                old(self).in_frontier(u) && old(self).admissible(u) ==> final(self).has_visited(
                    u,
                ),
            final(self).configuration == old(self).configuration,
            final(self).domain == old(self).domain,
            final(self).robots_handle() == old(self).robots_handle(),
            final(self).page_records().len() + old(self).visited_count() == old(self).page_records().len() + final(self).visited_count(),
            forall|i: int|
                0 <= i < old(self).page_records().len() ==> final(self).page_records()[i] == old(self).page_records()[i],
            forall|i: int|
                old(self).page_records().len() <= i < final(self).page_records().len() ==> final(self).has_visited(final(self).page_records()[i].url_spec()) && !old(self).has_visited(final(self).page_records()[i].url_spec()),
            forall|i: int, j: int|
                old(self).page_records().len() <= i < j < final(self).page_records().len() ==> final(self).page_records()[i].url_spec() != final(self).page_records()[j].url_spec(),
            done && !old(self).config().respect_robots_txt ==> forall|i: int, l: Seq<char>|
                #![trigger links_of(final(self).page_records()[i].html_spec(), final(self).page_records()[i].url_spec()).contains(l)]
                old(self).page_records().len() <= i < final(self).page_records().len() && links_of(
                    final(self).page_records()[i].html_spec(),
                    final(self).page_records()[i].url_spec(),
                ).contains(l) && !old(self).blacklisted_url(l) && old(self).scope_ok(l) ==> final(self).has_visited(l),
    {
        let pool = match build_thread_pool(self.configuration.concurrency) {
            Some(p) => p,
            None => {
                return false;
            },
        };
        let delay = self.configuration.delay;
        // `dispatched` is, in order, every URL this call hands to the fetcher;
        // the loop keeps it duplicate-free (the no-duplicate-fetch law, applied
        // round over round), since a round marks its batch visited before the
        // next admission runs.
        let ghost mut dispatched: Seq<Seq<char>> = Seq::empty();
        loop
            invariant
                self.sets_wf(),
                dispatched.no_duplicates(),
                forall|k: int|
                    0 <= k < dispatched.len() ==> self.links_visited.has(#[trigger] dispatched[k]),
                forall|u: Seq<char>| #![trigger self.has_visited(u)] old(self).has_visited(u) ==> self.has_visited(u),
                forall|u: Seq<char>|
                    #![trigger self.has_visited(u)]
                    self.has_visited(u) && !old(self).has_visited(u) ==> old(self).admissible(u),
                self.configuration == old(self).configuration,
                self.domain == old(self).domain,
                self.robots == old(self).robots,
                !old(self).configuration.respect_robots_txt ==> forall|u: Seq<char>|
                    #![trigger old(self).links.has(u)]
                    old(self).links.has(u) && old(self).admissible(u) ==> (self.links_visited.has(
                        u,
                    ) || self.links.has(u)),
                delay == self.configuration.delay,
                old(self).pages@.len() <= self.pages@.len(),
                self.pages@.len() + old(self).links_visited.card() == old(self).pages@.len()
                    + self.links_visited.card(),
                forall|i: int|
                    0 <= i < old(self).pages@.len() ==> self.pages@[i] == old(self).pages@[i],
                forall|i: int|
                    old(self).pages@.len() <= i < self.pages@.len() ==> self.links_visited.has(
                        (#[trigger] self.pages@[i]).url_spec(),
                    ) && !old(self).links_visited.has(self.pages@[i].url_spec()),
                forall|i: int, j: int|
                    old(self).pages@.len() <= i < j < self.pages@.len() ==> (
                    #[trigger] self.pages@[i]).url_spec() != (#[trigger] self.pages@[j]).url_spec(),
                !old(self).configuration.respect_robots_txt ==> forall|i: int, l: Seq<char>|
                    #![trigger links_of(self.pages@[i].html_spec(), self.pages@[i].url_spec()).contains(l)]
                    old(self).pages@.len() <= i < self.pages@.len() && links_of(
                        self.pages@[i].html_spec(),
                        self.pages@[i].url_spec(),
                    ).contains(l) && !old(self).blacklisted_url(l) && old(self).scope_ok(l) ==> (
                    self.links_visited.has(l) || self.links.has(l)),
            ensures
                self.sets_wf(),
                dispatched.no_duplicates(),
                forall|k: int|
                    0 <= k < dispatched.len() ==> self.links_visited.has(#[trigger] dispatched[k]),
                forall|u: Seq<char>| #![trigger self.has_visited(u)] old(self).has_visited(u) ==> self.has_visited(u),
                forall|u: Seq<char>|
                    #![trigger self.has_visited(u)]
                    self.has_visited(u) && !old(self).has_visited(u) ==> old(self).admissible(u),
                forall|u: Seq<char>| !self.in_frontier(u),
                !old(self).configuration.respect_robots_txt ==> forall|u: Seq<char>|
                    #![trigger old(self).links.has(u)]
                    old(self).links.has(u) && old(self).admissible(u) ==> self.links_visited.has(
                        u,
                    ),
                self.configuration == old(self).configuration,
                self.domain == old(self).domain,
                self.robots == old(self).robots,
                old(self).pages@.len() <= self.pages@.len(),
                self.pages@.len() + old(self).links_visited.card() == old(self).pages@.len()
                    + self.links_visited.card(),
                forall|i: int|
                    0 <= i < old(self).pages@.len() ==> self.pages@[i] == old(self).pages@[i],
                forall|i: int|
                    old(self).pages@.len() <= i < self.pages@.len() ==> self.links_visited.has(
                        (#[trigger] self.pages@[i]).url_spec(),
                    ) && !old(self).links_visited.has(self.pages@[i].url_spec()),
                forall|i: int, j: int|
                    old(self).pages@.len() <= i < j < self.pages@.len() ==> (
                    #[trigger] self.pages@[i]).url_spec() != (#[trigger] self.pages@[j]).url_spec(),
                !old(self).configuration.respect_robots_txt ==> forall|i: int, l: Seq<char>|
                    #![trigger links_of(self.pages@[i].html_spec(), self.pages@[i].url_spec()).contains(l)]
                    old(self).pages@.len() <= i < self.pages@.len() && links_of(
                        self.pages@[i].html_spec(),
                        self.pages@[i].url_spec(),
                    ).contains(l) && !old(self).blacklisted_url(l) && old(self).scope_ok(l)
                        ==> self.links_visited.has(l),
            decreases usize::MAX - self.visited().card(),
        {
            if self.links.is_empty() {
                proof {
                    if !old(self).configuration.respect_robots_txt {
                        assert forall|u: Seq<char>|
                            old(self).links.has(u) && old(self).admissible(u) implies
                        self.links_visited.has(u) by {
                            assert(!self.links.has(u));
                        }
                        assert forall|i: int, l: Seq<char>|
                            old(self).pages@.len() <= i < self.pages@.len() && links_of(
                            self.pages@[i].html_spec(),
                            self.pages@[i].url_spec(),
                        ).contains(l) && !old(self).blacklisted_url(l) && old(self).scope_ok(l) implies self.links_visited.has(l) by {
                            assert(!self.links.has(l));
                        }
                    }
                }
                break;
            }
            let ghost pre_round = *self;
            let admitted = self.admit_round();
            let ghost admitted_seq = admitted.deep_view();
            let ghost mid = *self;
            proof {
                assert forall|k: int|
                    old(self).pages@.len() <= k < self.pages@.len() implies self.links_visited.has(
                    (#[trigger] self.pages@[k]).url_spec()) && !old(self).links_visited.has(
                    self.pages@[k].url_spec()) by {
                    assert(self.pages@ == pre_round.pages@);
                    assert(self.pages@[k] == pre_round.pages@[k]);
                    assert(pre_round.links_visited.has((pre_round.pages@[k]).url_spec()));
                    assert(!old(self).links_visited.has((pre_round.pages@[k]).url_spec()));
                    assert(self.has_visited((pre_round.pages@[k]).url_spec()) == (
                    pre_round.has_visited((pre_round.pages@[k]).url_spec())
                        || admitted_seq.contains((pre_round.pages@[k]).url_spec())));
                }
                assert forall|a: int, b: int|
                    old(self).pages@.len() <= a < b < self.pages@.len() implies (
                #[trigger] self.pages@[a]).url_spec() != (#[trigger] self.pages@[b]).url_spec() by {
                    assert(self.pages@[a] == pre_round.pages@[a]);
                    assert(self.pages@[b] == pre_round.pages@[b]);
                }
                if !old(self).configuration.respect_robots_txt {
                    // admission settles every admissible link of the records held so
                    // far: it is either already visited or admitted just now
                    assert forall|i: int, l: Seq<char>|
                        old(self).pages@.len() <= i < self.pages@.len() && links_of(
                        self.pages@[i].html_spec(),
                        self.pages@[i].url_spec(),
                    ).contains(l) && !old(self).blacklisted_url(l) && old(self).scope_ok(l) implies self.links_visited.has(l) by {
                        assert(self.pages@[i] == pre_round.pages@[i]);
                        assert(links_of(
                            pre_round.pages@[i].html_spec(),
                            pre_round.pages@[i].url_spec(),
                        ).contains(l));
                        assert(pre_round.configuration == old(self).configuration);
                        assert(pre_round.domain == old(self).domain);
                        assert(!pre_round.config().respect_robots_txt);
                        if pre_round.links_visited.has(l) {
                            assert(pre_round.has_visited(l));
                            assert(self.has_visited(l) == (pre_round.has_visited(l)
                                || admitted_seq.contains(l)));
                        } else if pre_round.links.has(l) {
                            assert(pre_round.in_frontier(l) && pre_round.admissible(l));
                            assert(self.has_visited(l));
                        }
                    }
                }
            }
            if admitted.len() == 0 {
                self.links = UrlSet::new();
                proof {
                    assert(self.links_visited == mid.links_visited);
                    assert forall|x: Seq<char>|
                        self.has_visited(x) == (pre_round.has_visited(x)
                            || admitted_seq.contains(x)) by {
                        assert(mid.has_visited(x) == (pre_round.has_visited(x)
                            || admitted_seq.contains(x)));
                    }
                    lemma_round_transfer(pre_round, *self, *old(self), admitted_seq);
                    assert forall|k: int|
                        0 <= k < dispatched.len() implies self.links_visited.has(
                    #[trigger] dispatched[k]) by {
                        assert(pre_round.links_visited.has(dispatched[k]));
                        assert(mid.has_visited(dispatched[k]) == (pre_round.has_visited(
                            dispatched[k]) || admitted_seq.contains(dispatched[k])));
                        assert(self.links_visited == mid.links_visited);
                    }
                    if !old(self).configuration.respect_robots_txt {
                        assert forall|u: Seq<char>|
                            old(self).links.has(u) && old(self).admissible(u) implies
                        self.links_visited.has(u) by {
                            assert(pre_round.configuration == old(self).configuration);
                            assert(pre_round.domain == old(self).domain);
                            assert(!pre_round.config().respect_robots_txt);
                            if pre_round.links_visited.has(u) {
                                assert(pre_round.has_visited(u));
                                assert(mid.has_visited(u) == (pre_round.has_visited(u)
                                    || admitted_seq.contains(u)));
                                assert(self.links_visited == mid.links_visited);
                                assert(self.has_visited(u));
                            } else if pre_round.links.has(u) {
                                assert(pre_round.in_frontier(u) && pre_round.admissible(u));
                                assert(mid.has_visited(u));
                                assert(self.links_visited == mid.links_visited);
                                assert(self.has_visited(u));
                            }
                        }
                        assert forall|i: int, l: Seq<char>|
                            old(self).pages@.len() <= i < self.pages@.len() && links_of(
                            self.pages@[i].html_spec(),
                            self.pages@[i].url_spec(),
                        ).contains(l) && !old(self).blacklisted_url(l) && old(self).scope_ok(l) implies self.links_visited.has(l) by {
                            assert(self.pages@[i] == mid.pages@[i]);
                            assert(links_of(
                                mid.pages@[i].html_spec(),
                                mid.pages@[i].url_spec(),
                            ).contains(l));
                            assert(mid.links_visited.has(l));
                            assert(self.links_visited == mid.links_visited);
                        }
                    }
                }
                break;
            }
            let results = fetch_batch(&pool, client, &admitted, delay);
            proof {
                assert forall|x: Seq<char>|
                    #![trigger admitted_seq.contains(x)]
                    admitted_seq.contains(x) implies self.links_visited.has(x) by {
                    assert(mid.has_visited(x) == (pre_round.has_visited(x)
                        || admitted_seq.contains(x)));
                }
            }
            let ghost snap = *self;
            let mut new_links = UrlSet::new();
            let mut i: usize = 0;
            while i < results.len()
                invariant
                    self.links == snap.links,
                    self.links_visited == snap.links_visited,
                    self.configuration == snap.configuration,
                    self.domain == snap.domain,
                    self.robots == snap.robots,
                    snap.links_visited.wf(),
                    new_links.wf(),
                    i <= results@.len(),
                    forall|k: int|
                        0 <= k < results@.len() ==> admitted_seq.contains(
                            (#[trigger] results@[k].0)@,
                        ),
                    forall|x: Seq<char>|
                        #![trigger admitted_seq.contains(x)]
                        admitted_seq.contains(x) ==> self.links_visited.has(x),
                    self.pages@.len() == snap.pages@.len() + i,
                    forall|j: int|
                        0 <= j < snap.pages@.len() ==> self.pages@[j] == snap.pages@[j],
                    forall|j: int|
                        snap.pages@.len() <= j < self.pages@.len() ==> self.links_visited.has(
                            (#[trigger] self.pages@[j]).url_spec(),
                        ),
                    forall|k: int|
                        0 <= k < i ==> (#[trigger] self.pages@[snap.pages@.len() + k]).url_spec()
                            == results@[k].0@ && self.pages@[snap.pages@.len() + k].html_spec()
                            == results@[k].1@,
                    forall|k: int, l: Seq<char>|
                        #![trigger links_of(results@[k].1@, results@[k].0@).contains(l)]
                        0 <= k < i && links_of(results@[k].1@, results@[k].0@).contains(l)
                            ==> new_links.has(l),
                decreases results@.len() - i,
            {
                let page = Page::build(&results[i].0, results[i].1.as_str());
                let found = page.links();
                let ghost links_before = new_links;
                new_links.extend_with(&found);
                proof {
                    let x = (results@[i as int].0)@;
                    assert(admitted_seq.contains(x));
                    assert(self.links_visited.has(x));
                    assert forall|k: int, l: Seq<char>|
                        0 <= k < i + 1 && links_of(results@[k].1@, results@[k].0@).contains(
                        l) implies new_links.has(l) by {
                        if k == i as int {
                            assert(page.url_spec() == results@[k].0@);
                            assert(page.html_spec() == results@[k].1@);
                            assert(links_of(page.html_spec(), page.url_spec()).contains(l));
                            assert(found.has(l));
                        } else {
                            assert(links_before.has(l));
                        }
                        assert(new_links.has(l) == (links_before.has(l) || found.has(l)));
                    }
                }
                self.pages.push(page);
                i = i + 1;
            }
            self.links = new_links.minus(&self.links_visited);
            proof {
                assert(self.links_visited == mid.links_visited);
                assert forall|x: Seq<char>|
                    self.has_visited(x) == (pre_round.has_visited(x) || admitted_seq.contains(
                        x,
                    )) by {
                    assert(mid.has_visited(x) == (pre_round.has_visited(x)
                        || admitted_seq.contains(x)));
                }
                lemma_round_transfer(pre_round, *self, *old(self), admitted_seq);
                if !old(self).configuration.respect_robots_txt {
                    assert forall|u: Seq<char>|
                        old(self).links.has(u) && old(self).admissible(u) implies
                    self.links_visited.has(u) by {
                        assert(pre_round.configuration == old(self).configuration);
                        assert(pre_round.domain == old(self).domain);
                        assert(!pre_round.config().respect_robots_txt);
                        if pre_round.links_visited.has(u) {
                            assert(pre_round.has_visited(u));
                            assert(mid.has_visited(u) == (pre_round.has_visited(u)
                                || admitted_seq.contains(u)));
                            assert(self.links_visited == mid.links_visited);
                            assert(self.has_visited(u));
                        } else if pre_round.links.has(u) {
                            assert(pre_round.in_frontier(u) && pre_round.admissible(u));
                            assert(mid.has_visited(u));
                            assert(self.links_visited == mid.links_visited);
                            assert(self.has_visited(u));
                        }
                    }
                }
                let prev_log = dispatched;
                assert forall|k: int|
                    0 <= k < prev_log.len() implies Set::new(
                    |u: Seq<char>| pre_round.has_visited(u)).contains(#[trigger] prev_log[k]) by {
                    assert(pre_round.links_visited.has(prev_log[k]));
                    assert(pre_round.has_visited(prev_log[k]));
                }
                assert forall|k: int|
                    0 <= k < admitted_seq.len() implies !Set::new(
                    |u: Seq<char>| pre_round.has_visited(u)).contains(#[trigger] admitted_seq[k]) by {
                    assert(pre_round.admissible(admitted_seq[k]));
                }
                lemma_no_duplicate_fetch(
                    prev_log,
                    Set::new(|u: Seq<char>| pre_round.has_visited(u)),
                    admitted_seq,
                );
                dispatched = prev_log + admitted_seq;
                assert forall|k: int|
                    0 <= k < dispatched.len() implies self.links_visited.has(
                #[trigger] dispatched[k]) by {
                    if k < prev_log.len() {
                        assert(dispatched[k] == prev_log[k]);
                        assert(pre_round.links_visited.has(prev_log[k]));
                        assert(self.has_visited(prev_log[k]) == (pre_round.has_visited(
                            prev_log[k]) || admitted_seq.contains(prev_log[k])));
                    } else {
                        assert(dispatched[k] == admitted_seq[k - prev_log.len()]);
                        assert(admitted_seq.contains(admitted_seq[k - prev_log.len()]));
                        assert(self.has_visited(dispatched[k]) == (pre_round.has_visited(
                            dispatched[k]) || admitted_seq.contains(dispatched[k])));
                    }
                }
                assert(self.visited().card() == pre_round.visited().card() + admitted_seq.len());
                assert(self.visited().card() > pre_round.visited().card());
                self.links_visited.lemma_wf_card();
                pre_round.links_visited.lemma_wf_card();
                assert(snap.pages@ == pre_round.pages@);
                assert(self.pages@.len() == snap.pages@.len() + results@.len());
                assert forall|i: int|
                    0 <= i < old(self).pages@.len() implies self.pages@[i] == old(
                    self).pages@[i] by {
                    assert(self.pages@[i] == snap.pages@[i]);
                    assert(pre_round.pages@[i] == old(self).pages@[i]);
                }
                assert forall|k: int|
                    0 <= k < results@.len() implies !pre_round.links_visited.has(
                    (#[trigger] results@[k].0)@) && !old(self).links_visited.has(
                    results@[k].0@) by {
                    assert(admitted_seq.contains(results@[k].0@));
                    let m = choose|m: int|
                        0 <= m < admitted_seq.len() && admitted_seq[m] == results@[k].0@;
                    assert(pre_round.admissible(admitted_seq[m]));
                    assert(!pre_round.has_visited(results@[k].0@));
                    assert(!old(self).has_visited(results@[k].0@));
                }
                assert forall|i: int|
                    old(self).pages@.len() <= i < self.pages@.len() implies self.links_visited.has(
                    (#[trigger] self.pages@[i]).url_spec()) && !old(self).links_visited.has(
                    self.pages@[i].url_spec()) by {
                    if i < snap.pages@.len() {
                        assert(self.pages@[i] == snap.pages@[i]);
                        assert(mid.pages@[i] == snap.pages@[i]);
                        assert(pre_round.pages@[i] == snap.pages@[i]);
                        assert(mid.links_visited.has((mid.pages@[i]).url_spec()));
                        assert(!old(self).links_visited.has((pre_round.pages@[i]).url_spec()));
                    } else {
                        let k = i - snap.pages@.len();
                        assert(snap.pages@.len() + k == i);
                        assert((self.pages@[snap.pages@.len() + k]).url_spec() == results@[
                            k
                        ].0@);
                        assert(self.pages@[i].url_spec() == results@[k].0@);
                        assert(!old(self).links_visited.has(results@[k].0@));
                    }
                }
                assert forall|a: int, b: int|
                    old(self).pages@.len() <= a < b < self.pages@.len() implies (
                #[trigger] self.pages@[a]).url_spec() != (#[trigger] self.pages@[b]).url_spec() by {
                    if b < snap.pages@.len() {
                        assert(self.pages@[a] == pre_round.pages@[a]);
                        assert(self.pages@[b] == pre_round.pages@[b]);
                    } else if a >= snap.pages@.len() {
                        let ka = a - snap.pages@.len();
                        let kb = b - snap.pages@.len();
                        assert((self.pages@[snap.pages@.len() + ka]).url_spec() == results@[
                            ka
                        ].0@);
                        assert((self.pages@[snap.pages@.len() + kb]).url_spec() == results@[
                            kb
                        ].0@);
                        assert(self.pages@[a].url_spec() == results@[ka].0@);
                        assert(self.pages@[b].url_spec() == results@[kb].0@);
                        assert(admitted.deep_view().no_duplicates());
                        assert(results@[ka].0@ != results@[kb].0@);
                    } else {
                        let kb = b - snap.pages@.len();
                        assert(self.pages@[a] == pre_round.pages@[a]);
                        assert(pre_round.links_visited.has((pre_round.pages@[a]).url_spec()));
                        assert((self.pages@[snap.pages@.len() + kb]).url_spec() == results@[
                            kb
                        ].0@);
                        assert(self.pages@[b].url_spec() == results@[kb].0@);
                        assert(!pre_round.links_visited.has(results@[kb].0@));
                    }
                }
                if !old(self).configuration.respect_robots_txt {
                    assert forall|i: int, l: Seq<char>|
                        old(self).pages@.len() <= i < self.pages@.len() && links_of(
                        self.pages@[i].html_spec(),
                        self.pages@[i].url_spec(),
                    ).contains(l) && !old(self).blacklisted_url(l) && old(self).scope_ok(l) implies (self.links_visited.has(l) || self.links.has(l)) by {
                        if i < snap.pages@.len() {
                            // settled at admission time; visited only grew since
                            assert(self.pages@[i] == snap.pages@[i]);
                            assert(snap.pages@[i] == mid.pages@[i]);
                            assert(links_of(
                                mid.pages@[i].html_spec(),
                                mid.pages@[i].url_spec(),
                            ).contains(l));
                            assert(mid.links_visited.has(l));
                            assert(self.links_visited == mid.links_visited);
                        } else {
                            // a record of this round: its links went into the merge
                            let k = i - snap.pages@.len();
                            assert((self.pages@[snap.pages@.len() + k]).url_spec() == results@[
                                k
                            ].0@);
                            assert((self.pages@[snap.pages@.len() + k]).html_spec() == results@[
                                k
                            ].1@);
                            assert(links_of(results@[k].1@, results@[k].0@).contains(l));
                            assert(new_links.has(l));
                            if !self.links_visited.has(l) {
                                assert(self.links.has(l));
                            }
                        }
                    }
                }
            }
        }
        true
    }

    /// The admission filter. Returns `true` iff the URL is not already
    /// visited, not blacklisted, allowed by robots.txt (when the
    /// configuration respects it), and inside the follow-links scope.
    pub fn is_allowed(&self, link: &String) -> (r: bool)
        ensures
            r ==> self.admissible(link@),
            !self.config().respect_robots_txt ==> r == self.admissible(link@),
            self.config().respect_robots_txt && self.robots_handle() is None ==> !r,
    {
        let robots_allowed = self.is_allowed_robots(link);
        self.admission_decision(link, robots_allowed)
    }

    /// The admission filter's decision as a function of the robots answer:
    /// the URL is not visited, not blacklisted, in scope, and — when robots
    /// compliance is on — the policy allows it.
    pub fn admission_decision(&self, link: &String, robots_allowed: bool) -> (r: bool)
        ensures
            r == (self.admissible(link@) && (!self.config().respect_robots_txt
                || robots_allowed)),
    {
        if self.links_visited.contains(link) {
            return false;
        }
        if black_list::contains(&self.configuration.blacklist_url, link) {
            return false;
        }
        if self.configuration.respect_robots_txt && !robots_allowed {
            return false;
        }
        match self.configuration.follow_links {
            FollowLinks::NONE => false,
            FollowLinks::HOSTNAME => same_host(link, &self.domain),
            FollowLinks::SUBDOMAINS => false,
            FollowLinks::SAMEDOMAIN => false,
            FollowLinks::ALL => true,
        }
    }

    /// Whether the robots.txt policy allows the configured user agent to
    /// fetch this URL. While no policy has been resolved nothing is allowed;
    /// the policy is resolved once at setup, and a fetch that was attempted
    /// and failed parses as an allow-all policy (fail-open).
    pub fn is_allowed_robots(&self, link: &String) -> (r: bool)
        ensures
            self.robots_handle() is None ==> !r,
    {
        match &self.robots {
            None => false,
            Some(robots) => robots_can_fetch(
                robots,
                self.configuration.user_agent.as_str(),
                link.as_str(),
            ),
        }
    }
}

/// Carries a crawl entry point's contract across its setup step: `orig` is
/// the caller's state, `mid` the state after setup (same sets and records,
/// same policy, possibly a robots delay), `post` the state after the engine
/// ran with outcome `done`. What the engine guarantees relative to `mid`
/// holds relative to `orig`.
proof fn lemma_entry_bridge(orig: Website, mid: Website, post: Website, done: bool)
    requires
        orig.wf(),
        mid.visited() == orig.visited(),
        mid.frontier() == orig.frontier(),
        mid.page_records() == orig.page_records(),
        Website::policy_kept(orig, mid),
        post.sets_wf(),
        forall|u: Seq<char>| #![trigger post.has_visited(u)] mid.has_visited(u) ==> post.has_visited(u),
        forall|u: Seq<char>|
            #![trigger post.has_visited(u)]
            post.has_visited(u) && !mid.has_visited(u) ==> mid.admissible(u),
        done ==> forall|u: Seq<char>| !post.in_frontier(u),
        !done ==> post == mid,
        done && !mid.config().respect_robots_txt ==> forall|u: Seq<char>|
            #![trigger post.has_visited(u)]
            mid.in_frontier(u) && mid.admissible(u) ==> post.has_visited(u),
    ensures
        post.wf(),
        forall|u: Seq<char>| #![trigger post.has_visited(u)] orig.has_visited(u) ==> post.has_visited(u),
        forall|u: Seq<char>|
            #![trigger post.has_visited(u)]
            post.has_visited(u) && !orig.has_visited(u) ==> orig.admissible(u),
        done ==> forall|u: Seq<char>| !post.in_frontier(u),
        !done ==> post.frontier() == orig.frontier() && post.visited() == orig.visited()
            && post.page_records() == orig.page_records(),
        done && !orig.config().respect_robots_txt ==> forall|u: Seq<char>|
            #![trigger post.has_visited(u)]
            orig.in_frontier(u) && orig.admissible(u) ==> post.has_visited(u),
{
    assert forall|u: Seq<char>| orig.has_visited(u) implies post.has_visited(u) by {
        assert(mid.has_visited(u));
    }
    assert forall|u: Seq<char>|
        post.has_visited(u) && !orig.has_visited(u) implies orig.admissible(u) by {
        assert(mid.has_visited(u) == orig.has_visited(u));
        assert(mid.config().blacklist_url == orig.config().blacklist_url);
        assert(mid.config().follow_links == orig.config().follow_links);
        assert(mid.seed() == orig.seed());
        assert(mid.admissible(u) ==> orig.admissible(u));
    }
    if done {
        assert forall|u: Seq<char>| !(post.in_frontier(u) && post.has_visited(u)) by {
            assert(!post.in_frontier(u));
        }
    } else {
        assert forall|u: Seq<char>| !(post.in_frontier(u) && post.has_visited(u)) by {
            assert(post.in_frontier(u) == orig.in_frontier(u));
            assert(post.has_visited(u) == orig.has_visited(u));
        }
    }
    if done && !orig.config().respect_robots_txt {
        assert(mid.config().respect_robots_txt == orig.config().respect_robots_txt);
        assert forall|u: Seq<char>|
            orig.in_frontier(u) && orig.admissible(u) implies post.has_visited(u) by {
            assert(mid.in_frontier(u));
            assert(mid.has_visited(u) == orig.has_visited(u));
            assert(mid.admissible(u));
        }
    }
}

/// Carries the crawl loop's bookkeeping across one round: if the state `pre`
/// grew out of `orig` by visiting only admissible URLs, and `post` grew out
/// of `pre` by visiting exactly the URLs of the admitted batch `adm`, each
/// admissible at `pre`, then `post` also grew out of `orig` by visiting only
/// admissible URLs.
proof fn lemma_round_transfer(pre: Website, post: Website, orig: Website, adm: Seq<Seq<char>>)
    requires
        forall|u: Seq<char>| #![trigger pre.has_visited(u)] orig.has_visited(u) ==> pre.has_visited(u),
        forall|u: Seq<char>|
            #![trigger pre.has_visited(u)]
            pre.has_visited(u) && !orig.has_visited(u) ==> orig.admissible(u),
        pre.config() == orig.config(),
        pre.seed() == orig.seed(),
        forall|x: Seq<char>|
            #![trigger post.has_visited(x)]
            #![trigger adm.contains(x)]
            post.has_visited(x) == (pre.has_visited(x) || adm.contains(x)),
        forall|i: int| 0 <= i < adm.len() ==> pre.admissible(#[trigger] adm[i]),
    ensures
        forall|u: Seq<char>| #![trigger post.has_visited(u)] orig.has_visited(u) ==> post.has_visited(u),
        forall|u: Seq<char>|
            #![trigger post.has_visited(u)]
            post.has_visited(u) && !orig.has_visited(u) ==> orig.admissible(u),
{
    assert forall|u: Seq<char>| orig.has_visited(u) implies post.has_visited(u) by {
        assert(pre.has_visited(u));
    }
    assert forall|u: Seq<char>|
        post.has_visited(u) && !orig.has_visited(u) implies orig.admissible(u) by {
        if adm.contains(u) {
            let k = choose|k: int| 0 <= k < adm.len() && adm[k] == u;
            assert(pre.admissible(adm[k]));
            assert(!pre.blacklisted_url(u) && pre.scope_ok(u));
        }
    }
}

/// No duplicate fetch: one crawl hands the fetcher pairwise-distinct URL
/// batches. A batch marks everything it dispatches as visited before the
/// next admission runs, and admission only passes URLs not yet visited; so
/// if every URL of a first batch is visited by the time a second batch is
/// admitted, the two batches concatenate to a duplicate-free dispatch log.
/// Applied round over round, no URL is ever handed to the fetcher twice.
pub proof fn lemma_no_duplicate_fetch(
    first: Seq<Seq<char>>,
    visited_between: Set<Seq<char>>,
    second: Seq<Seq<char>>,
)
    requires
        first.no_duplicates(),
        second.no_duplicates(),
        forall|i: int| 0 <= i < first.len() ==> visited_between.contains(#[trigger] first[i]),
        forall|i: int| 0 <= i < second.len() ==> !visited_between.contains(#[trigger] second[i]),
    ensures
        (first + second).no_duplicates(),
{
    let all = first + second;
    assert forall|i: int, j: int|
        0 <= i < all.len() && 0 <= j < all.len() && i != j implies all[i] != all[j] by {
        if i < first.len() && j < first.len() {
            assert(all[i] == first[i] && all[j] == first[j]);
        } else if i >= first.len() && j >= first.len() {
            assert(all[i] == second[i - first.len()] && all[j] == second[j - first.len()]);
        } else if i < first.len() && j >= first.len() {
            assert(all[i] == first[i] && all[j] == second[j - first.len()]);
        } else {
            assert(all[i] == second[i - first.len()] && all[j] == first[j]);
        }
    }
}

/// Termination: over a finite universe that contains every URL the crawl can
/// reach, a round that admits at least one URL strictly shrinks the unvisited
/// part of the universe. A round that admits nothing ends the crawl with an
/// empty frontier; so the engine reaches its terminal state in at most as
/// many dispatching rounds as the universe has URLs.
pub proof fn lemma_crawl_termination(
    universe: Set<Seq<char>>,
    visited: Set<Seq<char>>,
    admitted: Seq<Seq<char>>,
    visited_after: Set<Seq<char>>,
)
    requires
        universe.finite(),
        visited.subset_of(universe),
        forall|i: int| 0 <= i < admitted.len() ==> universe.contains(#[trigger] admitted[i]),
        forall|i: int| 0 <= i < admitted.len() ==> !visited.contains(#[trigger] admitted[i]),
        admitted.len() > 0,
        forall|x: Seq<char>|
            visited_after.contains(x) <==> (visited.contains(x) || admitted.contains(x)),
    ensures
        visited_after.subset_of(universe),
        universe.difference(visited_after).len() < universe.difference(visited).len(),
{
    broadcast use vstd::set::group_set_axioms;

    let x = admitted[0];
    assert(admitted.contains(x));
    let d_before = universe.difference(visited);
    let d_after = universe.difference(visited_after);
    lemma_len_subset(d_before, universe);
    assert(d_before.contains(x));
    assert(d_after.subset_of(d_before.remove(x)));
    lemma_len_subset(d_after, d_before.remove(x));
    assert(d_before.remove(x).len() + 1 == d_before.len());
}

} // verus!
