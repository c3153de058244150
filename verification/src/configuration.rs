//! Crawl policy: what to respect, what to skip, and how hard to push.

use vstd::prelude::*;
use vstd::string::StringExecFns;

verus! {

/// Whether the crawler should follow discovered links (all of them, only those
/// on the seed's hostname, on the same second-level domain, on subdomains, or
/// none at all).
#[allow(non_camel_case_types)]
#[derive(Debug, Clone, Copy)]
pub enum FollowLinks {
    /// Follow all links.
    ALL,
    /// Follow only links on this hostname.
    HOSTNAME,
    /// Follow only links on the same 2nd level domain.
    SAMEDOMAIN,
    /// Follow also links on subdomains of the hostname.
    SUBDOMAINS,
    /// Do not follow links, only the URL provided.
    NONE,
}

impl Default for FollowLinks {
    fn default() -> (r: Self)
        ensures
            r is HOSTNAME,
    {
        FollowLinks::HOSTNAME
    }
}

/// Configuration for a `Website` crawl.
#[derive(Debug)]
pub struct Configuration {
    /// Respect robots.txt and do not fetch disallowed pages.
    pub respect_robots_txt: bool,
    /// Exact URLs that must never be crawled.
    pub blacklist_url: Vec<String>,
    /// Which discovered links to follow.
    pub follow_links: FollowLinks,
    /// User-Agent string for the HTTP client.
    pub user_agent: String,
    /// Polite crawling delay, in milliseconds.
    pub delay: u64,
    /// How many requests can be in flight simultaneously.
    pub concurrency: usize,
}

/// Relies on num_cpus::get: the number of logical CPUs, documented to always
/// be at least 1.
#[verifier::external_body]
fn logical_cpus() -> (n: usize)
    ensures
        n >= 1,
{
    num_cpus::get()
}

/// Relies on num_cpus::get_physical: the number of physical CPUs, documented
/// to always be at least 1.
#[verifier::external_body]
fn physical_cpus() -> (n: usize)
    ensures
        n >= 1,
{
    num_cpus::get_physical()
}

impl Configuration {
    /// A configuration structurally valid for crawling.
    pub open spec fn wf(self) -> bool {
        self.concurrency >= 1
    }

    /// The default crawl configuration: robots.txt ignored, empty blacklist,
    /// hostname scope, a polite 250 ms delay, and a concurrency derived from
    /// the machine's CPU count.
    pub fn new() -> (r: Self)
        ensures
            r.wf(),
            r.concurrency >= 4,
            !r.respect_robots_txt,
            r.blacklist_url@.len() == 0,
            r.follow_links is HOSTNAME,
            r.user_agent@ == "spider/1.1.2"@,
            r.delay == 250,
    {
        let logical_cpus = logical_cpus();
        let physical_cpus = physical_cpus();

        // determine simultaneous multithreading
        let smt: usize = if logical_cpus > physical_cpus {
            let q: usize = logical_cpus / physical_cpus;
            assert(q >= 1) by (nonlinear_arith)
                requires
                    logical_cpus > physical_cpus,
                    physical_cpus >= 1,
                    q == logical_cpus / physical_cpus,
            ;
            q
        } else {
            logical_cpus
        };
        let concurrency: usize = if smt <= usize::MAX / 4 {
            smt * 4
        } else {
            usize::MAX
        };

        Self {
            respect_robots_txt: false,
            blacklist_url: Vec::new(),
            follow_links: FollowLinks::HOSTNAME,
            user_agent: String::from_str("spider/1.1.2"),
            delay: 250,
            concurrency,
        }
    }
}

} // verus!
