//! A visited page: its URL, its fetched document text, and the link
//! extraction that feeds newly discovered URLs back to the crawl engine.

use vstd::prelude::*;
use vstd::string::StringExecFns;

use crate::url_set::UrlSet;
use crate::utils::fetch_page_html;
use reqwest::blocking::Client;

verus! {

/// What scraper makes of a document: the value of the `href` attribute of
/// every element matched by the selector list, in document order (an element
/// without the attribute yields the empty string; an unparsable selector
/// list yields nothing).
pub uninterp spec fn hrefs_of(html: Seq<char>, selectors: Seq<char>) -> Seq<Seq<char>>;

/// What url's join makes of a reference against a base: the joined URL,
/// serialized with any fragment removed; the base itself when the reference
/// cannot be resolved against it.
pub uninterp spec fn join_of(base: Seq<char>, href: Seq<char>) -> Seq<char>;

/// Whether a URL string has one of the web schemes the crawler follows.
pub open spec fn has_web_scheme(s: Seq<char>) -> bool {
    ||| (s.len() >= "http://"@.len() && s.subrange(0, "http://"@.len() as int) == "http://"@)
    ||| (s.len() >= "https://"@.len() && s.subrange(0, "https://"@.len() as int) == "https://"@)
}

/// What resolving a reference against a page's URL yields: the fragment-free
/// join, except that a reference that cannot be resolved, or that resolves
/// to an unsupported scheme such as `tel:`, falls back to the page's own URL
/// — a deliberate fallback, not an error.
pub open spec fn resolve_of(base: Seq<char>, href: Seq<char>) -> Seq<char> {
    if has_web_scheme(join_of(base, href)) {
        join_of(base, href)
    } else {
        base
    }
}

/// The ignore-list appended to every anchor selector: anchors whose target
/// has a common binary, media, script or style extension are not web pages
/// and are skipped during link gathering.
pub open spec fn media_ignore_spec() -> Seq<char> {
    r#":not([href$=".png"]):not([href$=".jpg"]):not([href$=".jpeg"]):not([href$=".svg"]):not([href$=".webp"]):not([href$=".gif"]):not([href$=".pdf"]):not([href$=".tiff"]):not([href$=".wav"]):not([href$=".mp3"]):not([href$=".mp4"]):not([href$=".ogg"]):not([href$=".webm"]):not([href$=".docx"]):not([href$=".git"]):not([href$=".json"]):not([href$=".xml"]):not([href$=".css"]):not([href$=".md"]):not([href$=".txt"]):not([href$=".js"]):not([href$=".jsx"]):not([href$=".csv"])"#@
}

/// Selector for all relative links that look like web pages.
pub open spec fn media_relative_spec() -> Seq<char> {
    r#"a[href^="/"]"#@ + media_ignore_spec()
}

/// Selector for common static page extensions.
pub open spec fn media_static_spec() -> Seq<char> {
    r#"[href$=".html"] [href$=".htm"] [href$=".asp"] [href$=".aspx"] [href$=".php"] [href$=".jps"] [href$=".jpsx"]"#@
}

/// Selector for absolute links under `domain` that look like web pages.
pub open spec fn media_absolute_spec(domain: Seq<char>) -> Seq<char> {
    r#"a[href^=""#@ + domain + r#""]"#@ + media_ignore_spec()
}

/// The full selector list for one page: relative links, absolute links under
/// the page's domain, and static page files under either.
pub open spec fn page_selectors_spec(domain: Seq<char>) -> Seq<char> {
    media_relative_spec() + ","@ + media_absolute_spec(domain) + ","@ + (media_relative_spec()
        + " "@ + media_static_spec() + ", "@ + media_absolute_spec(domain) + " "@
        + media_static_spec())
}

/// The set of links one page contributes to the frontier: every matched
/// `href`, resolved against the page's own URL.
pub open spec fn links_of(html: Seq<char>, base: Seq<char>) -> Set<Seq<char>> {
    Set::new(
        |u: Seq<char>|
            exists|i: int|
                0 <= i < hrefs_of(html, page_selectors_spec(base)).len() && u == resolve_of(
                    base,
                    hrefs_of(html, page_selectors_spec(base))[i],
                ),
    )
}

fn media_ignore_selector() -> (r: &'static str)
    ensures
        r@ == media_ignore_spec(),
{
    r#":not([href$=".png"]):not([href$=".jpg"]):not([href$=".jpeg"]):not([href$=".svg"]):not([href$=".webp"]):not([href$=".gif"]):not([href$=".pdf"]):not([href$=".tiff"]):not([href$=".wav"]):not([href$=".mp3"]):not([href$=".mp4"]):not([href$=".ogg"]):not([href$=".webm"]):not([href$=".docx"]):not([href$=".git"]):not([href$=".json"]):not([href$=".xml"]):not([href$=".css"]):not([href$=".md"]):not([href$=".txt"]):not([href$=".js"]):not([href$=".jsx"]):not([href$=".csv"])"#
}

fn media_static_selector() -> (r: &'static str)
    ensures
        r@ == media_static_spec(),
{
    r#"[href$=".html"] [href$=".htm"] [href$=".asp"] [href$=".aspx"] [href$=".php"] [href$=".jps"] [href$=".jpsx"]"#
}

fn media_relative_selector() -> (r: String)
    ensures
        r@ == media_relative_spec(),
{
    let mut s = String::from_str(r#"a[href^="/"]"#);
    s.append(media_ignore_selector());
    s
}

fn media_absolute_selector(domain: &str) -> (r: String)
    ensures
        r@ == media_absolute_spec(domain@),
{
    let mut s = String::from_str(r#"a[href^=""#);
    s.append(domain);
    s.append(r#""]"#);
    s.append(media_ignore_selector());
    s
}

/// Relies on scraper: parses the document text and returns the `href`
/// attribute value of every element matched by the selector list, in
/// document order; an element without the attribute yields the empty string
/// and an unparsable selector list yields no matches.
#[verifier::external_body]
fn extract_hrefs(html: &str, selectors: &str) -> (r: Vec<String>)
    ensures
        r.deep_view() == hrefs_of(html@, selectors@),
{
    match scraper::Selector::parse(selectors) {
        Ok(sel) => scraper::Html::parse_document(html).select(&sel).map(
            |a| a.value().attr("href").unwrap_or_default().to_string(),
        ).collect(),
        Err(_) => Vec::new(),
    }
}

/// Relies on url::Url: resolves `href` against `base`, strips any fragment,
/// and serializes the result. When `href` cannot be joined the result is the
/// parsed base re-serialized (identical to `base` for the canonical bases
/// the engine passes); when `base` itself does not parse, the result is the
/// `base` text unchanged.
#[verifier::external_body]
fn join_strip_fragment(base: &str, href: &str) -> (r: String)
    ensures
        r@ == join_of(base@, href@),
{
    match url::Url::parse(base) {
        Ok(parsed) => {
            let mut joined = parsed.join(href).unwrap_or(parsed);
            joined.set_fragment(None);
            joined.to_string()
        },
        Err(_) => base.to_string(),
    }
}

/// Relies on str::starts_with: whether the string begins with the given
/// prefix.
#[verifier::external_body]
fn str_starts_with(s: &str, prefix: &str) -> (r: bool)
    ensures
        r == (s@.len() >= prefix@.len() && s@.subrange(0, prefix@.len() as int) == prefix@),
{
    s.starts_with(prefix)
}

/// One visited page.
#[derive(Debug, Clone)]
pub struct Page {
    /// Canonical URL of this page; also the base for resolving its links.
    url: String,
    /// The fetched document text (empty when the fetch failed).
    html: String,
}

impl Page {
    /// The page's URL, as a character sequence.
    pub closed spec fn url_spec(self) -> Seq<char> {
        self.url@
    }

    /// The page's document text, as a character sequence.
    pub closed spec fn html_spec(self) -> Seq<char> {
        self.html@
    }

    /// Fetch `url` and wrap the response body as a page.
    pub fn new(url: &String, client: &Client) -> (r: Self)
        ensures
            r.url_spec() == url@,
    {
        let html = fetch_page_html(url.as_str(), client);
        Page::build(url, html.as_str())
    }

    /// Wrap an already-fetched document as a page.
    pub fn build(url: &String, html: &str) -> (r: Self)
        ensures
            r.url_spec() == url@,
            r.html_spec() == html@,
    {
        Self { url: url.clone(), html: String::from_str(html) }
    }

    /// URL getter.
    pub fn get_url(&self) -> (r: &String)
        ensures
            r@ == self.url_spec(),
    {
        &self.url
    }

    /// Document text getter.
    pub fn get_html(&self) -> (r: &String)
        ensures
            r@ == self.html_spec(),
    {
        &self.html
    }

    /// Drop the retained document text (URL-only page records).
    pub fn clear_html(&mut self)
        ensures
            final(self).url_spec() == old(self).url_spec(),
            final(self).html_spec().len() == 0,
    {
        self.html = String::new();
    }

    /// The selector list used to gather this page's links: relative links,
    /// absolute links under `domain`, and static page files under either.
    pub fn get_page_selectors(&self, domain: &str) -> (r: String)
        ensures
            r@ == page_selectors_spec(domain@),
    {
        let relative = media_relative_selector();
        let absolute = media_absolute_selector(domain);
        let static_sel = media_static_selector();

        let mut static_html = String::from_str(relative.as_str());
        static_html.append(" ");
        static_html.append(static_sel);
        static_html.append(", ");
        static_html.append(absolute.as_str());
        static_html.append(" ");
        static_html.append(static_sel);

        let mut r = relative;
        r.append(",");
        r.append(absolute.as_str());
        r.append(",");
        r.append(static_html.as_str());
        r
    }

    /// Every link found on this page: each matched `href`, resolved against
    /// the page's URL, fragment-free and deduplicated.
    pub fn links(&self) -> (r: UrlSet)
        ensures
            r.wf(),
            forall|u: Seq<char>| r.has(u) <==> links_of(self.html_spec(), self.url_spec()).contains(
                u,
            ),
    {
        let selectors = self.get_page_selectors(self.url.as_str());
        let hrefs = extract_hrefs(self.html.as_str(), selectors.as_str());
        let ghost hseq = hrefs_of(self.html@, page_selectors_spec(self.url@));
        let mut r = UrlSet::new();
        let mut i: usize = 0;
        while i < hrefs.len()
            invariant
                r.wf(),
                i <= hrefs@.len(),
                hrefs.deep_view() == hseq,
                hseq == hrefs_of(self.html@, page_selectors_spec(self.url@)),
                forall|u: Seq<char>|
                    r.has(u) <==> exists|j: int| 0 <= j < i && u == resolve_of(self.url@, hseq[j]),
            decreases hrefs@.len() - i,
        {
            let abs = self.abs_path(hrefs[i].as_str());
            proof {
                assert(hrefs@[i as int]@ == hseq[i as int]);
            }
            r.insert(abs);
            i = i + 1;
        }
        r
    }

    /// Resolve a reference found on this page to an absolute, fragment-free
    /// URL, falling back to the page's own URL when it cannot be resolved or
    /// does not stay on a web scheme.
    pub fn abs_path(&self, href: &str) -> (r: String)
        ensures
            r@ == resolve_of(self.url_spec(), href@),
    {
        let joined = join_strip_fragment(self.url.as_str(), href);
        if str_starts_with(joined.as_str(), "http://") || str_starts_with(
            joined.as_str(),
            "https://",
        ) {
            joined
        } else {
            self.url.clone()
        }
    }
}

} // verus!
