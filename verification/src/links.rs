use crate::bytes::{contains_ignore_ascii_case, spec_contains_ignore_ascii_case};
use vstd::prelude::*;
use vstd::utf8::encode_utf8;

verus! {

/// `imgur`, the token that a link's URL must hold to be given out. It is
/// written in small letters, as the URL is read when it is searched.
pub const MATCH_TOKEN: [u8; 5] = [0x69, 0x6d, 0x67, 0x75, 0x72];

/// One link of a page. The URL may be missing.
#[derive(Debug)]
pub struct Link {
    pub url: Option<String>,
}

/// What is known of the HTML of a response. The links may be missing.
#[derive(Debug)]
pub struct HtmlMetadata {
    pub links: Option<Vec<Link>>,
}

/// What is known of an HTTP response. The part on its HTML may be missing.
#[derive(Debug)]
pub struct HttpResponseMetadata {
    pub html_metadata: Option<HtmlMetadata>,
}

/// The payload's metadata. The part on the HTTP response may be missing.
#[derive(Debug)]
pub struct PayloadMetadata {
    pub http_response_metadata: Option<HttpResponseMetadata>,
}

/// The envelope of a metadata document.
#[derive(Debug)]
pub struct Envelope {
    pub payload_metadata: PayloadMetadata,
}

/// A metadata document: the parsed body of a `metadata` record.
#[derive(Debug)]
pub struct Wat {
    pub envelope: Envelope,
}

impl Link {
    /// The text of the link's URL, where it has one.
    pub open spec fn url_text(self) -> Option<Seq<char>> {
        match self.url {
            Some(url) => Some(url@),
            None => None,
        }
    }
}

impl Wat {
    /// Whether the document holds a list of links: none of the parts that
    /// lead to it is missing.
    pub open spec fn has_links(self) -> bool {
        &&& self.envelope.payload_metadata.http_response_metadata matches Some(response)
        &&& response.html_metadata matches Some(html)
        &&& html.links is Some
    }

    /// The links of the document, in their order; none where a part that
    /// leads to them is missing.
    pub open spec fn links(self) -> Seq<Link> {
        match self.envelope.payload_metadata.http_response_metadata {
            Some(response) => match response.html_metadata {
                Some(html) => match html.links {
                    Some(links) => links@,
                    None => Seq::empty(),
                },
                None => Seq::empty(),
            },
            None => Seq::empty(),
        }
    }
}

/// Whether a URL is one to give out: its text, as UTF-8 and with its ASCII
/// capital letters read as small ones, holds the match token.
pub open spec fn spec_url_matches(url: Seq<char>) -> bool {
    spec_contains_ignore_ascii_case(encode_utf8(url), MATCH_TOKEN@)
}

/// The URL of `link`, as it is written, where the link has one and it
/// matches.
pub open spec fn matching_url(link: Link) -> Option<Seq<char>> {
    match link.url_text() {
        Some(url) if spec_url_matches(url) => Some(url),
        _ => None,
    }
}

/// The URLs that `links` give out: those that are present and match, each
/// as it is written, in the order of the links.
pub open spec fn spec_matching_urls(links: Seq<Link>) -> Seq<Seq<char>> {
    links.filter_map(|link: Link| matching_url(link))
}

/// Whether `url` holds the match token, without regard to the case of its
/// ASCII letters.
pub fn url_matches(url: &str) -> (yes: bool)
    ensures
        yes == spec_url_matches(url@),
{
    contains_ignore_ascii_case(url.as_bytes(), MATCH_TOKEN.as_slice())
}

/// The URLs of the links of `doc` that hold the match token, each as the
/// document writes it, in the order of the links.
///
/// A document in which the links, or a part that leads to them, are missing
/// gives none, and so does a link without a URL.
pub fn matching_urls(doc: &Wat) -> (urls: Vec<String>)
    ensures
        urls@.map_values(|url: String| url@) == spec_matching_urls(doc.links()),
        !doc.has_links() ==> urls@.len() == 0,
{
    let mut urls: Vec<String> = Vec::new();
    let links = match &doc.envelope.payload_metadata.http_response_metadata {
        Some(response) => match &response.html_metadata {
            Some(html) => match &html.links {
                Some(links) => links,
                None => { return urls; },
            },
            None => { return urls; },
        },
        None => { return urls; },
    };
    let mut i: usize = 0;
    while i < links.len()
        invariant
            i <= links@.len(),
            links@ == doc.links(),
            urls@.map_values(|url: String| url@) == spec_matching_urls(links@.take(i as int)),
        decreases links@.len() - i,
    {
        proof {
            links@.lemma_filter_map_take_succ(|link: Link| matching_url(link), i as int);
        }
        let ghost before = urls@.map_values(|url: String| url@);
        match &links[i].url {
            Some(url) => {
                if url_matches(url.as_str()) {
                    urls.push(url.clone());
                    assert(urls@.map_values(|url: String| url@) =~= before + seq![url@]);
                }
            },
            None => {},
        }
        assert(urls@.map_values(|url: String| url@) =~= spec_matching_urls(links@.take(i + 1)));
        i = i + 1;
    }
    assert(links@.take(i as int) =~= links@);
    urls
}

/// Every link whose URL is present and holds the match token has its URL
/// among those given out, written as the link writes it.
pub proof fn lemma_matching_url_is_given(links: Seq<Link>, i: int)
    requires
        0 <= i < links.len(),
        links[i].url_text() matches Some(url) && spec_url_matches(url),
    ensures
        spec_matching_urls(links).contains(links[i].url_text().unwrap()),
    decreases links.len(),
{
    let pick = |link: Link| matching_url(link);
    let url = links[i].url_text().unwrap();
    let front = links.drop_last();
    if i == links.len() - 1 {
        let given = spec_matching_urls(links);
        assert(given == front.filter_map(pick) + seq![url]);
        assert(given[given.len() - 1] == url);
    } else {
        lemma_matching_url_is_given(front, i);
        let earlier = front.filter_map(pick);
        let at = choose|at: int| 0 <= at < earlier.len() && earlier[at] == url;
        assert(spec_matching_urls(links)[at] == url);
    }
}

/// Nothing is given out that no link holds: each URL given out is the URL
/// of one of the links, present and holding the match token.
pub proof fn lemma_given_url_is_matching(links: Seq<Link>, url: Seq<char>)
    requires
        spec_matching_urls(links).contains(url),
    ensures
        spec_url_matches(url),
        exists|i: int| 0 <= i < links.len() && (#[trigger] links[i]).url_text() == Some(url),
{
    let pick = |link: Link| matching_url(link);
    links.lemma_filter_map_contains(pick, url);
    let link = choose|link: Link| #[trigger] links.contains(link) && pick(link) == Some(url);
    let i = choose|i: int| 0 <= i < links.len() && links[i] == link;
    assert(links[i].url_text() == Some(url));
}

/// A document in which the links, or a part that leads to them, are missing
/// gives out nothing.
pub proof fn lemma_no_links_no_urls(doc: Wat)
    requires
        !doc.has_links(),
    ensures
        spec_matching_urls(doc.links()) == Seq::<Seq<char>>::empty(),
{
    assert(doc.links() == Seq::<Link>::empty());
}

} // verus!
