use warc_links::bytes::{contains_ignore_ascii_case, folds_to, same_bytes, starts_with, to_ascii_lower};
use warc_links::links::{
    matching_urls, url_matches, Envelope, HtmlMetadata, HttpResponseMetadata, Link,
    PayloadMetadata, Wat, MATCH_TOKEN,
};
use warc_links::prefilter::{triage_of, Prefilter, Triage, PREFILTER_PATTERN};

fn document(links: Option<Vec<Link>>) -> Wat {
    Wat {
        envelope: Envelope {
            payload_metadata: PayloadMetadata {
                http_response_metadata: Some(HttpResponseMetadata {
                    html_metadata: Some(HtmlMetadata { links }),
                }),
            },
        },
    }
}

fn link(url: &str) -> Link {
    Link { url: Some(url.to_string()) }
}

#[test]
fn token_and_pattern_are_the_ascii_text() {
    assert_eq!(&MATCH_TOKEN[..], b"imgur");
    assert_eq!(PREFILTER_PATTERN, "(?i)imgur");
}

#[test]
fn prefix_and_equality_of_bytes() {
    assert!(starts_with(b"WARC-Type: x", b"WARC-Type: "));
    assert!(starts_with(b"abc", b""));
    assert!(starts_with(b"abc", b"abc"));
    assert!(!starts_with(b"abc", b"abcd"));
    assert!(!starts_with(b"abc", b"b"));
    assert!(same_bytes(b"metadata", b"metadata"));
    assert!(same_bytes(b"", b""));
    assert!(!same_bytes(b"metadata", b"metadat"));
    assert!(!same_bytes(b"metadata", b"metadatA"));
}

#[test]
fn only_ascii_capitals_are_lowered() {
    assert_eq!(to_ascii_lower(b'A'), b'a');
    assert_eq!(to_ascii_lower(b'Z'), b'z');
    assert_eq!(to_ascii_lower(b'a'), b'a');
    assert_eq!(to_ascii_lower(b'@'), b'@');
    assert_eq!(to_ascii_lower(b'['), b'[');
    assert_eq!(to_ascii_lower(0xc9), 0xc9);
    for byte in 0..=255u8 {
        assert_eq!(to_ascii_lower(byte), byte.to_ascii_lowercase());
    }
}

#[test]
fn needle_is_found_in_either_case_of_the_haystack() {
    assert!(contains_ignore_ascii_case(b"http://IMGUR.com", b"imgur"));
    assert!(contains_ignore_ascii_case(b"http://ImGuR.com", b"imgur"));
    assert!(contains_ignore_ascii_case(b"imgur", b"imgur"));
    assert!(contains_ignore_ascii_case(b"xximgur", b"imgur"));
    assert!(contains_ignore_ascii_case(b"anything", b""));
    assert!(contains_ignore_ascii_case(b"", b""));
    assert!(!contains_ignore_ascii_case(b"imgu", b"imgur"));
    assert!(!contains_ignore_ascii_case(b"img ur", b"imgur"));
    assert!(!contains_ignore_ascii_case(b"", b"imgur"));
    assert!(!contains_ignore_ascii_case(b"rugmi", b"imgur"));
}

#[test]
fn needle_is_taken_as_it_is_written() {
    assert!(!contains_ignore_ascii_case(b"imgur", b"IMGUR"));
    assert!(!contains_ignore_ascii_case(b"IMGUR", b"IMGUR"));
    assert!(folds_to(b"xIMGUR", 1, b"imgur"));
    assert!(!folds_to(b"xIMGUR", 0, b"imgur"));
    assert!(!folds_to(b"xIMGUR", 2, b"imgur"));
    assert!(!folds_to(b"xIMGUR", 99, b"imgur"));
    assert!(folds_to(b"abc", 3, b""));
}

#[test]
fn search_agrees_with_the_standard_functions() {
    let texts: [&str; 8] = [
        "http://imgur.com/a.png",
        "HTTP://I.IMGUR.COM/A.PNG",
        "http://example.com/",
        "im\u{e9}gur",
        "\u{130}mgur",
        "IMGU\u{211b}",
        "xIMgUrx",
        "",
    ];
    for text in texts {
        assert_eq!(url_matches(text), text.to_ascii_lowercase().contains("imgur"));
    }
}

#[test]
fn url_matches_without_regard_to_case() {
    assert!(url_matches("http://IMGUR.com/x"));
    assert!(url_matches("https://i.imgur.com/abc.jpg"));
    assert!(url_matches("IMGUR"));
    assert!(!url_matches("http://example.com/x"));
    assert!(!url_matches("http://im-gur.com/"));
    assert!(!url_matches(""));
}

#[test]
fn matching_url_is_given_in_its_own_case() {
    let doc = document(Some(vec![link("http://IMGUR.com/x")]));
    assert_eq!(matching_urls(&doc), vec!["http://IMGUR.com/x".to_string()]);
}

#[test]
fn link_without_url_gives_nothing() {
    let doc = document(Some(vec![Link { url: None }]));
    assert!(matching_urls(&doc).is_empty());
}

#[test]
fn missing_parts_give_nothing() {
    let doc = Wat {
        envelope: Envelope { payload_metadata: PayloadMetadata { http_response_metadata: None } },
    };
    assert!(matching_urls(&doc).is_empty());
    let doc = Wat {
        envelope: Envelope {
            payload_metadata: PayloadMetadata {
                http_response_metadata: Some(HttpResponseMetadata { html_metadata: None }),
            },
        },
    };
    assert!(matching_urls(&doc).is_empty());
    assert!(matching_urls(&document(None)).is_empty());
    assert!(matching_urls(&document(Some(Vec::new()))).is_empty());
}

#[test]
fn matching_urls_keep_their_order_and_their_number() {
    let doc = document(Some(vec![
        link("http://imgur.com/1"),
        link("http://example.com/"),
        Link { url: None },
        link("http://i.IMGUR.com/2"),
        link("http://imgur.com/1"),
        link("ftp://other/"),
        link("Imgur"),
    ]));
    assert_eq!(
        matching_urls(&doc),
        vec![
            "http://imgur.com/1".to_string(),
            "http://i.IMGUR.com/2".to_string(),
            "http://imgur.com/1".to_string(),
            "Imgur".to_string(),
        ]
    );
}

#[test]
fn prefilter_pattern_is_accepted() {
    assert!(Prefilter::new().is_some());
}

#[test]
fn one_prefilter_judges_many_bodies() {
    let prefilter = Prefilter::new().unwrap();
    for _ in 0..3 {
        assert_eq!(prefilter.triage(b"see http://imgur.com/"), Triage::Parse);
        assert_eq!(prefilter.triage(b"see http://example.com/"), Triage::Skip);
    }
}

#[test]
fn body_with_the_token_is_parsed() {
    let triage = |body: &[u8]| Prefilter::new().unwrap().triage(body);
    assert_eq!(triage(b"{\"url\":\"http://imgur.com/x\"}"), Triage::Parse);
    assert_eq!(triage(b"{\"url\":\"http://IMGUR.com/x\"}"), Triage::Parse);
    assert_eq!(triage(b"iMgUr"), Triage::Parse);
    assert_eq!(triage(&[0xff, 0xfe, b'I', b'm', b'G', b'u', b'R', 0x00]), Triage::Parse);
}

#[test]
fn body_without_the_token_is_skipped() {
    let triage = |body: &[u8]| Prefilter::new().unwrap().triage(body);
    assert_eq!(triage(b"{\"url\":\"http://example.com/x\"}"), Triage::Skip);
    assert_eq!(triage(b""), Triage::Skip);
    assert_eq!(triage(b"imgu"), Triage::Skip);
    assert_eq!(triage(b"img\nur"), Triage::Skip);
    assert_eq!(triage(b"(?i)imgu"), Triage::Skip);
}

#[test]
fn prefilter_agrees_with_the_byte_search() {
    let bodies: [&[u8]; 8] = [
        b"imgur",
        b"IMGUR",
        b"xxImGuRxx",
        b"imgu",
        b"",
        b"i m g u r",
        &[0xc4, 0xb0, b'm', b'g', b'u', b'r'],
        &[b'i', b'm', b'g', b'u', 0xe2, 0x84, 0x9b],
    ];
    let prefilter = Prefilter::new().unwrap();
    for body in bodies {
        let expected =
            if contains_ignore_ascii_case(body, b"imgur") { Triage::Parse } else { Triage::Skip };
        assert_eq!(prefilter.triage(body), expected);
    }
}

#[test]
fn outcome_of_the_search_decides() {
    assert_eq!(triage_of(true), Triage::Parse);
    assert_eq!(triage_of(false), Triage::Skip);
}
