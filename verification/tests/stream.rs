use warc_links::error::FramingError;
use warc_links::reader::{Step, StreamReader};
use warc_links::scan::scan_records;

fn written(record_type: &str, body: &[u8]) -> Vec<u8> {
    let mut bytes = Vec::new();
    bytes.extend_from_slice(b"WARC/1.0\r\n");
    bytes.extend_from_slice(format!("WARC-Type: {}\r\n", record_type).as_bytes());
    bytes.extend_from_slice(b"WARC-Record-ID: <urn:uuid:0>\r\n");
    bytes.extend_from_slice(format!("Content-Length: {}\r\n", body.len()).as_bytes());
    bytes.extend_from_slice(b"\r\n");
    bytes.extend_from_slice(body);
    bytes.extend_from_slice(b"\r\n\r\n");
    bytes
}

fn read_in_pieces(stream: &[u8], piece: usize) -> (Vec<Vec<u8>>, Option<FramingError>) {
    let mut reader = StreamReader::new();
    let mut fed = 0;
    let mut forwarded = Vec::new();
    loop {
        match reader.step() {
            Step::Forward(body) => forwarded.push(body),
            Step::Dropped => {}
            Step::NeedInput => {
                let end = std::cmp::min(stream.len(), fed + piece);
                reader.feed(&stream[fed..end]);
                fed = end;
            }
            Step::Finished => return (forwarded, None),
            Step::Failed(e) => return (forwarded, Some(e)),
        }
    }
}

#[test]
fn empty_stream_gives_nothing() {
    let report = scan_records(b"");
    assert!(report.forwarded.is_empty());
    assert_eq!(report.error, None);
}

#[test]
fn metadata_bodies_are_forwarded_in_stream_order() {
    let mut stream = Vec::new();
    stream.extend(written("metadata", b"first"));
    stream.extend(written("metadata", b"second\r\nwith lines\n"));
    stream.extend(written("metadata", b""));
    let report = scan_records(&stream);
    assert_eq!(
        report.forwarded,
        vec![b"first".to_vec(), b"second\r\nwith lines\n".to_vec(), b"".to_vec()]
    );
    assert_eq!(report.error, None);
}

#[test]
fn other_types_are_never_forwarded() {
    let mut stream = Vec::new();
    stream.extend(written("warcinfo", b"imgur"));
    stream.extend(written("request", b"GET http://imgur.com/ HTTP/1.1"));
    stream.extend(written("response", b"{\"url\":\"http://imgur.com\"}"));
    stream.extend(written("Metadata", b"imgur"));
    stream.extend(written("metadata2", b"imgur"));
    stream.extend(written("", b"imgur"));
    let report = scan_records(&stream);
    assert!(report.forwarded.is_empty());
    assert_eq!(report.error, None);
}

#[test]
fn mixed_stream_keeps_exactly_the_metadata_bodies() {
    let mut stream = Vec::new();
    let mut expected = Vec::new();
    for i in 0..50 {
        let body = format!("body number {} \r\n\r\nWARC-Type: metadata\r\n", i).into_bytes();
        if i % 3 == 0 {
            stream.extend(written("metadata", &body));
            expected.push(body);
        } else if i % 3 == 1 {
            stream.extend(written("response", &body));
        } else {
            stream.extend(written("request", &body));
        }
    }
    let report = scan_records(&stream);
    assert_eq!(report.forwarded, expected);
    assert_eq!(report.error, None);
}

#[test]
fn body_may_look_like_headers() {
    let body = b"WARC-Type: metadata\r\nContent-Length: 999\r\n\r\n";
    let mut stream = written("response", body);
    stream.extend(written("metadata", b"kept"));
    let report = scan_records(&stream);
    assert_eq!(report.forwarded, vec![b"kept".to_vec()]);
    assert_eq!(report.error, None);
}

#[test]
fn error_ends_the_reading_and_keeps_what_came_before() {
    let mut stream = written("metadata", b"kept");
    stream.extend_from_slice(b"WARC/1.0\r\nWARC-Type: metadata\r\nContent-Length: 50\r\n\r\nshort");
    let report = scan_records(&stream);
    assert_eq!(report.forwarded, vec![b"kept".to_vec()]);
    assert_eq!(report.error, Some(FramingError::TruncatedBody));
}

#[test]
fn each_framing_error_is_reported() {
    let report = scan_records(b"WARC/1.0\r\n\r\n");
    assert_eq!(report.error, Some(FramingError::MissingHeader));
    let report = scan_records(b"WARC-Type: metadata\nContent-Length: 1\r\n\r\nx\r\n\r\n");
    assert_eq!(report.error, Some(FramingError::MalformedHeader));
    let report = scan_records(b"WARC-Type: metadata\r\nContent-Length: x\r\n\r\nx\r\n\r\n");
    assert_eq!(report.error, Some(FramingError::InvalidContentLength));
    let report = scan_records(b"WARC-Type: metadata\r\nContent-Length: 2\r\n\r\nx");
    assert_eq!(report.error, Some(FramingError::TruncatedBody));
}

#[test]
fn a_line_behind_the_last_record_is_a_framing_error() {
    let mut stream = written("metadata", b"kept");
    stream.extend_from_slice(b"\r\n");
    let report = scan_records(&stream);
    assert_eq!(report.forwarded, vec![b"kept".to_vec()]);
    assert_eq!(report.error, Some(FramingError::MissingHeader));
}

#[test]
fn last_record_may_lack_its_separators() {
    let stream = b"WARC-Type: metadata\r\nContent-Length: 4\r\n\r\nkept";
    let report = scan_records(stream);
    assert_eq!(report.forwarded, vec![b"kept".to_vec()]);
    assert_eq!(report.error, None);
}

#[test]
fn reading_in_pieces_gives_what_reading_at_once_gives() {
    let mut stream = Vec::new();
    stream.extend(written("warcinfo", b"software: x\r\n"));
    stream.extend(written("metadata", b"{\"a\":1}"));
    stream.extend(written("response", b"HTTP/1.1 200 OK\r\n\r\n<html>"));
    stream.extend(written("metadata", b"\n\n\n"));
    stream.extend(written("metadata", b""));
    let whole = scan_records(&stream);
    assert_eq!(whole.forwarded.len(), 3);
    for piece in [1, 2, 3, 5, 7, 16, 64, 1000] {
        let (forwarded, error) = read_in_pieces(&stream, piece);
        assert_eq!(forwarded, whole.forwarded);
        assert_eq!(error, whole.error);
    }
}

#[test]
fn reading_in_pieces_gives_the_same_error() {
    let mut good = written("metadata", b"kept");
    good.extend(written("response", b"dropped"));
    let tails: [&[u8]; 4] = [
        b"\r\n",
        b"WARC-Type: metadata\nContent-Length: 1\r\n\r\nx\r\n\r\n",
        b"WARC-Type: metadata\r\nContent-Length: +\r\n\r\nx\r\n\r\n",
        b"WARC-Type: metadata\r\nContent-Length: 9\r\n\r\nx\r\n\r\n",
    ];
    for tail in tails {
        let mut stream = good.clone();
        stream.extend_from_slice(tail);
        let whole = scan_records(&stream);
        assert!(whole.error.is_some());
        for piece in [1, 4, 33] {
            let (forwarded, error) = read_in_pieces(&stream, piece);
            assert_eq!(forwarded, whole.forwarded);
            assert_eq!(error, whole.error);
        }
    }
}

#[test]
fn new_reader_waits_for_input() {
    let mut reader = StreamReader::new();
    assert!(reader.pending().is_empty());
    assert!(matches!(reader.step(), Step::NeedInput));
    assert!(matches!(reader.step(), Step::NeedInput));
}

#[test]
fn empty_piece_ends_the_stream() {
    let mut reader = StreamReader::new();
    reader.feed(b"");
    assert!(matches!(reader.step(), Step::Finished));
    assert!(matches!(reader.step(), Step::Finished));
}

#[test]
fn reader_gives_each_record_once() {
    let mut reader = StreamReader::new();
    let mut stream = written("metadata", b"one");
    stream.extend(written("response", b"two"));
    stream.extend(written("metadata", b"three"));
    reader.feed(&stream);
    assert_eq!(reader.pending(), &stream[..]);
    match reader.step() {
        Step::Forward(body) => assert_eq!(body, b"one"),
        other => panic!("{:?}", other),
    }
    assert_eq!(reader.pending(), &stream[written("metadata", b"one").len()..]);
    assert!(matches!(reader.step(), Step::Dropped));
    match reader.step() {
        Step::Forward(body) => assert_eq!(body, b"three"),
        other => panic!("{:?}", other),
    }
    assert!(reader.pending().is_empty());
    assert!(matches!(reader.step(), Step::NeedInput));
    reader.feed(b"");
    assert!(matches!(reader.step(), Step::Finished));
}

#[test]
fn reader_waits_for_the_rest_of_a_record() {
    let stream = written("metadata", b"body");
    let mut reader = StreamReader::new();
    reader.feed(&stream[..20]);
    assert!(matches!(reader.step(), Step::NeedInput));
    assert_eq!(reader.pending(), &stream[..20]);
    reader.feed(&stream[20..stream.len() - 1]);
    assert!(matches!(reader.step(), Step::NeedInput));
    reader.feed(&stream[stream.len() - 1..]);
    match reader.step() {
        Step::Forward(body) => assert_eq!(body, b"body"),
        other => panic!("{:?}", other),
    }
}

#[test]
fn reader_fails_where_the_stream_is_broken_and_stays_there() {
    let mut reader = StreamReader::new();
    reader.feed(b"WARC-Type: metadata\r\nContent-Length: 9\r\n\r\nshort");
    assert!(matches!(reader.step(), Step::NeedInput));
    reader.feed(b"");
    assert!(matches!(reader.step(), Step::Failed(FramingError::TruncatedBody)));
    assert!(matches!(reader.step(), Step::Failed(FramingError::TruncatedBody)));
    assert_eq!(reader.pending().len(), 47);
}
