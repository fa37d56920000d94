use rtsp_proxy::rtsp::{find_header, set_header, Header, ParseError, RtspRequest, RtspResponse};

fn header_value(hs: &Vec<Header>, name: &str) -> Option<Vec<u8>> {
    find_header(hs, name.as_bytes()).map(|i| hs[i].value.clone())
}

#[test]
fn parses_describe_request() {
    let msg = b"DESCRIBE rtsp://o/s RTSP/1.0\r\nCSeq: 1\r\n\r\n";
    let (req, n) = RtspRequest::parse(msg).unwrap().unwrap();
    assert_eq!(n, msg.len());
    assert_eq!(req.method, b"DESCRIBE".to_vec());
    assert_eq!(req.path, b"rtsp://o/s".to_vec());
    assert_eq!(req.version, b"RTSP/1.0".to_vec());
    assert_eq!(req.headers.len(), 1);
    assert_eq!(header_value(&req.headers, "cseq"), Some(b"1".to_vec()));
    assert!(req.body.is_empty());
}

#[test]
fn request_serializes_verbatim() {
    let msg = b"DESCRIBE rtsp://o/s RTSP/1.0\r\nCSeq: 1\r\n\r\n";
    let (req, _) = RtspRequest::parse(msg).unwrap().unwrap();
    assert_eq!(req.to_bytes(), msg.to_vec());
}

#[test]
fn response_serializes_verbatim() {
    let msg = b"RTSP/1.0 200 OK\r\nCSeq: 1\r\nContent-Length: 0\r\n\r\n";
    let (resp, n) = RtspResponse::parse(msg).unwrap().unwrap();
    assert_eq!(n, msg.len());
    assert_eq!(resp.to_bytes(), msg.to_vec());
}

#[test]
fn round_trip_keeps_every_field() {
    let msg = b"RTSP/1.0 454  Session   Not Found\r\nCSeq:   7 \r\nx-A: b:c\r\nContent-Length: 3\r\n\r\nabc";
    let (first, n) = RtspResponse::parse(msg).unwrap().unwrap();
    assert_eq!(n, msg.len());
    assert_eq!(first.reason, b"Session Not Found".to_vec());
    assert_eq!(header_value(&first.headers, "CSeq"), Some(b"7".to_vec()));
    assert_eq!(header_value(&first.headers, "x-a"), Some(b"b:c".to_vec()));
    let bytes = first.to_bytes();
    let (second, m) = RtspResponse::parse(&bytes).unwrap().unwrap();
    assert_eq!(m, bytes.len());
    assert_eq!(second.version, first.version);
    assert_eq!(second.status_code, 454);
    assert_eq!(second.reason, first.reason);
    assert_eq!(second.body, b"abc".to_vec());
    assert_eq!(second.headers.len(), first.headers.len());
    for (a, b) in first.headers.iter().zip(second.headers.iter()) {
        assert_eq!(a.name, b.name);
        assert_eq!(a.value, b.value);
    }
}

#[test]
fn every_strict_prefix_is_incomplete() {
    let msg = b"ANNOUNCE rtsp://o/s RTSP/1.0\r\nCSeq: 2\r\nContent-Length: 5\r\n\r\nhello";
    for k in 0..msg.len() {
        assert!(RtspRequest::parse(&msg[..k]).unwrap().is_none(), "prefix {}", k);
    }
    let (req, n) = RtspRequest::parse(msg).unwrap().unwrap();
    assert_eq!(n, msg.len());
    assert_eq!(req.body, b"hello".to_vec());
}

#[test]
fn pipelined_messages_are_read_one_by_one() {
    let one = b"OPTIONS * RTSP/1.0\r\nCSeq: 1\r\n\r\n".to_vec();
    let two = b"SETUP rtsp://o/s/track1 RTSP/1.0\r\nCSeq: 2\r\nContent-Length: 2\r\n\r\nxy".to_vec();
    let three = b"PLAY rtsp://o/s RTSP/1.0\r\nCSeq: 3\r\n\r\n".to_vec();
    let mut buf = Vec::new();
    buf.extend_from_slice(&one);
    buf.extend_from_slice(&two);
    buf.extend_from_slice(&three);
    let total = buf.len();
    let mut consumed = 0;
    let mut methods = Vec::new();
    while let Some((req, n)) = RtspRequest::parse(&buf).unwrap() {
        methods.push(req.method.clone());
        buf.drain(..n);
        consumed += n;
    }
    assert_eq!(methods, vec![b"OPTIONS".to_vec(), b"SETUP".to_vec(), b"PLAY".to_vec()]);
    assert_eq!(consumed, total);
    assert!(buf.is_empty());
}

#[test]
fn bare_line_feeds_are_accepted() {
    let msg = b"PLAY rtsp://o/s RTSP/1.0\nCSeq: 4\nSession: 12\r\n\r\n";
    let (req, n) = RtspRequest::parse(msg).unwrap().unwrap();
    assert_eq!(n, msg.len());
    assert_eq!(header_value(&req.headers, "CSeq"), Some(b"4".to_vec()));
    assert_eq!(header_value(&req.headers, "session"), Some(b"12".to_vec()));
}

#[test]
fn first_of_duplicate_headers_wins() {
    let msg = b"PLAY rtsp://o/s RTSP/1.0\r\nCSeq: 4\r\ncseq: 5\r\nno colon here\r\n\r\n";
    let (req, _) = RtspRequest::parse(msg).unwrap().unwrap();
    assert_eq!(req.headers.len(), 1);
    assert_eq!(header_value(&req.headers, "CSEQ"), Some(b"4".to_vec()));
}

#[test]
fn body_waits_for_content_length() {
    let msg = b"RTSP/1.0 200 OK\r\ncontent-length: 4\r\n\r\nab";
    assert!(RtspResponse::parse(msg).unwrap().is_none());
    let full = b"RTSP/1.0 200 OK\r\ncontent-length: 4\r\n\r\nabcdEXTRA";
    let (resp, n) = RtspResponse::parse(full).unwrap().unwrap();
    assert_eq!(n, full.len() - 5);
    assert_eq!(resp.body, b"abcd".to_vec());
}

#[test]
fn unreadable_content_length_means_empty_body() {
    let msg = b"RTSP/1.0 200 OK\r\nContent-Length: ten\r\n\r\nrest";
    let (resp, n) = RtspResponse::parse(msg).unwrap().unwrap();
    assert_eq!(n, msg.len() - 4);
    assert!(resp.body.is_empty());
}

#[test]
fn empty_start_line_is_an_error() {
    assert_eq!(RtspRequest::parse(b"\r\n\r\n").unwrap_err(), ParseError::EmptyStartLine);
    assert_eq!(RtspResponse::parse(b"\r\n\r\n").unwrap_err(), ParseError::EmptyStartLine);
}

#[test]
fn short_start_line_is_an_error() {
    assert_eq!(
        RtspRequest::parse(b"DESCRIBE rtsp://o/s\r\nCSeq: 1\r\n\r\n").unwrap_err(),
        ParseError::InvalidStartLine
    );
    assert_eq!(
        RtspResponse::parse(b"RTSP/1.0 200\r\n\r\n").unwrap_err(),
        ParseError::InvalidStartLine
    );
}

#[test]
fn non_numeric_status_is_an_error() {
    assert_eq!(
        RtspResponse::parse(b"RTSP/1.0 abc OK\r\n\r\n").unwrap_err(),
        ParseError::InvalidStatusCode
    );
    assert_eq!(
        RtspResponse::parse(b"RTSP/1.0 70000 OK\r\nContent-Length: 9\r\n\r\n").unwrap_err(),
        ParseError::InvalidStatusCode
    );
}

#[test]
fn no_blank_line_is_incomplete() {
    assert!(RtspRequest::parse(b"").unwrap().is_none());
    assert!(RtspRequest::parse(b"DESCRIBE rtsp://o/s RTSP/1.0\r\nCSeq: 1\r\n").unwrap().is_none());
}

#[test]
fn set_header_replaces_or_adds() {
    let mut hs = vec![Header { name: b"transport".to_vec(), value: b"old".to_vec() }];
    set_header(&mut hs, b"Transport", b"new".to_vec());
    assert_eq!(hs.len(), 1);
    assert_eq!(hs[0].name, b"transport".to_vec());
    assert_eq!(hs[0].value, b"new".to_vec());
    set_header(&mut hs, b"Session", b"1".to_vec());
    assert_eq!(hs.len(), 2);
    assert_eq!(header_value(&hs, "session"), Some(b"1".to_vec()));
}
