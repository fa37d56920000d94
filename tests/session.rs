use rtsp_proxy::relay::{frame_datagram, relay_step, RelayStep};
use rtsp_proxy::rtsp::{find_header, RtspRequest, RtspResponse};
use rtsp_proxy::session::{is_setup, PendingSetup, RTSPProxy, Session, SessionError};

fn value_of(hs: &Vec<rtsp_proxy::rtsp::Header>, name: &str) -> Option<String> {
    find_header(hs, name.as_bytes()).map(|i| String::from_utf8(hs[i].value.clone()).unwrap())
}

fn request(text: &str) -> RtspRequest {
    RtspRequest::parse(text.as_bytes()).unwrap().unwrap().0
}

fn response(text: &str) -> RtspResponse {
    RtspResponse::parse(text.as_bytes()).unwrap().unwrap().0
}

const SETUP: &str = "SETUP rtsp://o/s/track1 RTSP/1.0\r\nCSeq: 2\r\nTransport: RTP/AVP;unicast;client_port=9000-9001\r\n\r\n";
const SETUP_REPLY: &str = "RTSP/1.0 200 OK\r\nCSeq: 2\r\nSession: 12345678;timeout=60\r\nTransport: RTP/AVP;unicast;client_port=50000-50001;server_port=7000-7001\r\n\r\n";

#[test]
fn describe_only_session() {
    let proxy = RTSPProxy::new("rtsp://o/s".to_string());
    let mut session = Session::new();
    let req = request("DESCRIBE rtsp://o/s RTSP/1.0\r\nCSeq: 1\r\n\r\n");
    assert!(!is_setup(&req));
    let text = "RTSP/1.0 200 OK\r\nCSeq: 1\r\nContent-Length: 0\r\n\r\n";
    let mut resp = response(text);
    assert_eq!(session.on_response(&mut resp), Ok(None));
    assert_eq!(resp.to_bytes(), text.as_bytes().to_vec());
    assert_eq!(session.pending_len(), 0);
    assert_eq!(proxy.teardown_request(&session), None);
}

#[test]
fn single_setup_and_play() {
    let mut session = Session::new();
    let mut req = request(SETUP);
    assert!(is_setup(&req));
    let p = session.intercept_setup(&mut req, 50000, 50001).unwrap();
    assert_eq!(p, PendingSetup { rtp_channel_id: 0, rtcp_channel_id: 1 });
    assert_eq!(value_of(&req.headers, "Transport").unwrap(), "RTP/AVP;unicast;client_port=50000-50001");
    assert_eq!(session.pending_len(), 1);

    let mut resp = response(SETUP_REPLY);
    let got = session.on_response(&mut resp).unwrap();
    assert_eq!(got, Some(PendingSetup { rtp_channel_id: 0, rtcp_channel_id: 1 }));
    assert_eq!(
        value_of(&resp.headers, "Transport").unwrap(),
        "RTP/AVP;unicast;client_port=50000-50001;server_port=7000-7001;x-wt-channel-id=0-1"
    );
    assert_eq!(session.session_id(), Some(b"12345678".to_vec()));
    assert_eq!(session.pending_len(), 0);

    let play = request("PLAY rtsp://o/s RTSP/1.0\r\nCSeq: 3\r\nSession: 12345678\r\n\r\n");
    assert!(!is_setup(&play));
}

#[test]
fn setup_without_transport_gets_one() {
    let mut session = Session::new();
    let mut req = request("SETUP rtsp://o/s RTSP/1.0\r\nCSeq: 2\r\n\r\n");
    session.intercept_setup(&mut req, 40000, 40001).unwrap();
    assert_eq!(value_of(&req.headers, "transport").unwrap(), "RTP/AVP;unicast;client_port=40000-40001");
}

#[test]
fn two_setups_pair_in_order() {
    let mut session = Session::new();
    let mut a = request(SETUP);
    let mut b = request(SETUP);
    let pa = session.intercept_setup(&mut a, 1000, 1001).unwrap();
    let pb = session.intercept_setup(&mut b, 1002, 1003).unwrap();
    assert_eq!((pa.rtp_channel_id, pa.rtcp_channel_id), (0, 1));
    assert_eq!((pb.rtp_channel_id, pb.rtcp_channel_id), (2, 3));

    let mut ra = response(SETUP_REPLY);
    let mut rb = response(SETUP_REPLY);
    assert_eq!(session.on_response(&mut ra).unwrap(), Some(pa));
    assert_eq!(session.on_response(&mut rb).unwrap(), Some(pb));
    assert!(value_of(&ra.headers, "Transport").unwrap().ends_with(";x-wt-channel-id=0-1"));
    assert!(value_of(&rb.headers, "Transport").unwrap().ends_with(";x-wt-channel-id=2-3"));
}

#[test]
fn channel_ids_run_out_after_128_setups() {
    let mut session = Session::new();
    for k in 0..128u32 {
        let mut req = request(SETUP);
        let p = session.intercept_setup(&mut req, 1, 2).unwrap();
        assert_eq!(p.rtp_channel_id as u32, 2 * k);
        assert_eq!(p.rtcp_channel_id as u32, 2 * k + 1);
    }
    let mut req = request(SETUP);
    let before = req.to_bytes();
    assert_eq!(session.intercept_setup(&mut req, 1, 2), Err(SessionError::ChannelsExhausted));
    assert_eq!(req.to_bytes(), before);
    assert_eq!(session.pending_len(), 128);
}

#[test]
fn answer_without_setup_is_fatal() {
    let mut session = Session::new();
    let mut resp = response(SETUP_REPLY);
    assert_eq!(session.on_response(&mut resp), Err(SessionError::UnexpectedSetupResponse));
}

#[test]
fn error_status_leaves_pending_setup() {
    let mut session = Session::new();
    let mut req = request(SETUP);
    session.intercept_setup(&mut req, 1, 2).unwrap();
    let mut resp = response("RTSP/1.0 461 Unsupported Transport\r\nCSeq: 2\r\nTransport: RTP/AVP\r\n\r\n");
    assert_eq!(session.on_response(&mut resp), Ok(None));
    assert_eq!(session.pending_len(), 1);
    assert_eq!(value_of(&resp.headers, "Transport").unwrap(), "RTP/AVP");
}

#[test]
fn first_session_id_is_kept() {
    let mut session = Session::new();
    let mut a = response("RTSP/1.0 200 OK\r\nSession: first;timeout=60\r\n\r\n");
    let mut b = response("RTSP/1.0 200 OK\r\nSession: first\r\n\r\n");
    assert_eq!(session.on_response(&mut a), Ok(None));
    assert_eq!(session.on_response(&mut b), Ok(None));
    assert_eq!(session.session_id(), Some(b"first".to_vec()));
}

#[test]
fn differing_session_id_is_fatal() {
    let mut session = Session::new();
    let mut a = response("RTSP/1.0 200 OK\r\nSession: first;timeout=60\r\n\r\n");
    let mut b = response("RTSP/1.0 200 OK\r\nSession: second\r\n\r\n");
    session.on_response(&mut a).unwrap();
    assert_eq!(session.on_response(&mut b), Err(SessionError::SessionMismatch));
    assert_eq!(session.session_id(), Some(b"first".to_vec()));
}

#[test]
fn empty_session_id_is_kept_without_teardown() {
    let proxy = RTSPProxy::new("rtsp://o/s".to_string());
    let mut session = Session::new();
    let mut a = response("RTSP/1.0 200 OK\r\nSession: ;timeout=60\r\n\r\n");
    session.on_response(&mut a).unwrap();
    assert_eq!(session.session_id(), Some(Vec::new()));
    let mut b = response("RTSP/1.0 200 OK\r\nSession: 5\r\n\r\n");
    assert_eq!(session.on_response(&mut b), Err(SessionError::SessionMismatch));
    assert_eq!(proxy.teardown_request(&session), None);
}

#[test]
fn teardown_on_browser_close() {
    let proxy = RTSPProxy::new("rtsp://o/s".to_string());
    let mut session = Session::new();
    let mut req = request(SETUP);
    session.intercept_setup(&mut req, 50000, 50001).unwrap();
    let mut resp = response(SETUP_REPLY);
    session.on_response(&mut resp).unwrap();
    let teardown = proxy.teardown_request(&session).unwrap();
    assert_eq!(
        teardown,
        b"TEARDOWN rtsp://o/s RTSP/1.0\r\nCSeq: 99\r\nSession: 12345678\r\n\r\n".to_vec()
    );
}

#[test]
fn teardown_when_origin_closes() {
    let proxy = RTSPProxy::new("rtsp://o/s".to_string());
    let mut session = Session::new();
    let mut resp = response(SETUP_REPLY.replace("Transport", "X-Other").as_str());
    session.on_response(&mut resp).unwrap();
    let teardown = proxy.teardown_request(&session).unwrap();
    assert!(teardown.starts_with(b"TEARDOWN rtsp://o/s RTSP/1.0\r\n"));
    assert!(teardown.ends_with(b"Session: 12345678\r\n\r\n"));
    assert_eq!(proxy.rtsp_url(), "rtsp://o/s");
}

#[test]
fn udp_packet_becomes_datagram() {
    let d = frame_datagram(0, &[0xAA, 0xBB, 0xCC, 0xDD]);
    assert_eq!(d, vec![0x00, 0xAA, 0xBB, 0xCC, 0xDD]);
    let e = frame_datagram(3, &[]);
    assert_eq!(e, vec![3]);
}

#[test]
fn relay_stops_once_cancelled() {
    let payload = [1u8, 2, 3];
    assert!(matches!(relay_step(true, 1, Some(&payload)), RelayStep::Finish));
    assert!(matches!(relay_step(true, 1, None), RelayStep::Finish));
    assert!(matches!(relay_step(false, 1, None), RelayStep::Fail));
    match relay_step(false, 5, Some(&payload)) {
        RelayStep::Send(d) => assert_eq!(d, vec![5, 1, 2, 3]),
        _ => panic!("expected a datagram"),
    }
}
