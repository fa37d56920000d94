use rtsp_proxy::origin::{
    endpoint_from, extract_rtsp_url, origin_endpoint, origin_port, rtsp_query_value, OriginError,
};

#[test]
fn origin_port_defaults_to_8554() {
    assert_eq!(origin_port(None), 8554);
    assert_eq!(origin_port(Some(554)), 554);
}

#[test]
fn endpoint_with_explicit_port() {
    assert_eq!(origin_endpoint("rtsp://camera.local:554/live"), Ok(("camera.local".to_string(), 554)));
}

#[test]
fn endpoint_with_default_port() {
    assert_eq!(origin_endpoint("rtsp://o/s"), Ok(("o".to_string(), 8554)));
}

#[test]
fn endpoint_of_invalid_url() {
    assert_eq!(origin_endpoint("not a url"), Err(OriginError::InvalidUrl));
}

#[test]
fn endpoint_without_host() {
    assert_eq!(origin_endpoint("unix:/run/foo.socket"), Err(OriginError::MissingHost));
    assert_eq!(endpoint_from(None, Some(1)), Err(OriginError::MissingHost));
    assert_eq!(endpoint_from(Some("h".to_string()), None), Ok(("h".to_string(), 8554)));
}

#[test]
fn rtsp_parameter_is_decoded() {
    let u = "https://localhost/?session_id=7&rtsp=rtsp%3A%2F%2Fo%2Fs&rtsp=other";
    assert_eq!(extract_rtsp_url(u), Some("rtsp://o/s".to_string()));
}

#[test]
fn missing_rtsp_parameter() {
    assert_eq!(extract_rtsp_url("https://localhost/?type=data"), None);
    assert_eq!(extract_rtsp_url("not a url?rtsp=x"), None);
}

#[test]
fn first_rtsp_pair_wins() {
    let pairs = vec![
        ("type".to_string(), "control".to_string()),
        ("rtsp".to_string(), "a".to_string()),
        ("rtsp".to_string(), "b".to_string()),
    ];
    assert_eq!(rtsp_query_value(&pairs), Some("a".to_string()));
    assert_eq!(rtsp_query_value(&pairs[..1].to_vec()), None);
}
