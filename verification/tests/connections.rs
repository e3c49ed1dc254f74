use reverse_proxy::config::{parse_backends, parse_proxy_rules, BackendConfig, ProxyRuleConfig};
use reverse_proxy::connection::{RequestEvent, RequestStreamHandle, ResponseEvent, SendAction};
use reverse_proxy::document::{parse_json, Json};
use reverse_proxy::errors::{HttpProxyErr, TlsError};
use reverse_proxy::http::{Request, Response};
use reverse_proxy::message::{
    process_http_transittable, HttpMessage, HttpMessageHandle, StreamState, MAX_HEADER_SIZE,
};
use reverse_proxy::stream::{check_for_websocket_upgrade, process_http_messages, Received, Unchanged};
use reverse_proxy::tls::{new_backend_stream, setup_tls_backend_socket, BackendStream};
use reverse_proxy::transmittable::HttpTransmittable;

fn array(text: &str) -> Vec<Json> {
    match parse_json(text).unwrap() {
        Json::Array(array) => array,
        _ => panic!("Expected an array"),
    }
}

fn rules() -> Vec<ProxyRuleConfig> {
    let backends = array(
        r#"[{"name": "one", "host": "one.local", "hostname": "www.one", "port": 81},
            {"name": "two", "host": "two.local"}]"#,
    );
    let rules = array(
        r#"[{"type": "proxy_rule_host", "from": "a", "to": "one"},
            {"type": "proxy_rule_host", "from": "b", "to": "two"}]"#,
    );
    parse_proxy_rules(&rules, &parse_backends(&backends).unwrap()).ok().unwrap()
}

fn waiting(handle: &RequestStreamHandle) -> Vec<String> {
    (0..)
        .map_while(|i| handle.request_bytes(i))
        .map(|bytes| String::from_utf8(bytes.clone()).unwrap())
        .collect()
}

fn answers(handle: &RequestStreamHandle) -> Vec<String> {
    (0..)
        .map_while(|i| handle.response_bytes(i))
        .map(|bytes| String::from_utf8(bytes.clone()).unwrap())
        .collect()
}

#[test]
fn a_request_goes_to_the_backend_of_its_rule() {
    let rules = rules();
    let mut handle = RequestStreamHandle::new();
    assert!(handle.backend().is_none());
    assert!(!handle.is_connected());
    let request = b"POST / HTTP/1.1\r\nHost: a\r\nContent-Length: 2\r\n\r\nhi";
    assert!(handle.client_received(Received::Bytes(request), &rules));
    assert_eq!(
        waiting(&handle),
        vec!["POST / HTTP/1.1\r\nHost: www.one\r\nContent-Length: 2\r\n\r\nhi"]
    );
    let (read, size) = Request::parse_headers(handle.request_bytes(0).unwrap()).unwrap();
    assert_eq!(read.get_headers().get("Host"), Some("www.one"));
    assert_eq!(size, waiting(&handle)[0].len() - 2);
    assert_eq!(handle.backend().unwrap().connect_address(), "one.local:81");
    assert!(matches!(handle.send_out_requests(0, RequestEvent::Start), SendAction::Connect(0)));
    assert!(matches!(handle.send_out_requests(0, RequestEvent::Connected), SendAction::Write(0)));
    assert!(handle.is_connected());
    assert!(matches!(handle.send_out_requests(0, RequestEvent::Written(5)), SendAction::Finished));
    assert_eq!(waiting(&handle), vec!["/ HTTP/1.1\r\nHost: www.one\r\nContent-Length: 2\r\n\r\nhi"]);
    assert!(matches!(handle.send_out_requests(0, RequestEvent::Start), SendAction::Write(0)));
    assert!(matches!(handle.send_out_requests(0, RequestEvent::WouldBlock), SendAction::Finished));
    let left = handle.request_bytes(0).unwrap().len();
    assert!(matches!(handle.send_out_requests(0, RequestEvent::Written(left)), SendAction::Finished));
    assert!(waiting(&handle).is_empty());
}

#[test]
fn requests_without_a_body_may_follow_each_other_in_one_packet() {
    let rules = rules();
    let mut handle = RequestStreamHandle::new();
    let packet = b"GET /1 HTTP/1.1\r\nHost: a\r\n\r\nGET /2 HTTP/1.1\r\nHost: b\r\n\r\nGET /3";
    assert!(handle.client_received(Received::Bytes(packet), &rules));
    assert_eq!(
        waiting(&handle),
        vec![
            "GET /1 HTTP/1.1\r\nHost: www.one\r\n\r\n",
            "GET /2 HTTP/1.1\r\nHost: two.local\r\n\r\n"
        ]
    );
    assert_eq!(handle.backend().unwrap().name, "two");
    assert!(handle.client_received(Received::Bytes(b" HTTP/1.1\r\nHost: a\r\n\r\n"), &rules));
    assert_eq!(waiting(&handle).len(), 3);
    assert_eq!(waiting(&handle)[2], "GET /3 HTTP/1.1\r\nHost: www.one\r\n\r\n");
    assert_eq!(handle.backend().unwrap().name, "one");
    handle.send_out_requests(0, RequestEvent::Start);
    handle.send_out_requests(0, RequestEvent::Connected);
    let first = handle.request_bytes(0).unwrap().len();
    assert!(matches!(handle.send_out_requests(0, RequestEvent::Written(first)), SendAction::Write(0)));
    assert!(matches!(handle.send_out_requests(0, RequestEvent::Written(1)), SendAction::Write(1)));
    assert_eq!(waiting(&handle)[0], "ET /2 HTTP/1.1\r\nHost: two.local\r\n\r\n");
    assert_eq!(waiting(&handle)[1], "GET /3 HTTP/1.1\r\nHost: www.one\r\n\r\n");
    assert!(matches!(handle.send_out_requests(1, RequestEvent::WriteFailed), SendAction::GiveUp));
}

#[test]
fn a_body_may_come_in_parts() {
    let rules = rules();
    let mut handle = RequestStreamHandle::new();
    assert!(handle.client_received(
        Received::Bytes(b"POST / HTTP/1.1\r\nHost: b\r\nContent-Length: 5\r\n\r\nab"),
        &rules
    ));
    assert!(waiting(&handle).is_empty());
    assert!(handle.client_received(Received::WouldBlock, &rules));
    assert!(handle.client_received(Received::Bytes(b"c"), &rules));
    assert!(handle.client_received(Received::Bytes(b"deGET / HTTP/1.1\r\nHost: b\r\n\r\n"), &rules));
    assert_eq!(
        waiting(&handle),
        vec![
            "POST / HTTP/1.1\r\nHost: two.local\r\nContent-Length: 5\r\n\r\nabcde",
            "GET / HTTP/1.1\r\nHost: two.local\r\n\r\n"
        ]
    );
}

#[test]
fn a_body_that_comes_with_its_head_takes_the_rest_of_the_packet() {
    let rules = rules();
    let mut handle = RequestStreamHandle::new();
    let packet = b"POST / HTTP/1.1\r\nHost: b\r\nContent-Length: 1\r\n\r\nxGET / HTTP/1.1\r\nHost: b\r\n\r\n";
    assert!(handle.client_received(Received::Bytes(packet), &rules));
    assert_eq!(
        waiting(&handle),
        vec![
            "POST / HTTP/1.1\r\nHost: two.local\r\nContent-Length: 1\r\n\r\nxGET / HTTP/1.1\r\nHost: b\r\n\r\n",
            "GET / HTTP/1.1\r\nHost: two.local\r\n\r\n"
        ]
    );
}

#[test]
fn connections_that_are_given_up() {
    let rules = rules();
    let new = RequestStreamHandle::new;
    assert!(!new().client_received(Received::Bytes(b""), &rules));
    assert!(!new().client_received(Received::Failed, &rules));
    assert!(new().client_received(Received::WouldBlock, &rules));
    assert!(!new().client_received(Received::Bytes(b"GET / HTTP/1.1\r\nHost: c\r\n\r\n"), &rules));
    assert!(!new().backend_received(Received::Bytes(b"")));
    assert!(!new().backend_received(Received::Failed));
    assert!(new().backend_received(Received::WouldBlock));
    let mut handle = new();
    assert!(handle.client_received(Received::Bytes(b"GET / HTTP/1.1\r\nHost: a\r\n\r\n"), &rules));
    assert!(matches!(handle.send_out_requests(0, RequestEvent::Start), SendAction::Connect(0)));
    assert!(matches!(handle.send_out_requests(0, RequestEvent::ConnectFailed), SendAction::GiveUp));
}

#[test]
fn a_head_that_is_too_long_is_given_up() {
    let rules = rules();
    let mut handle = RequestStreamHandle::new();
    let part = vec![b'x'; MAX_HEADER_SIZE - 1];
    assert!(handle.client_received(Received::Bytes(&part), &rules));
    assert!(!handle.client_received(Received::Bytes(b"x"), &rules));
}

#[test]
fn responses_go_back_as_they_came() {
    let mut handle = RequestStreamHandle::new();
    let response = "HTTP/1.1 200 OK\r\nContent-Length: 4\r\n\r\nbody";
    assert!(handle.backend_received(Received::Bytes(response.as_bytes())));
    assert!(handle.backend_received(Received::Bytes(response.as_bytes())));
    assert_eq!(answers(&handle), vec![response, response]);
    assert!(matches!(handle.send_out_responses(0, ResponseEvent::Start), SendAction::Write(0)));
    assert!(matches!(handle.send_out_responses(0, ResponseEvent::WouldBlock), SendAction::Write(1)));
    assert!(matches!(handle.send_out_responses(1, ResponseEvent::Written(3)), SendAction::Finished));
    assert_eq!(answers(&handle), vec![response, &response[3..]]);
    assert!(matches!(handle.send_out_responses(0, ResponseEvent::WriteFailed), SendAction::Write(0)));
    assert_eq!(answers(&handle), vec![&response[3..]]);
    let left = response.len() - 3;
    assert!(matches!(handle.send_out_responses(0, ResponseEvent::Written(left)), SendAction::Finished));
    assert!(answers(&handle).is_empty());
    assert!(handle.response_bytes(0).is_none());
}

#[test]
fn a_web_socket_takes_both_sides() {
    let rules = rules();
    let mut handle = RequestStreamHandle::new();
    let ask = b"GET /chat HTTP/1.1\r\nHost: a\r\nUpgrade: websocket\r\n\r\n";
    let grant = "HTTP/1.1 101 Switching\r\nUpgrade: websocket\r\n\r\n";
    assert!(handle.client_received(Received::Bytes(ask), &rules));
    assert!(handle.backend_received(Received::Bytes(grant.as_bytes())));
    assert!(handle.client_received(Received::Bytes(b"\x81\x05hello"), &rules));
    assert!(handle.backend_received(Received::Bytes(b"any")));
    assert_eq!(
        waiting_bytes(&handle),
        vec![
            b"GET /chat HTTP/1.1\r\nHost: www.one\r\nUpgrade: websocket\r\n\r\n".to_vec(),
            b"\x81\x05hello".to_vec()
        ]
    );
    assert_eq!(answers(&handle), vec![grant, "any"]);
    assert_eq!(handle.backend().unwrap().name, "one");
}

fn waiting_bytes(handle: &RequestStreamHandle) -> Vec<Vec<u8>> {
    (0..).map_while(|i| handle.request_bytes(i)).cloned().collect()
}

#[test]
fn a_response_alone_makes_no_web_socket() {
    let mut handle = RequestStreamHandle::new();
    let grant = b"HTTP/1.1 101 Switching\r\nUpgrade: websocket\r\n\r\n";
    assert!(handle.backend_received(Received::Bytes(grant)));
    assert!(handle.backend_received(Received::Bytes(b"any")));
    assert_eq!(answers(&handle).len(), 1);
}

#[test]
fn upgrades_are_noticed() {
    let upgrade = |text: &str| {
        let (request, _) = Request::parse_headers(text.as_bytes()).unwrap();
        check_for_websocket_upgrade(&request)
    };
    assert!(upgrade("GET / HTTP/1.1\r\nHost: a\r\nUpgrade: websocket\r\n\r\n"));
    assert!(!upgrade("GET / HTTP/1.1\r\nHost: a\r\nUpgrade: h2c\r\n\r\n"));
    assert!(!upgrade("GET / HTTP/1.1\r\nHost: a\r\n\r\n"));
}

#[test]
fn a_message_says_how_much_it_takes() {
    let mut handle: HttpMessageHandle<Response> = HttpMessageHandle::default();
    let http = StreamState::Http;
    let take = |handle: &mut HttpMessageHandle<Response>, bytes: &[u8]| {
        process_http_transittable(bytes, handle, &http)
    };
    assert!(matches!(take(&mut handle, b"HTTP/1.1 200 OK\r\nA: 1\r\n"), Ok((23, false))));
    assert!(matches!(handle.message, HttpMessage::Unparsed(ref bytes) if bytes.len() == 23));
    assert!(matches!(take(&mut handle, b"Content-Length: 3\r\n\r\na"), Ok((22, false))));
    assert!(matches!(handle.message, HttpMessage::HeaderParsed(_)));
    assert!(matches!(take(&mut handle, b"bcd"), Ok((2, true))));
    let mut full: HttpMessageHandle<Response> = HttpMessageHandle::default();
    assert!(matches!(
        take(&mut full, &vec![0; MAX_HEADER_SIZE]),
        Err(HttpProxyErr::CorruptedClientConnection)
    ));
    let mut socket: HttpMessageHandle<Response> = HttpMessageHandle::default();
    assert!(matches!(
        process_http_transittable(b"abc", &mut socket, &StreamState::WebSocket),
        Ok((3, true))
    ));
    assert!(matches!(socket.message, HttpMessage::Sending(ref bytes) if bytes == b"abc"));
}

#[test]
fn a_head_may_come_in_packets() {
    let whole = "HTTP/1.1 200 OK\r\nA: 1\r\nContent-Length: 1\r\n\r\nx";
    let mut together: Vec<HttpMessageHandle<Response>> = Vec::new();
    let mut apart: Vec<HttpMessageHandle<Response>> = Vec::new();
    let rewriter = Unchanged {};
    let read = |list: &mut Vec<HttpMessageHandle<Response>>, bytes: &[u8]| {
        process_http_messages(list, Received::Bytes(bytes), &StreamState::Http, &rewriter)
    };
    assert_eq!(read(&mut together, whole.as_bytes()), (true, false, Some(())));
    assert_eq!(read(&mut apart, &whole.as_bytes()[..17]), (true, false, None));
    assert_eq!(read(&mut apart, &whole.as_bytes()[17..23]), (true, false, None));
    assert_eq!(read(&mut apart, &whole.as_bytes()[23..]), (true, false, Some(())));
    assert_eq!(together.len(), 2);
    assert_eq!(apart.len(), 2);
    match (&together[0].message, &apart[0].message) {
        (HttpMessage::Sending(a), HttpMessage::Sending(b)) => {
            assert_eq!(a, whole.as_bytes());
            assert_eq!(a, b);
        }
        _ => panic!("Expected messages to be sent"),
    }
}

#[test]
fn only_server_names_get_encrypted_connections() {
    assert!(setup_tls_backend_socket("www.google.com").is_ok());
    assert!(setup_tls_backend_socket("127.0.0.1").is_ok());
    assert_eq!(
        setup_tls_backend_socket("localhost:8000").err(),
        Some(HttpProxyErr::TlsError(TlsError::UnnableToGetBackendServerName))
    );
    assert_eq!(
        setup_tls_backend_socket("").err(),
        Some(HttpProxyErr::TlsError(TlsError::UnnableToGetBackendServerName))
    );
}

fn backend(host: &str, https: bool) -> BackendConfig {
    BackendConfig {
        name: "b".to_string(),
        host: host.to_string(),
        hostname: Some("other.name".to_string()),
        port: None,
        https,
    }
}

#[test]
fn a_backend_stream_is_encrypted_where_the_backend_asks_for_it() {
    assert!(matches!(
        new_backend_stream(None::<u8>, &backend("www.google.com", true)),
        Err(HttpProxyErr::UnnableToConnect)
    ));
    assert!(matches!(
        new_backend_stream(Some(7), &backend("no name", false)),
        Ok(BackendStream::Raw(7))
    ));
    assert!(matches!(
        new_backend_stream(Some(7), &backend("www.google.com", true)),
        Ok(BackendStream::Tls(_, 7))
    ));
    assert!(matches!(
        new_backend_stream(Some(7), &backend("no name", true)),
        Err(HttpProxyErr::TlsError(TlsError::UnnableToGetBackendServerName))
    ));
}

#[test]
fn the_last_complete_message_decides_on_the_web_socket() {
    let rules = rules();
    let grant = b"HTTP/1.1 101 Switching\r\nUpgrade: websocket\r\n\r\n";
    let upgraded = |packet: &[u8]| {
        let mut handle = RequestStreamHandle::new();
        assert!(handle.client_received(Received::Bytes(packet), &rules));
        assert!(handle.backend_received(Received::Bytes(grant)));
        assert!(handle.backend_received(Received::Bytes(b"any")));
        answers(&handle).len() == 2
    };
    let ask = "GET / HTTP/1.1\r\nHost: a\r\nUpgrade: websocket\r\n\r\n";
    let plain = "GET / HTTP/1.1\r\nHost: a\r\n\r\n";
    assert!(upgraded(ask.as_bytes()));
    assert!(upgraded(format!("{plain}{ask}").as_bytes()));
    assert!(upgraded(format!("{ask}GET /").as_bytes()));
    assert!(!upgraded(format!("{ask}{plain}").as_bytes()));
    assert!(!upgraded(plain.as_bytes()));
}
