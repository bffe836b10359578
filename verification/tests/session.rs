use dice::{
    classify, encode_frame, CallError, Client, Command, CommandModip, CommandModipExt,
    Information, Ipv4Address, ResponseError, TransportError,
};

fn client_with(replies: &str) -> Client {
    let mut client = Client::new();
    client.feed(replies);
    client
}

fn example_info() -> Information {
    Information::new("alice", "secret", "www", "example.com", "203.0.113.5").unwrap()
}

#[test]
fn framing_round_trip() {
    let mut sender = Client::new();
    assert_eq!(sender.send(&["A", "B"]), Ok(()));
    let wire = sender.take_outgoing();
    assert_eq!(wire, "A\nB\n.\n");

    let mut receiver = Client::new();
    receiver.feed(&wire);
    let mut buf = String::new();
    assert_eq!(receiver.recv(&mut buf), Ok(()));
    assert_eq!(buf, "A\nB\n.\n");
    assert!(buf.ends_with("\n.\n"));
    assert_eq!(receiver.pending(), "");
}

#[test]
fn encode_frame_writes_one_token_per_line() {
    assert_eq!(encode_frame(&[]), ".\n");
    assert_eq!(encode_frame(&["LOGOUT"]), "LOGOUT\n.\n");
    assert_eq!(
        encode_frame(&["LOGIN", "USERID:alice", "PASSWORD:secret"]),
        "LOGIN\nUSERID:alice\nPASSWORD:secret\n.\n"
    );
    assert_eq!(encode_frame(&["", "x"]), "\nx\n.\n");
}

#[test]
fn call_returns_success_for_code_zero() {
    let mut client = client_with("0 OK\n.\n");
    assert_eq!(client.call(&["ANYTHING"]), Ok(()));
    assert_eq!(client.take_outgoing(), "ANYTHING\n.\n");
    assert_eq!(client.pending(), "");
}

#[test]
fn call_returns_login_error_for_code_two() {
    let mut client = client_with("2 bad\n.\n");
    assert_eq!(
        client.call(&["ANYTHING"]),
        Err(CallError::Response(Some(ResponseError::LoginError)))
    );
}

#[test]
fn call_returns_unrecognized_for_other_status() {
    let mut client = client_with("what\n.\n");
    assert_eq!(client.call(&["ANYTHING"]), Err(CallError::Response(None)));
    let mut client = client_with("42 answer\n.\n");
    assert_eq!(client.call(&["ANYTHING"]), Err(CallError::Response(None)));
}

#[test]
fn call_reports_a_response_that_never_ends() {
    let mut client = client_with("0 OK\n");
    assert_eq!(
        client.call(&["ANYTHING"]),
        Err(CallError::Transport(TransportError::UnexpectedEof))
    );
    assert_eq!(client.pending(), "0 OK\n");
    assert_eq!(client.take_outgoing(), "ANYTHING\n.\n");
}

#[test]
fn recv_takes_one_response_at_a_time() {
    let mut client = client_with("0 first\nmore\n.\n1 second\n.\n0 thi");
    let mut buf = String::new();
    assert_eq!(client.recv(&mut buf), Ok(()));
    assert_eq!(buf, "0 first\nmore\n.\n");
    assert_eq!(client.pending(), "1 second\n.\n0 thi");
    assert!(client.has_response());
    assert_eq!(client.recv(&mut buf), Ok(()));
    assert_eq!(buf, "0 first\nmore\n.\n1 second\n.\n");
    assert!(!client.has_response());
    assert_eq!(client.recv(&mut buf), Err(TransportError::UnexpectedEof));
    assert_eq!(buf, "0 first\nmore\n.\n1 second\n.\n");
    assert_eq!(client.pending(), "0 thi");
    client.feed("rd\n.\n");
    assert_eq!(client.recv_res(), Ok(()));
    assert_eq!(client.pending(), "");
}

#[test]
fn a_dot_inside_a_line_closes_nothing() {
    let mut client = client_with("0 a.\n.b\n..\n .\n.\n");
    let mut buf = String::new();
    assert_eq!(client.recv(&mut buf), Ok(()));
    assert_eq!(buf, "0 a.\n.b\n..\n .\n.\n");
    let mut client = client_with("x.\n");
    assert!(!client.has_response());
    assert_eq!(client.recv(&mut buf), Err(TransportError::UnexpectedEof));
}

#[test]
fn a_lone_closing_line_is_a_response() {
    let mut client = client_with(".\n");
    assert!(client.has_response());
    assert_eq!(client.recv_res(), Err(CallError::Response(None)));
    assert_eq!(client.pending(), "");
}

#[test]
fn rollback_after_failed_modip() {
    let mut client = client_with("0 hi\n.\n0 ok\n.\n3 fail\n.\n0 bye\n.\n");
    let result = client.run_modip(&example_info());
    assert_eq!(result, Err(CallError::Response(Some(ResponseError::DbError))));
    assert_eq!(
        client.take_outgoing(),
        "LOGIN\nUSERID:alice\nPASSWORD:secret\n.\n\
         MODIP\nHOSTNAME:www\nDOMNAME:example.com\nIPV4:203.0.113.5\n.\n\
         LOGOUT\n.\n"
    );
    assert_eq!(client.pending(), "0 bye\n.\n");
}

#[test]
fn rollback_after_failed_login() {
    let mut client = client_with("0 hi\n.\n2 no\n.\n");
    let result = client.run_modip(&example_info());
    assert_eq!(result, Err(CallError::Response(Some(ResponseError::LoginError))));
    assert_eq!(
        client.take_outgoing(),
        "LOGIN\nUSERID:alice\nPASSWORD:secret\n.\nLOGOUT\n.\n"
    );
    assert_eq!(client.pending(), "");
}

#[test]
fn full_success() {
    let mut client = client_with("0 hi\n.\n0 ok\n.\n0 ok\n.\n0 bye\n.\n");
    assert_eq!(client.run_modip(&example_info()), Ok(()));
    assert_eq!(
        client.take_outgoing(),
        "LOGIN\nUSERID:alice\nPASSWORD:secret\n.\n\
         MODIP\nHOSTNAME:www\nDOMNAME:example.com\nIPV4:203.0.113.5\n.\n\
         LOGOUT\n.\n"
    );
    assert_eq!(client.pending(), "");
    assert!(!client.has_response());
}

#[test]
fn a_bad_greeting_ends_the_update_before_anything_is_sent() {
    let mut client = client_with("5 busy\n.\n0 ok\n.\n");
    let result = client.run_modip(&example_info());
    assert_eq!(result, Err(CallError::Response(Some(ResponseError::NoConnection))));
    assert_eq!(client.take_outgoing(), "");
    assert_eq!(client.pending(), "0 ok\n.\n");
}

#[test]
fn a_missing_greeting_is_a_transport_error() {
    let mut client = Client::new();
    let result = client.run_modip(&example_info());
    assert_eq!(result, Err(CallError::Transport(TransportError::UnexpectedEof)));
    assert_eq!(client.take_outgoing(), "");
}

#[test]
fn a_lost_connection_ends_the_update_without_cleanup() {
    let mut client = client_with("0 hi\n.\n0 ok\n.\n0 o");
    let result = client.run_modip(&example_info());
    assert_eq!(result, Err(CallError::Transport(TransportError::UnexpectedEof)));
    assert_eq!(
        client.take_outgoing(),
        "LOGIN\nUSERID:alice\nPASSWORD:secret\n.\n\
         MODIP\nHOSTNAME:www\nDOMNAME:example.com\nIPV4:203.0.113.5\n.\n"
    );
}

#[test]
fn the_result_of_logout_is_the_result_of_the_update() {
    let mut client = client_with("0 hi\n.\n0 ok\n.\n0 ok\n.\n1 what\n.\n");
    let result = client.run_modip(&example_info());
    assert_eq!(result, Err(CallError::Response(Some(ResponseError::CommandError))));
    assert_eq!(
        client.take_outgoing(),
        "LOGIN\nUSERID:alice\nPASSWORD:secret\n.\n\
         MODIP\nHOSTNAME:www\nDOMNAME:example.com\nIPV4:203.0.113.5\n.\n\
         LOGOUT\n.\n"
    );
}

#[test]
fn send_modip_alone_rolls_back_on_refusal() {
    let mut client = client_with("4 bad address\n.\n");
    let result = client.send_modip("www", "example.com", "not-an-address");
    assert_eq!(result, Err(CallError::Response(Some(ResponseError::IpAddressError))));
    assert_eq!(
        client.take_outgoing(),
        "MODIP\nHOSTNAME:www\nDOMNAME:example.com\nIPV4:not-an-address\n.\nLOGOUT\n.\n"
    );
    let mut client = client_with("0 done\n.\n");
    assert_eq!(client.send_modip("www", "example.com", "192.0.2.1"), Ok(()));
    assert_eq!(
        client.take_outgoing(),
        "MODIP\nHOSTNAME:www\nDOMNAME:example.com\nIPV4:192.0.2.1\n.\n"
    );
}

#[test]
fn verbose_client_echoes_what_passes() {
    let mut client = client_with("0 OK\n.\n");
    assert!(!client.verbose());
    client.set_verbose(true);
    assert!(client.verbose());
    assert_eq!(client.call(&["PING", "x"]), Ok(()));
    assert_eq!(client.take_echo(), "PING\nx\n.\n0 OK\n.\n");
    assert_eq!(client.take_echo(), "");
    assert_eq!(client.take_outgoing(), "PING\nx\n.\n");
    assert_eq!(client.take_outgoing(), "");
}

#[test]
fn quiet_client_echoes_nothing() {
    let mut client = client_with("0 OK\n.\n");
    assert_eq!(client.call(&["PING"]), Ok(()));
    assert_eq!(client.take_echo(), "");
}

#[test]
fn addresses_are_sent_in_dotted_quad() {
    let info = Information::new("u", "p", "h", "d", Ipv4Address::new(0, 10, 100, 255)).unwrap();
    let mut client = client_with("0 hi\n.\n0 ok\n.\n0 ok\n.\n0 bye\n.\n");
    assert_eq!(client.run_modip(&info), Ok(()));
    assert_eq!(
        client.take_outgoing(),
        "LOGIN\nUSERID:u\nPASSWORD:p\n.\nMODIP\nHOSTNAME:h\nDOMNAME:d\nIPV4:0.10.100.255\n.\nLOGOUT\n.\n"
    );
}

#[test]
fn classify_tells_transport_errors_from_responses() {
    assert_eq!(classify(Ok(()), "0 OK\n.\n"), Ok(()));
    assert_eq!(
        classify(Ok(()), "4 bad\n.\n"),
        Err(CallError::Response(Some(ResponseError::IpAddressError)))
    );
    assert_eq!(classify(Ok(()), "?\n.\n"), Err(CallError::Response(None)));
    assert_eq!(
        classify(Err(TransportError::TimedOut), "0 OK\n.\n"),
        Err(CallError::Transport(TransportError::TimedOut))
    );
    assert_eq!(
        classify(Err(TransportError::Read), ""),
        Err(CallError::Transport(TransportError::Read))
    );
}
