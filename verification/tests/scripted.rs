use dice::{
    CallError, Command, CommandModip, CommandModipExt, Information, ResponseError, Steps,
    TransportError,
};

/// A session that answers from a script and can be told to fail.
struct Scripted {
    replies: Vec<Result<&'static str, TransportError>>,
    sends: Vec<Result<(), TransportError>>,
    sent: Vec<String>,
    received: usize,
}

impl Scripted {
    fn new(replies: Vec<Result<&'static str, TransportError>>) -> Scripted {
        Scripted { replies, sends: Vec::new(), sent: Vec::new(), received: 0 }
    }

    fn failing_send(mut self, nth: usize, error: TransportError) -> Scripted {
        while self.sends.len() < nth {
            self.sends.push(Ok(()));
        }
        self.sends.push(Err(error));
        self
    }
}

impl Steps for Scripted {}

impl Command for Scripted {
    fn send(&mut self, cmd: &[&str]) -> Result<(), TransportError> {
        let nth = self.sent.len();
        self.sent.push(cmd.join(" "));
        match self.sends.get(nth) {
            Some(result) => *result,
            None => Ok(()),
        }
    }

    fn recv(&mut self, buf: &mut String) -> Result<(), TransportError> {
        let nth = self.received;
        self.received += 1;
        match self.replies.get(nth) {
            Some(Ok(text)) => {
                buf.push_str(text);
                Ok(())
            }
            Some(Err(error)) => Err(*error),
            None => Err(TransportError::UnexpectedEof),
        }
    }
}

fn example_info() -> Information {
    Information::new("alice", "secret", "www", "example.com", "203.0.113.5").unwrap()
}

#[test]
fn scripted_full_success_makes_four_receives_and_three_sends() {
    let mut session =
        Scripted::new(vec![Ok("0 hi\n.\n"), Ok("0 ok\n.\n"), Ok("0 ok\n.\n"), Ok("0 bye\n.\n")]);
    assert_eq!(session.run_modip(&example_info()), Ok(()));
    assert_eq!(session.received, 4);
    assert_eq!(
        session.sent,
        vec![
            "LOGIN USERID:alice PASSWORD:secret",
            "MODIP HOSTNAME:www DOMNAME:example.com IPV4:203.0.113.5",
            "LOGOUT"
        ]
    );
}

#[test]
fn a_failed_cleanup_does_not_mask_the_refusal() {
    let mut session = Scripted::new(vec![Ok("0 hi\n.\n"), Ok("0 ok\n.\n"), Ok("3 fail\n.\n")])
        .failing_send(2, TransportError::Write);
    let result = session.run_modip(&example_info());
    assert_eq!(result, Err(CallError::Response(Some(ResponseError::DbError))));
    assert_eq!(session.sent.len(), 3);
    assert_eq!(session.sent[2], "LOGOUT");
    assert_eq!(session.received, 3);
}

#[test]
fn the_cleanup_is_not_answered() {
    let mut session =
        Scripted::new(vec![Ok("0 hi\n.\n"), Ok("2 no\n.\n"), Ok("0 bye\n.\n")]);
    let result = session.run_modip(&example_info());
    assert_eq!(result, Err(CallError::Response(Some(ResponseError::LoginError))));
    assert_eq!(session.sent, vec!["LOGIN USERID:alice PASSWORD:secret", "LOGOUT"]);
    assert_eq!(session.received, 2);
}

#[test]
fn an_unrecognized_answer_is_rolled_back_too() {
    let mut session = Scripted::new(vec![Ok("0 hi\n.\n"), Ok("0 ok\n.\n"), Ok("oops\n.\n")]);
    let result = session.run_modip(&example_info());
    assert_eq!(result, Err(CallError::Response(None)));
    assert_eq!(session.sent.len(), 3);
    assert_eq!(session.sent[2], "LOGOUT");
}

#[test]
fn a_send_that_fails_ends_the_update_at_once() {
    let mut session =
        Scripted::new(vec![Ok("0 hi\n.\n")]).failing_send(0, TransportError::Write);
    let result = session.run_modip(&example_info());
    assert_eq!(result, Err(CallError::Transport(TransportError::Write)));
    assert_eq!(session.sent, vec!["LOGIN USERID:alice PASSWORD:secret"]);
    assert_eq!(session.received, 1);
}

#[test]
fn a_receive_that_fails_ends_the_update_at_once() {
    let mut session = Scripted::new(vec![
        Ok("0 hi\n.\n"),
        Ok("0 ok\n.\n"),
        Err(TransportError::TimedOut),
    ]);
    let result = session.run_modip(&example_info());
    assert_eq!(result, Err(CallError::Transport(TransportError::TimedOut)));
    assert_eq!(session.sent.len(), 2);
    assert_eq!(session.received, 3);
}

#[test]
fn a_failed_greeting_read_sends_nothing() {
    let mut session = Scripted::new(vec![Err(TransportError::Read)]);
    let result = session.run_modip(&example_info());
    assert_eq!(result, Err(CallError::Transport(TransportError::Read)));
    assert!(session.sent.is_empty());
    assert_eq!(session.received, 1);
}

#[test]
fn call_does_not_receive_after_a_failed_send() {
    let mut session = Scripted::new(vec![Ok("0 ok\n.\n")]).failing_send(0, TransportError::TimedOut);
    assert_eq!(session.call(&["PING"]), Err(CallError::Transport(TransportError::TimedOut)));
    assert_eq!(session.received, 0);
}

#[test]
fn send_modip_passes_its_arguments_on() {
    let mut session = Scripted::new(vec![Ok("6 unknown\n.\n")]);
    let result = session.send_modip("h", "d", "192.0.2.1");
    assert_eq!(result, Err(CallError::Response(Some(ResponseError::NotFound))));
    assert_eq!(session.sent, vec!["MODIP HOSTNAME:h DOMNAME:d IPV4:192.0.2.1", "LOGOUT"]);
}
