//! A session held in memory.
//!
//! The client owns one side of a connection as two buffers: what has
//! arrived and is not read yet, and what is framed and not sent on yet.
//! Whoever holds the connection feeds the one and drains the other.
//! Nothing here can fail but for want of input, so what a client does is
//! known exactly from what it holds.

use crate::command::Command;
use crate::error::{CallError, TransportError};
use crate::steps::{
    calls, calls_guarded, is_refusal, lemma_calls, lemma_calls_guarded, lemma_receives,
    lemma_runs_session, lemma_updates, logout_tokens, receives, reply_result, runs_session,
    updates, Event, Steps,
};
use crate::frame::{
    encode_frame, frame_end, frame_text, has_frame, is_frame, lemma_first_frame_is_unique,
    terminator_at, tokens_of,
};
use crate::response::response_outcome;
use crate::text::chars_of;
use vstd::prelude::*;
use vstd::string::{StrSliceExecFns, StringExecFns};

verus! {

/// One side of a connection, with its framing state.
pub struct Client {
    incoming: String,
    outgoing: String,
    echo: String,
    verbose: bool,
}

/// What a client holds.
#[verifier::ext_equal]
pub struct ClientView {
    /// What has arrived and is not read yet.
    pub incoming: Seq<char>,
    /// What is framed and not taken for sending yet.
    pub outgoing: Seq<char>,
    /// What was echoed and not taken for showing yet.
    pub echo: Seq<char>,
    /// Whether frames are echoed as they pass.
    pub verbose: bool,
}

/// `text` where `on` holds, nothing where it does not.
pub open spec fn echo_of(on: bool, text: Seq<char>) -> Seq<char> {
    if on {
        text
    } else {
        Seq::empty()
    }
}

/// What a client holds after it has framed a command.
pub open spec fn after_send(pre: ClientView, tokens: Seq<Seq<char>>) -> ClientView {
    ClientView {
        outgoing: pre.outgoing + frame_text(tokens),
        echo: pre.echo + echo_of(pre.verbose, frame_text(tokens)),
        ..pre
    }
}

/// What a client holds after it has taken `response` from the front of
/// what had arrived.
pub open spec fn after_recv(pre: ClientView, response: Seq<char>) -> ClientView {
    ClientView {
        incoming: pre.incoming.skip(response.len() as int),
        echo: pre.echo + echo_of(pre.verbose, response),
        ..pre
    }
}

/// What one step does to a client. A send frames the command and cannot
/// fail. A receive takes the first frame of what has arrived; where no
/// whole frame has arrived, it reports the end of the stream and changes
/// nothing.
pub open spec fn client_step(pre: ClientView, step: Event, post: ClientView) -> bool {
    match step {
        Event::Send(tokens, sent) => sent is Ok && post == after_send(pre, tokens),
        Event::Recv(got) => match got {
            Ok(response) => {
                &&& is_frame(response)
                &&& response.is_prefix_of(pre.incoming)
                &&& post == after_recv(pre, response)
            },
            Err(e) => {
                &&& e == TransportError::UnexpectedEof
                &&& !has_frame(pre.incoming)
                &&& post == pre
            },
        },
    }
}

impl View for Client {
    type V = ClientView;

    closed spec fn view(&self) -> ClientView {
        ClientView {
            incoming: self.incoming@,
            outgoing: self.outgoing@,
            echo: self.echo@,
            verbose: self.verbose,
        }
    }
}

impl Client {
    /// A client that holds nothing and echoes nothing.
    pub fn new() -> (client: Client)
        ensures
            client@ == (ClientView {
                incoming: Seq::empty(),
                outgoing: Seq::empty(),
                echo: Seq::empty(),
                verbose: false,
            }),
    {
        Client {
            incoming: String::new(),
            outgoing: String::new(),
            echo: String::new(),
            verbose: false,
        }
    }

    /// Whether frames are echoed as they pass.
    pub fn verbose(&self) -> (on: bool)
        ensures
            on == self@.verbose,
    {
        self.verbose
    }

    /// Turns the echo on or off.
    pub fn set_verbose(&mut self, on: bool)
        ensures
            final(self)@ == (ClientView { verbose: on, ..old(self)@ }),
    {
        self.verbose = on;
    }

    /// Hands the client what has arrived on the connection.
    pub fn feed(&mut self, text: &str)
        ensures
            final(self)@ == (ClientView { incoming: old(self)@.incoming + text@, ..old(self)@ }),
    {
        self.incoming.append(text);
    }

    /// Does what has arrived hold a whole response?
    pub fn has_response(&self) -> (b: bool)
        ensures
            b == has_frame(self@.incoming),
    {
        let text = chars_of(self.incoming.as_str());
        match frame_end(&text) {
            Some(n) => {
                assert(terminator_at(self@.incoming, n - 2)) by {
                    assert(terminator_at(text@.take(n as int), n - 2));
                }
                true
            },
            None => false,
        }
    }

    /// What has arrived and is not read yet.
    pub fn pending(&self) -> (text: &str)
        ensures
            text@ == self@.incoming,
    {
        self.incoming.as_str()
    }

    /// Takes what is framed for sending; the client keeps none of it.
    pub fn take_outgoing(&mut self) -> (text: String)
        ensures
            text@ == old(self)@.outgoing,
            final(self)@ == (ClientView { outgoing: Seq::empty(), ..old(self)@ }),
    {
        let mut text = String::new();
        std::mem::swap(&mut self.outgoing, &mut text);
        text
    }

    /// Takes what was echoed; the client keeps none of it.
    pub fn take_echo(&mut self) -> (text: String)
        ensures
            text@ == old(self)@.echo,
            final(self)@ == (ClientView { echo: Seq::empty(), ..old(self)@ }),
    {
        let mut text = String::new();
        std::mem::swap(&mut self.echo, &mut text);
        text
    }
}

impl Steps for Client {
    open spec fn steps_to(&self, step: Event, next: &Self) -> bool {
        client_step(self@, step, next@)
    }
}

impl Command for Client {
    /// Frames the command behind what is waiting to be sent. This cannot fail.
    fn send(&mut self, cmd: &[&str]) -> (r: Result<(), TransportError>)
        ensures
            r is Ok,
            final(self)@ == after_send(old(self)@, tokens_of(cmd@)),
    {
        let frame = encode_frame(cmd);
        if self.verbose {
            self.echo.append(frame.as_str());
        }
        self.outgoing.append(frame.as_str());
        proof {
            assert(self.echo@ =~= old(self)@.echo + echo_of(
                old(self)@.verbose,
                frame_text(tokens_of(cmd@)),
            ));
        }
        Ok(())
    }

    /// Takes the first response out of what has arrived. Where no whole
    /// response has arrived, nothing is taken and the end of the stream is
    /// reported.
    fn recv(&mut self, buf: &mut String) -> (r: Result<(), TransportError>)
        ensures
            r is Ok <==> has_frame(old(self)@.incoming),
            r is Err ==> final(buf)@ == old(buf)@,
    {
        let text = chars_of(self.incoming.as_str());
        match frame_end(&text) {
            Some(n) => {
                let response = self.incoming.as_str().substring_char(0, n);
                let rest = String::from_str(self.incoming.as_str().substring_char(n, text.len()));
                buf.append(response);
                if self.verbose {
                    self.echo.append(response);
                }
                proof {
                    let taken = buf@.skip(old(buf)@.len() as int);
                    assert(taken =~= response@);
                    assert(response@ =~= old(self)@.incoming.take(n as int));
                    assert(terminator_at(old(self)@.incoming, n - 2)) by {
                        assert(terminator_at(text@.take(n as int), n - 2));
                    }
                    assert(rest@ =~= old(self)@.incoming.skip(n as int));
                    assert(self.echo@ =~= old(self)@.echo + echo_of(old(self)@.verbose, taken));
                    assert(old(buf)@ =~= buf@.subrange(0, old(buf)@.len() as int));
                    assert(taken =~= old(self)@.incoming.subrange(0, taken.len() as int));
                }
                self.incoming = rest;
                Ok(())
            },
            None => {
                proof {
                    assert(old(buf)@ =~= buf@.subrange(0, old(buf)@.len() as int));
                }
                Err(TransportError::UnexpectedEof)
            },
        }
    }
}

/// What a client holds after a call: the command is framed, and
/// `response` is taken.
pub open spec fn after_call(pre: ClientView, cmd: Seq<Seq<char>>, response: Seq<char>) -> ClientView {
    after_recv(after_send(pre, cmd), response)
}

/// What a client holds after a call inside a session: as after the call,
/// and where `response` reports a failure, `LOGOUT` is framed behind it.
pub open spec fn after_guarded_call(
    pre: ClientView,
    cmd: Seq<Seq<char>>,
    response: Seq<char>,
) -> ClientView {
    if response_outcome(response) is Err {
        after_send(after_call(pre, cmd, response), logout_tokens())
    } else {
        after_call(pre, cmd, response)
    }
}

/// A client that holds a frame holds it as its first: what a receive
/// takes from it is that frame.
proof fn lemma_client_takes_first(pre: ClientView, got: Result<Seq<char>, TransportError>, post: ClientView, first: Seq<char>, rest: Seq<char>)
    requires
        client_step(pre, Event::Recv(got), post),
        pre.incoming == first + rest,
        is_frame(first),
    ensures
        got == Ok::<Seq<char>, TransportError>(first),
        post == after_recv(pre, first),
        post.incoming == rest,
{
    let held = pre.incoming;
    assert(held.take(first.len() as int) =~= first);
    match got {
        Ok(response) => {
            assert(held.take(response.len() as int) =~= response);
            lemma_first_frame_is_unique(held, response.len() as int, first.len() as int);
            assert(response =~= first);
            assert(post.incoming =~= rest);
        },
        Err(_) => {
            assert(terminator_at(first, first.len() - 2));
            assert(terminator_at(held, first.len() - 2));
        },
    }
}

/// Receiving on a client that holds the response already: the response
/// is taken and classified, and what follows it stays.
pub proof fn lemma_client_receives(
    pre: Client,
    r: Result<(), CallError>,
    post: Client,
    response: Seq<char>,
    rest: Seq<char>,
)
    requires
        receives(pre, r, post),
        pre@.incoming == response + rest,
        is_frame(response),
    ensures
        r == reply_result(Ok(response)),
        post@ == after_recv(pre@, response),
        post@.incoming == rest,
{
    lemma_receives(pre, r, post);
    let got = choose|got: Result<Seq<char>, TransportError>| #[trigger]
        pre.steps_to(Event::Recv(got), &post) && r == reply_result(got);
    lemma_client_takes_first(pre@, got, post@, response, rest);
}

/// Receiving on a client that holds no whole response: the end of the
/// stream is reported, and nothing changes.
pub proof fn lemma_client_receives_nothing(pre: Client, r: Result<(), CallError>, post: Client)
    requires
        receives(pre, r, post),
        !has_frame(pre@.incoming),
    ensures
        r == Err::<(), CallError>(CallError::Transport(TransportError::UnexpectedEof)),
        post@ == pre@,
{
    lemma_receives(pre, r, post);
    let got = choose|got: Result<Seq<char>, TransportError>| #[trigger]
        pre.steps_to(Event::Recv(got), &post) && r == reply_result(got);
    match got {
        Ok(response) => {
            assert(terminator_at(response, response.len() - 2));
            assert(terminator_at(pre@.incoming, response.len() - 2));
        },
        Err(_) => {},
    }
}

/// A call on a client that holds the response already: the command is
/// framed for sending, the response is taken, and what it reports is the
/// result.
pub proof fn lemma_client_calls(
    pre: Client,
    cmd: Seq<Seq<char>>,
    r: Result<(), CallError>,
    post: Client,
    response: Seq<char>,
    rest: Seq<char>,
)
    requires
        calls(pre, cmd, r, post),
        pre@.incoming == response + rest,
        is_frame(response),
    ensures
        r == reply_result(Ok(response)),
        post@ == after_call(pre@, cmd, response),
        post@.incoming == rest,
{
    lemma_calls(pre, cmd, r, post);
    let (sent, mid) = choose|sent: Result<(), TransportError>, mid: Client| #[trigger]
        pre.steps_to(Event::Send(cmd, sent), &mid) && match sent {
            Ok(_) => receives(mid, r, post),
            Err(e) => mid == post && r == Err::<(), CallError>(CallError::Transport(e)),
        };
    lemma_client_receives(mid, r, post, response, rest);
}

/// A call inside a session, on a client that holds the response already:
/// as a call, and where the response reports a failure, `LOGOUT` is
/// framed for sending as well.
pub proof fn lemma_client_calls_guarded(
    pre: Client,
    cmd: Seq<Seq<char>>,
    r: Result<(), CallError>,
    post: Client,
    response: Seq<char>,
    rest: Seq<char>,
)
    requires
        calls_guarded(pre, cmd, r, post),
        pre@.incoming == response + rest,
        is_frame(response),
    ensures
        r == reply_result(Ok(response)),
        post@ == after_guarded_call(pre@, cmd, response),
        post@.incoming == rest,
{
    lemma_calls_guarded(pre, cmd, r, post);
    if is_refusal(r) {
        let (mid, cleanup) = choose|mid: Client, cleanup: Result<(), TransportError>| #[trigger]
            calls(pre, cmd, r, mid) && #[trigger] mid.steps_to(
                Event::Send(logout_tokens(), cleanup),
                &post,
            );
        lemma_client_calls(pre, cmd, r, mid, response, rest);
    } else {
        lemma_client_calls(pre, cmd, r, post, response, rest);
    }
}

/// A session on a client that holds the three responses already, where
/// `LOGIN` and `MODIP` are accepted: what the answer to `LOGOUT` reports
/// is the result, and the client is as after the three calls.
proof fn lemma_client_session_completes(
    pre: Client,
    login: Seq<Seq<char>>,
    modip: Seq<Seq<char>>,
    r: Result<(), CallError>,
    post: Client,
    opened: Seq<char>,
    changed: Seq<char>,
    closed: Seq<char>,
    rest: Seq<char>,
)
    requires
        runs_session(pre, login, modip, r, post),
        pre@.incoming == opened + (changed + (closed + rest)),
        is_frame(opened) && response_outcome(opened) is Ok,
        is_frame(changed) && response_outcome(changed) is Ok,
        is_frame(closed),
    ensures
        r == reply_result(Ok(closed)),
        post@ == after_call(
            after_call(after_call(pre@, login, opened), modip, changed),
            logout_tokens(),
            closed,
        ),
        post@.incoming == rest,
{
    lemma_runs_session(pre, login, modip, r, post);
    if r is Err && calls_guarded(pre, login, r, post) {
        lemma_client_calls_guarded(pre, login, r, post, opened, changed + (closed + rest));
    } else if r is Err && exists|logged: Client| #[trigger]
        calls(pre, login, Ok(()), logged) && calls_guarded(logged, modip, r, post) {
        let logged = choose|logged: Client| #[trigger]
            calls(pre, login, Ok(()), logged) && calls_guarded(logged, modip, r, post);
        lemma_client_calls(pre, login, Ok(()), logged, opened, changed + (closed + rest));
        lemma_client_calls_guarded(logged, modip, r, post, changed, closed + rest);
    } else {
        let (logged, moved) = choose|logged: Client, moved: Client| #[trigger]
            calls(pre, login, Ok(()), logged) && #[trigger] calls(logged, modip, Ok(()), moved)
                && calls(moved, logout_tokens(), r, post);
        lemma_client_calls(pre, login, Ok(()), logged, opened, changed + (closed + rest));
        lemma_client_calls(logged, modip, Ok(()), moved, changed, closed + rest);
        lemma_client_calls(moved, logout_tokens(), r, post, closed, rest);
    }
}

/// A session on a client that holds the responses already, where `LOGIN`
/// is accepted and `MODIP` is refused: the refusal is the result, and the
/// client is as after the two calls, with `LOGOUT` framed behind them.
proof fn lemma_client_session_rolls_back(
    pre: Client,
    login: Seq<Seq<char>>,
    modip: Seq<Seq<char>>,
    r: Result<(), CallError>,
    post: Client,
    opened: Seq<char>,
    changed: Seq<char>,
    rest: Seq<char>,
)
    requires
        runs_session(pre, login, modip, r, post),
        pre@.incoming == opened + (changed + rest),
        is_frame(opened) && response_outcome(opened) is Ok,
        is_frame(changed) && response_outcome(changed) is Err,
    ensures
        r == reply_result(Ok(changed)),
        post@ == after_send(
            after_call(after_call(pre@, login, opened), modip, changed),
            logout_tokens(),
        ),
        post@.incoming == rest,
{
    lemma_runs_session(pre, login, modip, r, post);
    if r is Err && calls_guarded(pre, login, r, post) {
        lemma_client_calls_guarded(pre, login, r, post, opened, changed + rest);
    } else if r is Err && exists|logged: Client| #[trigger]
        calls(pre, login, Ok(()), logged) && calls_guarded(logged, modip, r, post) {
        let logged = choose|logged: Client| #[trigger]
            calls(pre, login, Ok(()), logged) && calls_guarded(logged, modip, r, post);
        lemma_client_calls(pre, login, Ok(()), logged, opened, changed + rest);
        lemma_client_calls_guarded(logged, modip, r, post, changed, rest);
    } else {
        let (logged, moved) = choose|logged: Client, moved: Client| #[trigger]
            calls(pre, login, Ok(()), logged) && #[trigger] calls(logged, modip, Ok(()), moved)
                && calls(moved, logout_tokens(), r, post);
        lemma_client_calls(pre, login, Ok(()), logged, opened, changed + rest);
        lemma_client_calls(logged, modip, Ok(()), moved, changed, rest);
    }
}

/// A session on a client that holds the answer to `LOGIN` already, where
/// that answer is a refusal: the refusal is the result, and the client is
/// as after the call, with `LOGOUT` framed behind it.
proof fn lemma_client_session_is_refused(
    pre: Client,
    login: Seq<Seq<char>>,
    modip: Seq<Seq<char>>,
    r: Result<(), CallError>,
    post: Client,
    opened: Seq<char>,
    rest: Seq<char>,
)
    requires
        runs_session(pre, login, modip, r, post),
        pre@.incoming == opened + rest,
        is_frame(opened) && response_outcome(opened) is Err,
    ensures
        r == reply_result(Ok(opened)),
        post@ == after_send(after_call(pre@, login, opened), logout_tokens()),
        post@.incoming == rest,
{
    lemma_runs_session(pre, login, modip, r, post);
    if r is Err && calls_guarded(pre, login, r, post) {
        lemma_client_calls_guarded(pre, login, r, post, opened, rest);
    } else if r is Err && exists|logged: Client| #[trigger]
        calls(pre, login, Ok(()), logged) && calls_guarded(logged, modip, r, post) {
        let logged = choose|logged: Client| #[trigger]
            calls(pre, login, Ok(()), logged) && calls_guarded(logged, modip, r, post);
        lemma_client_calls(pre, login, Ok(()), logged, opened, rest);
    } else {
        let (logged, moved) = choose|logged: Client, moved: Client| #[trigger]
            calls(pre, login, Ok(()), logged) && #[trigger] calls(logged, modip, Ok(()), moved)
                && calls(moved, logout_tokens(), r, post);
        lemma_client_calls(pre, login, Ok(()), logged, opened, rest);
    }
}

/// An update on a client whose greeting reports a failure: that failure
/// is the result, the greeting is taken and nothing is framed for sending.
pub proof fn lemma_client_update_stops_at_greeting(
    pre: Client,
    login: Seq<Seq<char>>,
    modip: Seq<Seq<char>>,
    r: Result<(), CallError>,
    post: Client,
    greeting: Seq<char>,
    rest: Seq<char>,
)
    requires
        updates(pre, login, modip, r, post),
        pre@.incoming == greeting + rest,
        is_frame(greeting) && response_outcome(greeting) is Err,
    ensures
        r == reply_result(Ok(greeting)),
        post@ == after_recv(pre@, greeting),
        post@.incoming == rest,
        post@.outgoing == pre@.outgoing,
{
    lemma_updates(pre, login, modip, r, post);
    if r is Err && receives(pre, r, post) {
        lemma_client_receives(pre, r, post, greeting, rest);
    } else {
        let greeted = choose|greeted: Client| #[trigger]
            receives(pre, Ok(()), greeted) && runs_session(greeted, login, modip, r, post);
        lemma_client_receives(pre, Ok(()), greeted, greeting, rest);
    }
}

/// An update on a client that holds a good greeting and a refusal of
/// `LOGIN`: the refusal is the result, and `LOGIN` and `LOGOUT` are
/// framed for sending. What follows the two responses stays.
pub proof fn lemma_client_update_is_refused(
    pre: Client,
    login: Seq<Seq<char>>,
    modip: Seq<Seq<char>>,
    r: Result<(), CallError>,
    post: Client,
    greeting: Seq<char>,
    opened: Seq<char>,
    rest: Seq<char>,
)
    requires
        updates(pre, login, modip, r, post),
        pre@.incoming == greeting + opened + rest,
        is_frame(greeting) && response_outcome(greeting) is Ok,
        is_frame(opened) && response_outcome(opened) is Err,
    ensures
        r == reply_result(Ok(opened)),
        post@ == after_send(after_call(after_recv(pre@, greeting), login, opened), logout_tokens()),
        post@.incoming == rest,
        post@.outgoing == pre@.outgoing + frame_text(login) + frame_text(logout_tokens()),
{
    let tail = opened + rest;
    assert(pre@.incoming =~= greeting + tail);
    lemma_updates(pre, login, modip, r, post);
    if r is Err && receives(pre, r, post) {
        lemma_client_receives(pre, r, post, greeting, tail);
    } else {
        let greeted = choose|greeted: Client| #[trigger]
            receives(pre, Ok(()), greeted) && runs_session(greeted, login, modip, r, post);
        lemma_client_receives(pre, Ok(()), greeted, greeting, tail);
        lemma_client_session_is_refused(greeted, login, modip, r, post, opened, rest);
    }
}

/// Rollback on a client that holds the responses already: where the
/// greeting and the answer to `LOGIN` report success and the answer to
/// `MODIP` reports a failure, that failure is the result, and `LOGOUT` is
/// framed for sending behind `LOGIN` and `MODIP` all the same. Its answer
/// is not awaited: what follows the three responses stays.
pub proof fn lemma_client_update_rolls_back(
    pre: Client,
    login: Seq<Seq<char>>,
    modip: Seq<Seq<char>>,
    r: Result<(), CallError>,
    post: Client,
    greeting: Seq<char>,
    opened: Seq<char>,
    changed: Seq<char>,
    rest: Seq<char>,
)
    requires
        updates(pre, login, modip, r, post),
        pre@.incoming == greeting + opened + changed + rest,
        is_frame(greeting) && response_outcome(greeting) is Ok,
        is_frame(opened) && response_outcome(opened) is Ok,
        is_frame(changed) && response_outcome(changed) is Err,
    ensures
        r == reply_result(Ok(changed)),
        r == Err::<(), CallError>(CallError::Response(response_outcome(changed)->Err_0)),
        post@ == after_send(
            after_call(after_call(after_recv(pre@, greeting), login, opened), modip, changed),
            logout_tokens(),
        ),
        post@.incoming == rest,
        post@.outgoing == pre@.outgoing + frame_text(login) + frame_text(modip) + frame_text(
            logout_tokens(),
        ),
{
    let tail = opened + (changed + rest);
    assert(pre@.incoming =~= greeting + tail);
    lemma_updates(pre, login, modip, r, post);
    if r is Err && receives(pre, r, post) {
        lemma_client_receives(pre, r, post, greeting, tail);
    } else {
        let greeted = choose|greeted: Client| #[trigger]
            receives(pre, Ok(()), greeted) && runs_session(greeted, login, modip, r, post);
        lemma_client_receives(pre, Ok(()), greeted, greeting, tail);
        lemma_client_session_rolls_back(greeted, login, modip, r, post, opened, changed, rest);
    }
}

/// An update that gets as far as `LOGOUT`, on a client that holds the
/// four responses already: where the greeting and the answers to `LOGIN`
/// and `MODIP` report success, what the answer to `LOGOUT` reports is the
/// result. The three commands are framed for sending in their order, the
/// four responses are taken, and what follows them stays.
pub proof fn lemma_client_update_completes(
    pre: Client,
    login: Seq<Seq<char>>,
    modip: Seq<Seq<char>>,
    r: Result<(), CallError>,
    post: Client,
    greeting: Seq<char>,
    opened: Seq<char>,
    changed: Seq<char>,
    closed: Seq<char>,
    rest: Seq<char>,
)
    requires
        updates(pre, login, modip, r, post),
        pre@.incoming == greeting + opened + changed + closed + rest,
        is_frame(greeting) && response_outcome(greeting) is Ok,
        is_frame(opened) && response_outcome(opened) is Ok,
        is_frame(changed) && response_outcome(changed) is Ok,
        is_frame(closed),
    ensures
        r == reply_result(Ok(closed)),
        response_outcome(closed) is Ok ==> r is Ok,
        post@ == after_call(
            after_call(after_call(after_recv(pre@, greeting), login, opened), modip, changed),
            logout_tokens(),
            closed,
        ),
        post@.incoming == rest,
        post@.outgoing == pre@.outgoing + frame_text(login) + frame_text(modip) + frame_text(
            logout_tokens(),
        ),
{
    let tail = opened + (changed + (closed + rest));
    assert(pre@.incoming =~= greeting + tail);
    lemma_updates(pre, login, modip, r, post);
    if r is Err && receives(pre, r, post) {
        lemma_client_receives(pre, r, post, greeting, tail);
    } else {
        let greeted = choose|greeted: Client| #[trigger]
            receives(pre, Ok(()), greeted) && runs_session(greeted, login, modip, r, post);
        lemma_client_receives(pre, Ok(()), greeted, greeting, tail);
        lemma_client_session_completes(greeted, login, modip, r, post, opened, changed, closed, rest);
    }
}

} // verus!
