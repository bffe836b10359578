//! Commands and their answers: one exchange, a session, the whole update.

use crate::address::dotted_quad;
use crate::error::{CallError, TransportError};
use crate::frame::{is_frame, tokens_of};
use crate::information::Information;
use crate::response::res_verify;
use crate::steps::{
    call_steps, calls, calls_guarded, guarded_steps, lemma_run_join, lemma_run_one, login_tokens,
    logout_tokens, modip_tokens, received, receives, recv_steps, reply_result, runs_to,
    session_steps, update_steps, updates, Event, Steps,
};
use vstd::prelude::*;
use vstd::string::StringExecFns;

verus! {

/// Classifies what came of a receive: the error where reading failed, and
/// else what the response reports.
pub fn classify(r: Result<(), TransportError>, response: &str) -> (result: Result<(), CallError>)
    ensures
        result == reply_result(received(r, response@)),
{
    match r {
        Ok(()) => match res_verify(response) {
            Ok(()) => Ok(()),
            Err(e) => Err(CallError::Response(e)),
        },
        Err(e) => Err(CallError::Transport(e)),
    }
}

/// A session with a server: commands go out, responses come in.
pub trait Command: Steps {
    /// Frames a command and writes it. This is one step.
    fn send(&mut self, cmd: &[&str]) -> (r: Result<(), TransportError>)
        ensures
            old(self).steps_to(Event::Send(tokens_of(cmd@), r), final(self)),
    ;

    /// Reads one response, up to and including its closing line, and puts
    /// it behind what `buf` holds. This is one step.
    fn recv(&mut self, buf: &mut String) -> (r: Result<(), TransportError>)
        ensures
            old(buf)@.is_prefix_of(final(buf)@),
            r is Ok ==> is_frame(final(buf)@.skip(old(buf)@.len() as int)),
            old(self).steps_to(
                Event::Recv(received(r, final(buf)@.skip(old(buf)@.len() as int))),
                final(self),
            ),
    ;

    /// Reads one response and classifies it.
    fn recv_res(&mut self) -> (r: Result<(), CallError>)
        ensures
            receives(*old(self), r, *final(self)),
    {
        let mut buf = String::new();
        let got = self.recv(&mut buf);
        let r = classify(got, buf.as_str());
        proof {
            assert(buf@.skip(0) =~= buf@);
            let step = Event::Recv(received(got, buf@));
            lemma_run_one(*old(self), step, *self);
            assert(recv_steps(seq![step], r));
        }
        r
    }

    /// Sends a command, reads the response and classifies it.
    fn call(&mut self, cmd: &[&str]) -> (r: Result<(), CallError>)
        ensures
            calls(*old(self), tokens_of(cmd@), r, *final(self)),
    {
        let sent = self.send(cmd);
        let ghost mid = *self;
        let ghost first = Event::Send(tokens_of(cmd@), sent);
        proof {
            lemma_run_one(*old(self), first, mid);
        }
        match sent {
            Ok(()) => {
                let r = self.recv_res();
                proof {
                    let rest = choose|steps: Seq<Event>|
                        recv_steps(steps, r) && #[trigger] runs_to(mid, steps, *self);
                    lemma_run_join(*old(self), seq![first], mid, rest, *self);
                    let steps = seq![first] + rest;
                    assert(steps.skip(1) =~= rest);
                    assert(call_steps(steps, tokens_of(cmd@), r));
                }
                r
            },
            Err(e) => {
                assert(call_steps(seq![first], tokens_of(cmd@), Err(CallError::Transport(e))));
                Err(CallError::Transport(e))
            },
        }
    }
}

/// Sends `LOGOUT` after a refused call and lets the refusal stand: what
/// comes of the cleanup is not looked at.
fn roll_back<C: Command>(session: &mut C, answer: Result<(), CallError>, Ghost(cmd): Ghost<
    Seq<Seq<char>>,
>, Ghost(start): Ghost<C>) -> (r: Result<(), CallError>)
    requires
        calls(start, cmd, answer, *old(session)),
    ensures
        r == answer,
        calls_guarded(start, cmd, r, *final(session)),
{
    let ghost called = choose|steps: Seq<Event>|
        call_steps(steps, cmd, answer) && #[trigger] runs_to(start, steps, *old(session));
    match answer {
        Err(CallError::Response(e)) => {
            let logout: [&str; 1] = ["LOGOUT"];
            let cleanup = session.send(&logout);
            proof {
                assert(tokens_of(logout@) =~= logout_tokens());
                let last = Event::Send(logout_tokens(), cleanup);
                lemma_run_one(*old(session), last, *session);
                lemma_run_join(start, called, *old(session), seq![last], *session);
                let steps = called + seq![last];
                assert(steps.take(2) =~= called);
                assert(guarded_steps(steps, cmd, answer));
            }
            Err(CallError::Response(e))
        },
        other => {
            assert(guarded_steps(called, cmd, answer));
            other
        },
    }
}

/// Opening and closing a session.
trait CommandAuth<T> {
    /// Ends the session.
    fn send_logout(&mut self) -> Result<(), CallError>;

    /// Opens a session for `user`.
    fn send_login(&mut self, user: &str, pass: &str) -> Result<(), CallError>;
}

impl<T> CommandAuth<T> for T where T: Command {
    fn send_logout(&mut self) -> (r: Result<(), CallError>)
        ensures
            calls(*old(self), logout_tokens(), r, *final(self)),
    {
        let cmd: [&str; 1] = ["LOGOUT"];
        assert(tokens_of(cmd@) =~= logout_tokens());
        self.call(&cmd)
    }

    fn send_login(&mut self, user: &str, pass: &str) -> (r: Result<(), CallError>)
        ensures
            calls_guarded(*old(self), login_tokens(user@, pass@), r, *final(self)),
    {
        let userid = String::from_str("USERID:").concat(user);
        let password = String::from_str("PASSWORD:").concat(pass);
        let cmd: [&str; 3] = ["LOGIN", userid.as_str(), password.as_str()];
        assert(tokens_of(cmd@) =~= login_tokens(user@, pass@));
        let answer = self.call(&cmd);
        roll_back(self, answer, Ghost(login_tokens(user@, pass@)), Ghost(*old(self)))
    }
}

/// Pointing a name at an address.
pub trait CommandModip<T> {
    /// Points `host` in `dom` at the address `ipv4`, inside a session.
    fn send_modip(&mut self, host: &str, dom: &str, ipv4: &str) -> Result<(), CallError>;
}

impl<T> CommandModip<T> for T where T: Command {
    fn send_modip(&mut self, host: &str, dom: &str, ipv4: &str) -> (r: Result<(), CallError>)
        ensures
            calls_guarded(*old(self), modip_tokens(host@, dom@, ipv4@), r, *final(self)),
    {
        let hostname = String::from_str("HOSTNAME:").concat(host);
        let domname = String::from_str("DOMNAME:").concat(dom);
        let address = String::from_str("IPV4:").concat(ipv4);
        let cmd: [&str; 4] = ["MODIP", hostname.as_str(), domname.as_str(), address.as_str()];
        assert(tokens_of(cmd@) =~= modip_tokens(host@, dom@, ipv4@));
        let answer = self.call(&cmd);
        roll_back(self, answer, Ghost(modip_tokens(host@, dom@, ipv4@)), Ghost(*old(self)))
    }
}

/// The `LOGIN` command of an update.
pub open spec fn login_of(info: &Information) -> Seq<Seq<char>> {
    login_tokens(info.user@, info.pass@)
}

/// The `MODIP` command of an update.
pub open spec fn modip_of(info: &Information) -> Seq<Seq<char>> {
    modip_tokens(info.host@, info.dom@, dotted_quad(info.ipaddr))
}

/// The whole update.
pub trait CommandModipExt<T> {
    /// Reads the greeting, logs in, points the name at the address and
    /// logs out. The first failure ends the update and is its result.
    fn run_modip(&mut self, info: &Information) -> Result<(), CallError>;
}

impl<T> CommandModipExt<T> for T where T: Command {
    fn run_modip(&mut self, info: &Information) -> (r: Result<(), CallError>)
        ensures
            updates(*old(self), login_of(info), modip_of(info), r, *final(self)),
    {
        let ghost start = *self;
        let ghost login = login_of(info);
        let ghost modip = modip_of(info);
        let greeting = self.recv_res();
        let ghost greeted = *self;
        let ghost hello = choose|steps: Seq<Event>|
            recv_steps(steps, greeting) && #[trigger] runs_to(start, steps, greeted);
        if let Err(e) = greeting {
            assert(update_steps(hello, login, modip, greeting));
            return Err(e);
        }
        let opened = self.send_login(info.user.as_str(), info.pass.as_str());
        let ghost logged = *self;
        let ghost opening = choose|steps: Seq<Event>|
            guarded_steps(steps, login, opened) && #[trigger] runs_to(greeted, steps, logged);
        if let Err(e) = opened {
            proof {
                lemma_run_join(start, hello, greeted, opening, logged);
                let steps = hello + opening;
                assert(steps.take(1) =~= hello);
                assert(steps.skip(1) =~= opening);
                assert(update_steps(steps, login, modip, opened));
            }
            return Err(e);
        }
        let address = info.ipaddr.to_string();
        let changed = self.send_modip(info.host.as_str(), info.dom.as_str(), address.as_str());
        let ghost moved = *self;
        let ghost change = choose|steps: Seq<Event>|
            guarded_steps(steps, modip, changed) && #[trigger] runs_to(logged, steps, moved);
        if let Err(e) = changed {
            proof {
                lemma_run_join(greeted, opening, logged, change, moved);
                lemma_run_join(start, hello, greeted, opening + change, moved);
                let session = opening + change;
                let steps = hello + session;
                assert(steps.take(1) =~= hello);
                assert(steps.skip(1) =~= session);
                assert(session.take(2) =~= opening);
                assert(session.skip(2) =~= change);
                assert(session_steps(session, login, modip, changed));
                assert(update_steps(steps, login, modip, changed));
            }
            return Err(e);
        }
        let closed = self.send_logout();
        proof {
            let closing = choose|steps: Seq<Event>|
                call_steps(steps, logout_tokens(), closed) && #[trigger] runs_to(moved, steps, *self);
            lemma_run_join(logged, change, moved, closing, *self);
            lemma_run_join(greeted, opening, logged, change + closing, *self);
            lemma_run_join(start, hello, greeted, opening + (change + closing), *self);
            let session = opening + (change + closing);
            let steps = hello + session;
            assert(steps.take(1) =~= hello);
            assert(steps.skip(1) =~= session);
            assert(session.take(2) =~= opening);
            assert(session.subrange(2, 4) =~= change);
            assert(session.skip(4) =~= closing);
            assert(session_steps(session, login, modip, closed));
            assert(update_steps(steps, login, modip, closed));
        }
        closed
    }
}

} // verus!
