//! The steps of a session, and what operations are made of.
//!
//! A session moves in steps: a command is sent, or a response is received.
//! What an operation does is told by the steps it makes: which steps, in
//! which order, and what comes of them. What a single step does to a
//! session, the session itself says.

use crate::error::{CallError, TransportError};
use crate::response::response_outcome;
use vstd::prelude::*;

verus! {

/// One step of a session.
pub enum Event {
    /// A command with these tokens was handed over for sending, and this
    /// came of it.
    Send(Seq<Seq<char>>, Result<(), TransportError>),
    /// A response was asked for, and this text or this error came.
    Recv(Result<Seq<char>, TransportError>),
}

/// What an attempt to receive comes to once the response is classified.
pub open spec fn reply_result(got: Result<Seq<char>, TransportError>) -> Result<(), CallError> {
    match got {
        Ok(text) => match response_outcome(text) {
            Ok(()) => Ok(()),
            Err(e) => Err(CallError::Response(e)),
        },
        Err(e) => Err(CallError::Transport(e)),
    }
}

/// What came of a receive, as a step records it: the text that was read,
/// or the error.
pub open spec fn received(r: Result<(), TransportError>, text: Seq<char>) -> Result<
    Seq<char>,
    TransportError,
> {
    match r {
        Ok(()) => Ok(text),
        Err(e) => Err(e),
    }
}

/// The tokens of the command that ends a session.
pub open spec fn logout_tokens() -> Seq<Seq<char>> {
    seq!["LOGOUT"@]
}

/// The tokens of the command that opens a session.
pub open spec fn login_tokens(user: Seq<char>, pass: Seq<char>) -> Seq<Seq<char>> {
    seq!["LOGIN"@, "USERID:"@ + user, "PASSWORD:"@ + pass]
}

/// The tokens of the command that points a name at an address.
pub open spec fn modip_tokens(host: Seq<char>, dom: Seq<char>, ipv4: Seq<char>) -> Seq<Seq<char>> {
    seq!["MODIP"@, "HOSTNAME:"@ + host, "DOMNAME:"@ + dom, "IPV4:"@ + ipv4]
}

/// The steps of receiving and classifying one response: one receive, and
/// what it brings decides the result.
pub open spec fn recv_steps(steps: Seq<Event>, r: Result<(), CallError>) -> bool {
    &&& steps.len() == 1
    &&& steps[0] matches Event::Recv(got)
    &&& r == reply_result(got)
}

/// The steps of one call: the command is sent, and, unless sending failed,
/// one response is received and classified.
pub open spec fn call_steps(steps: Seq<Event>, cmd: Seq<Seq<char>>, r: Result<(), CallError>) -> bool {
    &&& steps.len() >= 1
    &&& steps[0] matches Event::Send(tokens, sent)
    &&& tokens == cmd
    &&& match sent {
        Ok(()) => recv_steps(steps.skip(1), r),
        Err(e) => steps.len() == 1 && r == Err::<(), CallError>(CallError::Transport(e)),
    }
}

/// Did the server answer, and with a failure?
pub open spec fn is_refusal(r: Result<(), CallError>) -> bool {
    r matches Err(CallError::Response(_))
}

/// The steps of a call inside a session: the call, and where the server
/// refused it, one attempt to send `LOGOUT`, of which nothing is awaited
/// and whose failure changes nothing.
pub open spec fn guarded_steps(steps: Seq<Event>, cmd: Seq<Seq<char>>, r: Result<(), CallError>) -> bool {
    if is_refusal(r) {
        &&& steps.len() == 3
        &&& call_steps(steps.take(2), cmd, r)
        &&& steps[2] matches Event::Send(tokens, _)
        &&& tokens == logout_tokens()
    } else {
        call_steps(steps, cmd, r)
    }
}

/// The steps of a session: `LOGIN`, `MODIP` and `LOGOUT`, each only after
/// the one before it succeeded. The first failure is the result.
pub open spec fn session_steps(
    steps: Seq<Event>,
    login: Seq<Seq<char>>,
    modip: Seq<Seq<char>>,
    r: Result<(), CallError>,
) -> bool {
    ||| r is Err && guarded_steps(steps, login, r)
    ||| {
        &&& steps.len() >= 2
        &&& call_steps(steps.take(2), login, Ok(()))
        &&& r is Err
        &&& guarded_steps(steps.skip(2), modip, r)
    }
    ||| {
        &&& steps.len() >= 4
        &&& call_steps(steps.take(2), login, Ok(()))
        &&& call_steps(steps.subrange(2, 4), modip, Ok(()))
        &&& call_steps(steps.skip(4), logout_tokens(), r)
    }
}

/// The steps of an update: the greeting is received and classified, and
/// only after a good greeting the session follows.
pub open spec fn update_steps(
    steps: Seq<Event>,
    login: Seq<Seq<char>>,
    modip: Seq<Seq<char>>,
    r: Result<(), CallError>,
) -> bool {
    ||| r is Err && recv_steps(steps, r)
    ||| {
        &&& steps.len() >= 1
        &&& recv_steps(steps.take(1), Ok(()))
        &&& session_steps(steps.skip(1), login, modip, r)
    }
}

/// What the steps of a session do to it.
pub trait Steps: Sized {
    /// Can `step` take a session from `self` to `next`?
    ///
    /// A session that does not say can take any step to anywhere: of such
    /// a one the steps are known, and not what they do.
    open spec fn steps_to(&self, step: Event, next: &Self) -> bool {
        true
    }
}

/// Do the states `states` lead from `pre` to `post`, one step of `steps`
/// after the other?
pub open spec fn is_run<S: Steps>(pre: S, steps: Seq<Event>, states: Seq<S>, post: S) -> bool {
    &&& states.len() == steps.len() + 1
    &&& states[0] == pre
    &&& states.last() == post
    &&& forall|k: int|
        0 <= k < steps.len() ==> (#[trigger] states[k]).steps_to(steps[k], &states[k + 1])
}

/// Can the steps `steps`, made one after the other, take a session from
/// `pre` to `post`?
pub open spec fn runs_to<S: Steps>(pre: S, steps: Seq<Event>, post: S) -> bool {
    exists|states: Seq<S>| is_run(pre, steps, states, post)
}

/// One step is a run.
pub proof fn lemma_run_one<S: Steps>(pre: S, step: Event, post: S)
    requires
        pre.steps_to(step, &post),
    ensures
        runs_to(pre, seq![step], post),
{
    let states = seq![pre, post];
    assert(states[0] == pre);
    assert(is_run(pre, seq![step], states, post));
}

/// A run that ends where another begins makes one run with it.
pub proof fn lemma_run_join<S: Steps>(a: S, first: Seq<Event>, b: S, second: Seq<Event>, c: S)
    requires
        runs_to(a, first, b),
        runs_to(b, second, c),
    ensures
        runs_to(a, first + second, c),
{
    let head = choose|states: Seq<S>| is_run(a, first, states, b);
    let tail = choose|states: Seq<S>| is_run(b, second, states, c);
    let states = head + tail.drop_first();
    let steps = first + second;
    assert forall|k: int| 0 <= k < steps.len() implies (#[trigger] states[k]).steps_to(
        steps[k],
        &states[k + 1],
    ) by {
        if k < first.len() {
            assert(states[k] == head[k]);
            assert(steps[k] == first[k]);
            if k + 1 < head.len() {
                assert(states[k + 1] == head[k + 1]);
            } else {
                assert(states[k + 1] == tail[1]);
            }
            assert(head[k].steps_to(first[k], &head[k + 1]));
        } else {
            let j = k - first.len();
            assert(steps[k] == second[j]);
            assert(states[k] == tail[j]);
            assert(states[k + 1] == tail[j + 1]);
            assert(tail[j].steps_to(second[j], &tail[j + 1]));
        }
    }
    assert(is_run(a, steps, states, c));
}

/// A run can be cut in two wherever its steps can.
pub proof fn lemma_run_split<S: Steps>(a: S, first: Seq<Event>, second: Seq<Event>, c: S)
    requires
        runs_to(a, first + second, c),
    ensures
        exists|b: S| #[trigger] runs_to(a, first, b) && runs_to(b, second, c),
{
    let steps = first + second;
    let states = choose|states: Seq<S>| is_run(a, steps, states, c);
    let n = first.len() as int;
    let b = states[n];
    let head = states.take(n + 1);
    let tail = states.skip(n);
    assert forall|k: int| 0 <= k < first.len() implies (#[trigger] head[k]).steps_to(
        first[k],
        &head[k + 1],
    ) by {
        assert(head[k] == states[k]);
        assert(head[k + 1] == states[k + 1]);
        assert(steps[k] == first[k]);
        assert(states[k].steps_to(steps[k], &states[k + 1]));
    }
    assert(is_run(a, first, head, b));
    assert forall|k: int| 0 <= k < second.len() implies (#[trigger] tail[k]).steps_to(
        second[k],
        &tail[k + 1],
    ) by {
        assert(tail[k] == states[n + k]);
        assert(tail[k + 1] == states[n + k + 1]);
        assert(steps[n + k] == second[k]);
        assert(states[n + k].steps_to(steps[n + k], &states[n + k + 1]));
    }
    assert(is_run(b, second, tail, c));
    assert(runs_to(a, first, b) && runs_to(b, second, c));
}

/// A run of one step is that step.
pub proof fn lemma_run_is_one<S: Steps>(pre: S, steps: Seq<Event>, post: S)
    requires
        runs_to(pre, steps, post),
        steps.len() == 1,
    ensures
        pre.steps_to(steps[0], &post),
{
    let states = choose|states: Seq<S>| is_run(pre, steps, states, post);
    assert(states[0].steps_to(steps[0], &states[1]));
}

/// A run of no step leaves the session as it is.
pub proof fn lemma_run_is_none<S: Steps>(pre: S, steps: Seq<Event>, post: S)
    requires
        runs_to(pre, steps, post),
        steps.len() == 0,
    ensures
        pre == post,
{
    let states = choose|states: Seq<S>| is_run(pre, steps, states, post);
    assert(states[0] == states.last());
}

/// Can receiving and classifying one response take a session from `pre`
/// to `post`, with the result `r`?
pub open spec fn receives<S: Steps>(pre: S, r: Result<(), CallError>, post: S) -> bool {
    exists|steps: Seq<Event>| recv_steps(steps, r) && #[trigger] runs_to(pre, steps, post)
}

/// Can a call of `cmd` take a session from `pre` to `post`, with the
/// result `r`?
pub open spec fn calls<S: Steps>(pre: S, cmd: Seq<Seq<char>>, r: Result<(), CallError>, post: S) -> bool {
    exists|steps: Seq<Event>| call_steps(steps, cmd, r) && #[trigger] runs_to(pre, steps, post)
}

/// Can a call of `cmd` inside a session, with the cleanup that follows a
/// refusal, take a session from `pre` to `post`, with the result `r`?
pub open spec fn calls_guarded<S: Steps>(
    pre: S,
    cmd: Seq<Seq<char>>,
    r: Result<(), CallError>,
    post: S,
) -> bool {
    exists|steps: Seq<Event>| guarded_steps(steps, cmd, r) && #[trigger] runs_to(pre, steps, post)
}

/// Can a session with these `LOGIN` and `MODIP` commands, from `LOGIN` to
/// `LOGOUT`, take a session from `pre` to `post`, with the result `r`?
pub open spec fn runs_session<S: Steps>(
    pre: S,
    login: Seq<Seq<char>>,
    modip: Seq<Seq<char>>,
    r: Result<(), CallError>,
    post: S,
) -> bool {
    exists|steps: Seq<Event>|
        session_steps(steps, login, modip, r) && #[trigger] runs_to(pre, steps, post)
}

/// Can an update with these `LOGIN` and `MODIP` commands take a session
/// from `pre` to `post`, with the result `r`?
pub open spec fn updates<S: Steps>(
    pre: S,
    login: Seq<Seq<char>>,
    modip: Seq<Seq<char>>,
    r: Result<(), CallError>,
    post: S,
) -> bool {
    exists|steps: Seq<Event>|
        update_steps(steps, login, modip, r) && #[trigger] runs_to(pre, steps, post)
}

/// Receiving and classifying is one receive, and what it brings decides
/// the result.
pub proof fn lemma_receives<S: Steps>(pre: S, r: Result<(), CallError>, post: S)
    requires
        receives(pre, r, post),
    ensures
        exists|got: Result<Seq<char>, TransportError>| #[trigger]
            pre.steps_to(Event::Recv(got), &post) && r == reply_result(got),
{
    let steps = choose|steps: Seq<Event>| recv_steps(steps, r) && #[trigger] runs_to(pre, steps, post);
    lemma_run_is_one(pre, steps, post);
    let got = steps[0]->Recv_0;
    assert(pre.steps_to(Event::Recv(got), &post) && r == reply_result(got));
}

/// A call is a send and, where that went through, a receive from where
/// the send has led. Where the send failed, its error is the result.
pub proof fn lemma_calls<S: Steps>(pre: S, cmd: Seq<Seq<char>>, r: Result<(), CallError>, post: S)
    requires
        calls(pre, cmd, r, post),
    ensures
        exists|sent: Result<(), TransportError>, mid: S| #[trigger]
            pre.steps_to(Event::Send(cmd, sent), &mid) && match sent {
                Ok(_) => receives(mid, r, post),
                Err(e) => mid == post && r == Err::<(), CallError>(CallError::Transport(e)),
            },
{
    let steps = choose|steps: Seq<Event>| call_steps(steps, cmd, r) && #[trigger] runs_to(pre, steps, post);
    let first = seq![steps[0]];
    let rest = steps.skip(1);
    assert(steps =~= first + rest);
    lemma_run_split(pre, first, rest, post);
    let mid = choose|mid: S| #[trigger] runs_to(pre, first, mid) && runs_to(mid, rest, post);
    lemma_run_is_one(pre, first, mid);
    let sent = steps[0]->Send_1;
    assert(steps[0] == Event::Send(cmd, sent));
    if sent is Err {
        lemma_run_is_none(mid, rest, post);
    }
    assert(pre.steps_to(Event::Send(cmd, sent), &mid) && match sent {
        Ok(_) => receives(mid, r, post),
        Err(e) => mid == post && r == Err::<(), CallError>(CallError::Transport(e)),
    });
}

/// A call inside a session is a call and, where the server refused it,
/// one more send, of `LOGOUT`, from where the call has led.
pub proof fn lemma_calls_guarded<S: Steps>(
    pre: S,
    cmd: Seq<Seq<char>>,
    r: Result<(), CallError>,
    post: S,
)
    requires
        calls_guarded(pre, cmd, r, post),
    ensures
        !is_refusal(r) ==> calls(pre, cmd, r, post),
        is_refusal(r) ==> exists|mid: S, cleanup: Result<(), TransportError>| #[trigger]
            calls(pre, cmd, r, mid) && #[trigger] mid.steps_to(
                Event::Send(logout_tokens(), cleanup),
                &post,
            ),
{
    let steps = choose|steps: Seq<Event>|
        guarded_steps(steps, cmd, r) && #[trigger] runs_to(pre, steps, post);
    if is_refusal(r) {
        let first = steps.take(2);
        let last = seq![steps[2]];
        assert(steps =~= first + last);
        lemma_run_split(pre, first, last, post);
        let mid = choose|mid: S| #[trigger] runs_to(pre, first, mid) && runs_to(mid, last, post);
        lemma_run_is_one(mid, last, post);
        let cleanup = steps[2]->Send_1;
        assert(steps[2] == Event::Send(logout_tokens(), cleanup));
        assert(calls(pre, cmd, r, mid) && mid.steps_to(Event::Send(logout_tokens(), cleanup), &post));
    }
}

/// A session is its three calls, as far as it gets: it ends with the
/// first that fails, and with `LOGOUT` where none does.
pub proof fn lemma_runs_session<S: Steps>(
    pre: S,
    login: Seq<Seq<char>>,
    modip: Seq<Seq<char>>,
    r: Result<(), CallError>,
    post: S,
)
    requires
        runs_session(pre, login, modip, r, post),
    ensures
        ({
            ||| r is Err && calls_guarded(pre, login, r, post)
            ||| r is Err && exists|opened: S| #[trigger]
                calls(pre, login, Ok(()), opened) && calls_guarded(opened, modip, r, post)
            ||| exists|opened: S, changed: S| #[trigger]
                calls(pre, login, Ok(()), opened) && #[trigger] calls(
                    opened,
                    modip,
                    Ok(()),
                    changed,
                ) && calls(changed, logout_tokens(), r, post)
        }),
{
    let steps = choose|steps: Seq<Event>|
        session_steps(steps, login, modip, r) && #[trigger] runs_to(pre, steps, post);
    if r is Err && guarded_steps(steps, login, r) {
    } else if steps.len() >= 2 && call_steps(steps.take(2), login, Ok(())) && r is Err
        && guarded_steps(steps.skip(2), modip, r) {
        assert(steps =~= steps.take(2) + steps.skip(2));
        lemma_run_split(pre, steps.take(2), steps.skip(2), post);
        let opened = choose|mid: S| #[trigger]
            runs_to(pre, steps.take(2), mid) && runs_to(mid, steps.skip(2), post);
        assert(calls(pre, login, Ok(()), opened) && calls_guarded(opened, modip, r, post));
    } else {
        assert(steps =~= steps.take(2) + steps.skip(2));
        lemma_run_split(pre, steps.take(2), steps.skip(2), post);
        let opened = choose|mid: S| #[trigger]
            runs_to(pre, steps.take(2), mid) && runs_to(mid, steps.skip(2), post);
        let rest = steps.skip(2);
        assert(rest =~= steps.subrange(2, 4) + steps.skip(4));
        lemma_run_split(opened, steps.subrange(2, 4), steps.skip(4), post);
        let changed = choose|mid: S| #[trigger]
            runs_to(opened, steps.subrange(2, 4), mid) && runs_to(mid, steps.skip(4), post);
        assert(calls(pre, login, Ok(()), opened) && calls(opened, modip, Ok(()), changed) && calls(
            changed,
            logout_tokens(),
            r,
            post,
        ));
    }
}

/// An update is the greeting and, after a good greeting, the session
/// from where the greeting has led.
pub proof fn lemma_updates<S: Steps>(
    pre: S,
    login: Seq<Seq<char>>,
    modip: Seq<Seq<char>>,
    r: Result<(), CallError>,
    post: S,
)
    requires
        updates(pre, login, modip, r, post),
    ensures
        ({
            ||| r is Err && receives(pre, r, post)
            ||| exists|greeted: S| #[trigger]
                receives(pre, Ok(()), greeted) && runs_session(greeted, login, modip, r, post)
        }),
{
    let steps = choose|steps: Seq<Event>|
        update_steps(steps, login, modip, r) && #[trigger] runs_to(pre, steps, post);
    if r is Err && recv_steps(steps, r) {
    } else {
        assert(steps =~= steps.take(1) + steps.skip(1));
        lemma_run_split(pre, steps.take(1), steps.skip(1), post);
        let greeted = choose|mid: S| #[trigger]
            runs_to(pre, steps.take(1), mid) && runs_to(mid, steps.skip(1), post);
        assert(receives(pre, Ok(()), greeted) && runs_session(greeted, login, modip, r, post));
    }
}

/// Is `step` a send of the command `cmd` that went through?
pub open spec fn is_sent(step: Event, cmd: Seq<Seq<char>>) -> bool {
    step matches Event::Send(tokens, sent) && tokens == cmd && sent is Ok
}

/// Is `step` a receive that brought a response reporting success?
pub open spec fn is_good_reply(step: Event) -> bool {
    step matches Event::Recv(got) && reply_result(got) is Ok
}

/// Is `step` a receive that brought a response reporting a failure?
pub open spec fn is_refused_reply(step: Event) -> bool {
    step matches Event::Recv(got) && is_refusal(reply_result(got))
}

/// An update whose greeting is no success ends there: nothing is sent,
/// and what came of the greeting is the result.
pub proof fn lemma_bad_greeting_ends_update(
    steps: Seq<Event>,
    login: Seq<Seq<char>>,
    modip: Seq<Seq<char>>,
    r: Result<(), CallError>,
)
    requires
        update_steps(steps, login, modip, r),
        steps.len() >= 1,
        !is_good_reply(steps[0]),
    ensures
        steps.len() == 1,
        recv_steps(steps, r),
        r is Err,
{
    assert(steps.take(1)[0] == steps[0]);
}

/// Rollback: where the server accepts the login and refuses the change,
/// `LOGOUT` is still sent, once and as the last step, and the refusal of
/// the change is the result.
pub proof fn lemma_refused_change_is_rolled_back(
    steps: Seq<Event>,
    login: Seq<Seq<char>>,
    modip: Seq<Seq<char>>,
    r: Result<(), CallError>,
)
    requires
        update_steps(steps, login, modip, r),
        steps.len() >= 5,
        is_good_reply(steps[0]),
        is_good_reply(steps[2]),
        is_refused_reply(steps[4]),
    ensures
        steps.len() == 6,
        is_sent(steps[1], login),
        is_sent(steps[3], modip),
        steps[4] matches Event::Recv(got) && r == reply_result(got),
        steps[5] matches Event::Send(tokens, _) && tokens == logout_tokens(),
{
    let session = steps.skip(1);
    assert(steps.take(1)[0] == steps[0]);
    assert(session[0] == steps[1]);
    assert(session[1] == steps[2]);
    assert(session.take(2)[0] == session[0]);
    assert(session.take(2).skip(1)[0] == session[1]);
    assert(session.skip(1)[0] == session[1]);
    let change = session.skip(2);
    assert(change[0] == steps[3]);
    assert(change[1] == steps[4]);
    assert(change[2] == steps[5]);
    assert(change.take(2)[0] == change[0]);
    assert(change.take(2).skip(1)[0] == change[1]);
    assert(change.skip(1)[0] == change[1]);
    assert(session.subrange(2, 4)[0] == session[2]);
    assert(session.subrange(2, 4).skip(1)[0] == session[3]);
}

/// An update succeeds by a full exchange and by nothing less: the
/// greeting and the three commands, each sent and each answered with
/// success. Seven steps are made, four of them receives.
pub proof fn lemma_success_is_full_exchange(
    steps: Seq<Event>,
    login: Seq<Seq<char>>,
    modip: Seq<Seq<char>>,
    r: Result<(), CallError>,
)
    requires
        update_steps(steps, login, modip, r),
    ensures
        r is Ok <==> {
            &&& steps.len() == 7
            &&& is_good_reply(steps[0])
            &&& is_good_reply(steps[2])
            &&& is_good_reply(steps[4])
            &&& is_good_reply(steps[6])
        },
        r is Ok ==> {
            &&& is_sent(steps[1], login)
            &&& is_sent(steps[3], modip)
            &&& is_sent(steps[5], logout_tokens())
        },
{
    if steps.len() >= 1 {
        assert(steps.take(1)[0] == steps[0]);
    }
    let session = steps.skip(1);
    if session.len() >= 2 {
        assert(session[0] == steps[1]);
        assert(session[1] == steps[2]);
        assert(session.take(2)[0] == session[0]);
        assert(session.take(2).skip(1)[0] == session[1]);
        assert(session.skip(1)[0] == session[1]);
    }
    if session.len() >= 3 {
        assert(session.take(2).skip(1).len() == 1);
    }
    if session.len() >= 4 {
        let change = session.subrange(2, 4);
        assert(change[0] == steps[3]);
        assert(change[1] == steps[4]);
        assert(change.skip(1)[0] == change[1]);
        let guarded = session.skip(2);
        assert(guarded[0] == steps[3]);
        assert(guarded[1] == steps[4]);
        assert(guarded.skip(1)[0] == guarded[1]);
        assert(guarded.take(2)[0] == guarded[0]);
        assert(guarded.take(2).skip(1)[0] == guarded[1]);
    }
    if session.len() >= 6 {
        let close = session.skip(4);
        assert(close[0] == steps[5]);
        assert(close[1] == steps[6]);
        assert(close.skip(1)[0] == close[1]);
    }
}

} // verus!
