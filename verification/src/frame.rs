//! Frames: how a command goes onto the wire, and where a response ends.
//!
//! A frame is a run of lines closed by a line that holds a single `.`.
//! A command is written as one line for each of its tokens and the closing
//! line; a response is read up to and including its closing line.

use vstd::prelude::*;
use vstd::string::StringExecFns;

verus! {

/// The tokens of a command, each as its characters.
pub open spec fn tokens_of(cmd: Seq<&str>) -> Seq<Seq<char>> {
    Seq::new(cmd.len(), |i: int| cmd[i]@)
}

/// The line that closes a frame.
pub open spec fn terminator() -> Seq<char> {
    seq!['.', '\n']
}

/// The tokens written out, one line each.
pub open spec fn lines_text(tokens: Seq<Seq<char>>) -> Seq<char>
    decreases tokens.len(),
{
    if tokens.len() == 0 {
        Seq::empty()
    } else {
        lines_text(tokens.drop_last()) + tokens.last() + seq!['\n']
    }
}

/// The frame of a command: a line for each token, then the closing line.
pub open spec fn frame_text(tokens: Seq<Seq<char>>) -> Seq<char> {
    lines_text(tokens) + terminator()
}

/// Does a closing line begin at position `i` of `s`: a `.` at the start of
/// a line, with the line's end right behind it?
pub open spec fn terminator_at(s: Seq<char>, i: int) -> bool {
    &&& 0 <= i
    &&& i + 1 < s.len()
    &&& s[i] == '.'
    &&& s[i + 1] == '\n'
    &&& (i == 0 || s[i - 1] == '\n')
}

/// Does `s` hold a closing line anywhere?
pub open spec fn has_frame(s: Seq<char>) -> bool {
    exists|i: int| terminator_at(s, i)
}

/// Is `s` exactly one frame: does it end with its first closing line?
pub open spec fn is_frame(s: Seq<char>) -> bool {
    &&& s.len() >= 2
    &&& terminator_at(s, s.len() - 2)
    &&& forall|i: int| 0 <= i < s.len() - 2 ==> !terminator_at(s, i)
}

/// May `token` stand in a command: is it free of line ends, and not the
/// single `.` that would close the frame early?
pub open spec fn is_plain_token(token: Seq<char>) -> bool {
    !token.contains('\n') && token != seq!['.']
}

/// Writes a command as a frame.
pub fn encode_frame(cmd: &[&str]) -> (frame: String)
    ensures
        frame@ == frame_text(tokens_of(cmd@)),
{
    let ghost tokens = tokens_of(cmd@);
    let mut frame = String::new();
    let mut i: usize = 0;
    while i < cmd.len()
        invariant
            i <= cmd@.len(),
            tokens == tokens_of(cmd@),
            frame@ == lines_text(tokens.take(i as int)),
        decreases cmd@.len() - i,
    {
        proof {
            reveal_strlit("\n");
            assert(tokens.take(i + 1).drop_last() =~= tokens.take(i as int));
            assert(tokens.take(i + 1).last() == cmd@[i as int]@);
        }
        frame.append(cmd[i]);
        frame.append("\n");
        assert("\n"@ =~= seq!['\n']);
        i += 1;
    }
    proof {
        reveal_strlit(".\n");
        assert(tokens.take(cmd@.len() as int) =~= tokens);
        assert(".\n"@ =~= terminator());
    }
    frame.append(".\n");
    frame
}

/// Where the first frame of `text` ends: the length of the shortest
/// beginning of `text` that is a frame. `None` where `text` holds no
/// closing line.
pub(crate) fn frame_end(text: &Vec<char>) -> (end: Option<usize>)
    ensures
        match end {
            Some(n) => n <= text@.len() && is_frame(text@.take(n as int)),
            None => !has_frame(text@),
        },
{
    let n = text.len();
    if n < 2 {
        return None;
    }
    let mut i: usize = 0;
    while i < n - 1
        invariant
            2 <= n == text@.len(),
            i <= n - 1,
            forall|j: int| 0 <= j < i ==> !terminator_at(text@, j),
        decreases n - i,
    {
        if text[i] == '.' && text[i + 1] == '\n' && (i == 0 || text[i - 1] == '\n') {
            proof {
                let frame = text@.take(i + 2);
                assert(terminator_at(frame, i as int));
                assert forall|j: int| 0 <= j < i implies !terminator_at(frame, j) by {
                    assert(!terminator_at(text@, j));
                }
            }
            return Some(i + 2);
        }
        i += 1;
    }
    None
}

/// Before the end of the lines of plain tokens no closing line begins,
/// whatever follows them.
proof fn lemma_lines_hold_no_terminator(tokens: Seq<Seq<char>>, rest: Seq<char>, i: int)
    requires
        forall|k: int| 0 <= k < tokens.len() ==> is_plain_token(#[trigger] tokens[k]),
        0 <= i < lines_text(tokens).len(),
    ensures
        !terminator_at(lines_text(tokens) + rest, i),
        lines_text(tokens).last() == '\n',
    decreases tokens.len(),
{
    let init = tokens.drop_last();
    let token = tokens.last();
    let before = lines_text(init);
    let s = lines_text(tokens) + rest;
    assert(is_plain_token(tokens[tokens.len() - 1]));
    assert forall|k: int| 0 <= k < init.len() implies is_plain_token(#[trigger] init[k]) by {
        assert(init[k] == tokens[k]);
    }
    assert(s =~= before + (token + seq!['\n'] + rest));
    if i < before.len() {
        lemma_lines_hold_no_terminator(init, token + seq!['\n'] + rest, i);
    } else {
        let k = i - before.len();
        if k < token.len() {
            assert(s[i] == token[k]);
            if k + 1 < token.len() {
                assert(s[i + 1] == token[k + 1]);
                assert(token.contains(token[k + 1]));
            } else if k > 0 {
                assert(s[i - 1] == token[k - 1]);
                assert(token.contains(token[k - 1]));
            } else {
                assert(token.len() == 1);
                if token[0] == '.' {
                    assert(token =~= seq!['.']);
                }
            }
        } else {
            assert(s[i] == '\n');
        }
    }
}

/// The frame of a command made of plain tokens is one frame and no more:
/// read back from the wire, it ends where it was meant to end.
pub proof fn lemma_frame_text_is_frame(tokens: Seq<Seq<char>>)
    requires
        forall|k: int| 0 <= k < tokens.len() ==> is_plain_token(#[trigger] tokens[k]),
    ensures
        is_frame(frame_text(tokens)),
{
    let lines = lines_text(tokens);
    let s = frame_text(tokens);
    let n = lines.len() as int;
    assert(s[n] == '.');
    assert(s[n + 1] == '\n');
    if n > 0 {
        lemma_lines_hold_no_terminator(tokens, terminator(), n - 1);
        assert(s[n - 1] == lines.last());
    }
    assert forall|i: int| 0 <= i < s.len() - 2 implies !terminator_at(s, i) by {
        lemma_lines_hold_no_terminator(tokens, terminator(), i);
    }
}

/// A text begins with one frame at most.
pub proof fn lemma_first_frame_is_unique(s: Seq<char>, a: int, b: int)
    requires
        0 <= a <= s.len(),
        0 <= b <= s.len(),
        is_frame(s.take(a)),
        is_frame(s.take(b)),
    ensures
        a == b,
{
    if a < b {
        assert(terminator_at(s.take(a), a - 2));
        assert(terminator_at(s.take(b), a - 2));
    } else if b < a {
        assert(terminator_at(s.take(b), b - 2));
        assert(terminator_at(s.take(a), b - 2));
    }
}

/// Round trip: what is read back from the frame of a command made of
/// plain tokens, whatever follows it on the wire, is that frame and no more.
pub proof fn lemma_frame_round_trip(tokens: Seq<Seq<char>>, rest: Seq<char>, n: int)
    requires
        forall|k: int| 0 <= k < tokens.len() ==> is_plain_token(#[trigger] tokens[k]),
        0 <= n <= frame_text(tokens).len() + rest.len(),
        is_frame((frame_text(tokens) + rest).take(n)),
    ensures
        (frame_text(tokens) + rest).take(n) == frame_text(tokens),
{
    let frame = frame_text(tokens);
    let wire = frame + rest;
    lemma_frame_text_is_frame(tokens);
    assert(wire.take(frame.len() as int) =~= frame);
    lemma_first_frame_is_unique(wire, n, frame.len() as int);
}

/// A text holds a closing line just where it begins with a frame.
pub proof fn lemma_has_frame(s: Seq<char>)
    ensures
        has_frame(s) <==> exists|n: int| 0 <= n <= s.len() && is_frame(#[trigger] s.take(n)),
{
    if has_frame(s) {
        let i = choose|i: int| terminator_at(s, i);
        lemma_first_terminator(s, i);
    }
    if exists|n: int| 0 <= n <= s.len() && is_frame(#[trigger] s.take(n)) {
        let n = choose|n: int| 0 <= n <= s.len() && is_frame(#[trigger] s.take(n));
        assert(terminator_at(s.take(n), n - 2));
        assert(terminator_at(s, n - 2));
    }
}

/// Where a closing line begins at `i`, the text begins with a frame that
/// ends there or before.
proof fn lemma_first_terminator(s: Seq<char>, i: int)
    requires
        terminator_at(s, i),
    ensures
        exists|n: int| 0 <= n <= i + 2 && is_frame(#[trigger] s.take(n)),
    decreases i,
{
    if exists|j: int| 0 <= j < i && terminator_at(s, j) {
        let j = choose|j: int| 0 <= j < i && terminator_at(s, j);
        lemma_first_terminator(s, j);
    } else {
        let frame = s.take(i + 2);
        assert(terminator_at(frame, i));
        assert forall|j: int| 0 <= j < i implies !terminator_at(frame, j) by {
            if terminator_at(frame, j) {
                assert(terminator_at(s, j));
            }
        }
        assert(is_frame(s.take(i + 2)));
    }
}

} // verus!
