//! The command codec: one line of bytes (without its trailing newline)
//! parses into a `Get`, a `Put`, or the `Malformed` marker. Parsing is a
//! pure, total function of the line: the bytes are checked to be valid
//! UTF-8, split into whitespace-separated tokens, and matched against the
//! two command shapes.

use vstd::prelude::*;

verus! {

/// A parsed protocol command. Keys and values are byte strings; they never
/// contain whitespace, since whitespace is the token delimiter.
#[derive(Debug, PartialEq, Eq)]
pub enum Command {
    Get(Vec<u8>),
    Put(Vec<u8>, Vec<u8>),
    Malformed,
}

/// The mathematical shape of a command, over byte sequences.
pub ghost enum CommandModel {
    Get(Seq<u8>),
    Put(Seq<u8>, Seq<u8>),
    Malformed,
}

impl View for Command {
    type V = CommandModel;

    open spec fn view(&self) -> CommandModel {
        match self {
            Command::Get(k) => CommandModel::Get(k@),
            Command::Put(k, v) => CommandModel::Put(k@, v@),
            Command::Malformed => CommandModel::Malformed,
        }
    }
}

/// The ASCII whitespace bytes: space, tab, line feed, vertical tab, form
/// feed, carriage return.
pub open spec fn is_space(b: u8) -> bool {
    b == 32 || (9 <= b && b <= 13)
}

/// The whitespace-separated tokens of a byte sequence, defined by folding
/// over the bytes from the right: a whitespace byte ends the current token,
/// a non-whitespace byte extends it (or opens a new one).
pub open spec fn tokens_of(s: Seq<u8>) -> Seq<Seq<u8>>
    decreases s.len(),
{
    if s.len() == 0 {
        Seq::empty()
    } else {
        let pre = s.drop_last();
        let b = s.last();
        let t = tokens_of(pre);
        if is_space(b) {
            t
        } else if pre.len() > 0 && !is_space(pre.last()) {
            t.update(t.len() - 1, t.last().push(b))
        } else {
            t.push(seq![b])
        }
    }
}

/// Whether a byte sequence is valid UTF-8. The library never computes this
/// itself: the answer comes from the standard library, through `utf8_ok`.
pub uninterp spec fn utf8_valid(b: Seq<u8>) -> bool;

/// Relies on core::str::from_utf8: it returns `Ok` exactly when the bytes
/// are valid UTF-8, a property of the bytes alone; bytes below 128 (ASCII)
/// are always valid UTF-8.
#[verifier::external_body]
fn utf8_ok(b: &[u8]) -> (r: bool)
    ensures
        r == utf8_valid(b@),
        (forall|i: int| 0 <= i < b@.len() ==> b@[i] < 128) ==> r,
{
    core::str::from_utf8(b).is_ok()
}

pub open spec fn get_keyword() -> Seq<u8> {
    seq![71u8, 69u8, 84u8]
}

pub open spec fn put_keyword() -> Seq<u8> {
    seq![80u8, 85u8, 84u8]
}

/// What one line of bytes (excluding its delimiter) means. Invalid UTF-8 is
/// malformed; otherwise the line is split on whitespace and matched: `GET`
/// takes exactly one argument, `PUT` exactly two, anything else is
/// malformed.
pub open spec fn parse_model(line: Seq<u8>) -> CommandModel {
    if !utf8_valid(line) {
        CommandModel::Malformed
    } else {
        let toks = tokens_of(line);
        if toks.len() < 2 {
            CommandModel::Malformed
        } else if toks[0] == get_keyword() {
            if toks.len() == 2 {
                CommandModel::Get(toks[1])
            } else {
                CommandModel::Malformed
            }
        } else if toks[0] == put_keyword() {
            if toks.len() == 3 {
                CommandModel::Put(toks[1], toks[2])
            } else {
                CommandModel::Malformed
            }
        } else {
            CommandModel::Malformed
        }
    }
}

/// Splits a byte sequence into its whitespace-separated tokens.
fn tokenize(s: &[u8]) -> (toks: Vec<Vec<u8>>)
    ensures
        toks@.map_values(|t: Vec<u8>| t@) == tokens_of(s@),
{
    let mut toks: Vec<Vec<u8>> = Vec::new();
    let mut cur: Vec<u8> = Vec::new();
    let mut i: usize = 0;
    while i < s.len()
        invariant
            0 <= i <= s@.len(),
            i > 0 ==> (cur@.len() > 0 <==> !is_space(s@[i - 1])),
            i == 0 ==> cur@.len() == 0,
            cur@.len() == 0 ==> toks@.map_values(|t: Vec<u8>| t@) == tokens_of(s@.take(i as int)),
            cur@.len() > 0 ==> toks@.map_values(|t: Vec<u8>| t@).push(cur@) == tokens_of(
                s@.take(i as int),
            ),
        decreases s@.len() - i,
    {
        let ghost prev = s@.take(i as int);
        assert(s@.take(i + 1).drop_last() =~= prev);
        assert(s@.take(i + 1).last() == s@[i as int]);
        let b = s[i];
        if b == 32 || (9 <= b && b <= 13) {
            if cur.len() > 0 {
                toks.push(cur);
                cur = Vec::new();
            }
            assert(toks@.map_values(|t: Vec<u8>| t@) =~= tokens_of(s@.take(i + 1)));
        } else {
            let ghost old_cur = cur@;
            let ghost old_toks = toks@.map_values(|t: Vec<u8>| t@);
            let was_empty = cur.len() == 0;
            cur.push(b);
            if was_empty {
                assert(cur@ =~= seq![b]);
                assert(tokens_of(s@.take(i + 1)) == tokens_of(prev).push(seq![b]));
                assert(toks@.map_values(|t: Vec<u8>| t@).push(cur@) =~= tokens_of(
                    s@.take(i + 1),
                ));
            } else {
                assert(prev.len() > 0 && !is_space(prev.last()));
                assert(tokens_of(s@.take(i + 1)) == tokens_of(prev).update(
                    tokens_of(prev).len() - 1,
                    tokens_of(prev).last().push(b),
                ));
                assert(tokens_of(prev) == old_toks.push(old_cur));
                assert(tokens_of(prev).last() == old_cur);
                assert(tokens_of(prev).update(tokens_of(prev).len() - 1, old_cur.push(b))
                    =~= old_toks.push(old_cur.push(b)));
                assert(toks@.map_values(|t: Vec<u8>| t@).push(cur@) =~= old_toks.push(
                    old_cur.push(b),
                ));
            }
        }
        i = i + 1;
    }
    assert(s@.take(s@.len() as int) =~= s@);
    if cur.len() > 0 {
        toks.push(cur);
        assert(toks@.map_values(|t: Vec<u8>| t@) =~= tokens_of(s@));
    } else {
        assert(toks@.map_values(|t: Vec<u8>| t@) =~= tokens_of(s@));
    }
    toks
}

/// Whether a token is exactly the given three-byte keyword.
fn is_keyword(t: &Vec<u8>, a: u8, b: u8, c: u8) -> (r: bool)
    ensures
        r == (t@ == seq![a, b, c]),
{
    if t.len() == 3 && t[0] == a && t[1] == b && t[2] == c {
        assert(t@ =~= seq![a, b, c]);
        true
    } else {
        assert(t@ == seq![a, b, c] ==> t@.len() == 3 && t@[0] == a && t@[1] == b && t@[2] == c);
        false
    }
}

impl Command {
    /// Parses one line of bytes (without its trailing newline) into a
    /// command. Total and deterministic: every line yields exactly the
    /// command that `parse_model` assigns to it.
    pub fn parse(line: &[u8]) -> (r: Command)
        ensures
            r@ == parse_model(line@),
    {
        if !utf8_ok(line) {
            return Command::Malformed;
        }
        let mut toks = tokenize(line);
        let ghost model = toks@.map_values(|t: Vec<u8>| t@);
        if toks.len() < 2 {
            return Command::Malformed;
        }
        assert(model[0] == toks@[0]@ && model[1] == toks@[1]@);
        if is_keyword(&toks[0], 71, 69, 84) {
            if toks.len() == 2 {
                let key = toks.remove(1);
                Command::Get(key)
            } else {
                Command::Malformed
            }
        } else if is_keyword(&toks[0], 80, 85, 84) {
            if toks.len() == 3 {
                assert(model[2] == toks@[2]@);
                let value = toks.remove(2);
                let key = toks.remove(1);
                Command::Put(key, value)
            } else {
                Command::Malformed
            }
        } else {
            Command::Malformed
        }
    }
}

} // verus!
