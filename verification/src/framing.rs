//! Framing: an inbound byte stream is cut at newline bytes into complete
//! frames, leaving the trailing unterminated bytes as the residue. The main
//! law here is split invariance: delivering a stream in any number of
//! chunks yields the same frames, in the same order, as delivering it
//! whole.

use vstd::prelude::*;
use crate::codec::{parse_model, CommandModel};

verus! {

/// The frame delimiter: one newline byte.
pub open spec fn delimiter() -> u8 {
    10
}

/// The bytes after the last delimiter: the trailing partial frame that a
/// later chunk may complete.
pub open spec fn residue_of(s: Seq<u8>) -> Seq<u8>
    decreases s.len(),
{
    if s.len() == 0 {
        Seq::empty()
    } else if s.last() == delimiter() {
        Seq::empty()
    } else {
        residue_of(s.drop_last()).push(s.last())
    }
}

/// The complete frames of a byte stream, in arrival order, each without its
/// trailing delimiter.
pub open spec fn frames_of(s: Seq<u8>) -> Seq<Seq<u8>>
    decreases s.len(),
{
    if s.len() == 0 {
        Seq::empty()
    } else if s.last() == delimiter() {
        frames_of(s.drop_last()).push(residue_of(s.drop_last()))
    } else {
        frames_of(s.drop_last())
    }
}

/// The commands carried by a byte stream: each complete frame, parsed.
pub open spec fn commands_of(s: Seq<u8>) -> Seq<CommandModel> {
    frames_of(s).map_values(|f: Seq<u8>| parse_model(f))
}

/// The residue never contains a delimiter.
pub proof fn lemma_residue_no_delimiter(s: Seq<u8>)
    ensures
        forall|i: int| 0 <= i < residue_of(s).len() ==> residue_of(s)[i] != delimiter(),
    decreases s.len(),
{
    if s.len() == 0 {
    } else if s.last() == delimiter() {
    } else {
        lemma_residue_no_delimiter(s.drop_last());
        assert forall|i: int| 0 <= i < residue_of(s).len() implies residue_of(s)[i]
            != delimiter() by {
            if i < residue_of(s.drop_last()).len() {
                assert(residue_of(s)[i] == residue_of(s.drop_last())[i]);
            } else {
                assert(residue_of(s)[i] == s.last());
            }
        }
    }
}

/// A stream without a delimiter has no complete frame: it is all residue.
pub proof fn lemma_all_residue(s: Seq<u8>)
    requires
        forall|i: int| 0 <= i < s.len() ==> s[i] != delimiter(),
    ensures
        frames_of(s) == Seq::<Seq<u8>>::empty(),
        residue_of(s) == s,
    decreases s.len(),
{
    if s.len() == 0 {
        assert(residue_of(s) =~= s);
    } else {
        assert(s.last() != delimiter());
        assert(forall|i: int| 0 <= i < s.drop_last().len() ==> s.drop_last()[i] != delimiter());
        lemma_all_residue(s.drop_last());
        assert(residue_of(s) =~= s);
    }
}

/// Appending a chunk to a stream yields the frames of the stream followed
/// by the frames that the chunk completes out of the stream's residue; the
/// new residue depends only on the old residue and the chunk.
pub proof fn lemma_frames_append(x: Seq<u8>, d: Seq<u8>)
    ensures
        frames_of(x + d) == frames_of(x) + frames_of(residue_of(x) + d),
        residue_of(x + d) == residue_of(residue_of(x) + d),
    decreases d.len(),
{
    if d.len() == 0 {
        assert(x + d =~= x);
        assert(residue_of(x) + d =~= residue_of(x));
        lemma_residue_no_delimiter(x);
        lemma_all_residue(residue_of(x));
        assert(frames_of(x) + frames_of(residue_of(x)) =~= frames_of(x));
    } else {
        let e = d.drop_last();
        let b = d.last();
        lemma_frames_append(x, e);
        assert((x + d).drop_last() =~= x + e);
        assert((x + d).last() == b);
        assert((residue_of(x) + d).drop_last() =~= residue_of(x) + e);
        assert((residue_of(x) + d).last() == b);
        if b == delimiter() {
            assert(frames_of(x + d) == frames_of(x + e).push(residue_of(x + e)));
            assert(frames_of(residue_of(x) + d) == frames_of(residue_of(x) + e).push(
                residue_of(residue_of(x) + e),
            ));
            assert(frames_of(x + d) =~= frames_of(x) + frames_of(residue_of(x) + d));
            assert(residue_of(x + d) =~= residue_of(residue_of(x) + d));
        } else {
            assert(frames_of(x + d) == frames_of(x + e));
            assert(frames_of(residue_of(x) + d) == frames_of(residue_of(x) + e));
            assert(residue_of(x + d) == residue_of(x + e).push(b));
            assert(residue_of(residue_of(x) + d) == residue_of(residue_of(x) + e).push(b));
        }
    }
}

/// Split invariance: an accumulator receiving two chunks extracts, over the
/// two deliveries together, exactly the frames of the whole stream, and is
/// left with the same residue — cutting a stream at any read boundary never
/// changes the frame sequence.
pub proof fn lemma_split_invariance(acc: Seq<u8>, d1: Seq<u8>, d2: Seq<u8>)
    ensures
        frames_of(acc + d1) + frames_of(residue_of(acc + d1) + d2) == frames_of(acc + (d1 + d2)),
        residue_of(residue_of(acc + d1) + d2) == residue_of(acc + (d1 + d2)),
{
    lemma_frames_append(acc + d1, d2);
    assert((acc + d1) + d2 =~= acc + (d1 + d2));
}

/// Split invariance at the command level: the commands extracted over the
/// two deliveries, concatenated, are the commands of the whole stream.
pub proof fn lemma_split_invariance_commands(acc: Seq<u8>, d1: Seq<u8>, d2: Seq<u8>)
    ensures
        commands_of(acc + d1) + commands_of(residue_of(acc + d1) + d2) == commands_of(
            acc + (d1 + d2),
        ),
{
    lemma_split_invariance(acc, d1, d2);
    assert(commands_of(acc + d1) + commands_of(residue_of(acc + d1) + d2) =~= (frames_of(acc + d1)
        + frames_of(residue_of(acc + d1) + d2)).map_values(|f: Seq<u8>| parse_model(f)));
}

} // verus!
