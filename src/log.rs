//! What a sequence of segments means: the contents that replaying their
//! records in order produces.
use vstd::prelude::*;

use crate::codec::{
    decode_record, encode_record, lemma_decode_encode, lemma_decode_prefix, record_fits, Decoded,
};
use crate::command::CommandView;

verus! {

/// The contents after one record is applied to `m`.
pub open spec fn apply_command(
    m: Map<Seq<char>, Seq<char>>,
    c: CommandView,
) -> Map<Seq<char>, Seq<char>> {
    match c {
        CommandView::Put { key, value } => m.insert(key, value),
        CommandView::Rm { key } => m.remove(key),
    }
}

/// The contents after the records of one segment are applied to `m`, up to
/// its end or to a record cut short; `None` if the segment holds bytes that
/// are no record.
pub open spec fn replay_log(m: Map<Seq<char>, Seq<char>>, b: Seq<u8>) -> Option<
    Map<Seq<char>, Seq<char>>,
>
    decreases b.len(),
{
    match decode_record(b) {
        Decoded::End => Some(m),
        Decoded::Corrupt => None,
        Decoded::Record { cmd, len } => if 0 < len <= b.len() {
            replay_log(apply_command(m, cmd), b.subrange(len as int, b.len() as int))
        } else {
            None
        },
    }
}

/// The segment is a sequence of whole records, with nothing after the last.
pub open spec fn is_whole_log(b: Seq<u8>) -> bool
    decreases b.len(),
{
    if b.len() == 0 {
        true
    } else {
        match decode_record(b) {
            Decoded::Record { cmd, len } => 0 < len <= b.len() && is_whole_log(
                b.subrange(len as int, b.len() as int),
            ),
            _ => false,
        }
    }
}

/// The contents that replaying the segments in order, oldest first, produces
/// from an empty store.
pub open spec fn replay_segments(segs: Seq<Seq<u8>>) -> Option<Map<Seq<char>, Seq<char>>>
    decreases segs.len(),
{
    if segs.len() == 0 {
        Some(Map::empty())
    } else {
        match replay_segments(segs.drop_last()) {
            Some(m) => replay_log(m, segs.last()),
            None => None,
        }
    }
}

/// Once a run of segments fails to replay, so does any longer run that
/// starts with it.
pub proof fn lemma_replay_failure_persists(segs: Seq<Seq<u8>>, k: int)
    requires
        0 <= k <= segs.len(),
        replay_segments(segs.subrange(0, k)) is None,
    ensures
        replay_segments(segs) is None,
    decreases segs.len(),
{
    if segs.len() == k {
        assert(segs.subrange(0, k) =~= segs);
    } else {
        assert(segs.drop_last().subrange(0, k) =~= segs.subrange(0, k));
        lemma_replay_failure_persists(segs.drop_last(), k);
    }
}

/// Appending a record to a whole segment applies that record to what the
/// segment replays to, and leaves the segment whole.
pub proof fn lemma_replay_append(m: Map<Seq<char>, Seq<char>>, b: Seq<u8>, c: CommandView)
    requires
        is_whole_log(b),
        replay_log(m, b) is Some,
        record_fits(c),
    ensures
        is_whole_log(b + encode_record(c)),
        replay_log(m, b + encode_record(c)) == Some(apply_command(replay_log(m, b)->0, c)),
    decreases b.len(),
{
    let e = encode_record(c);
    if b.len() == 0 {
        assert(b + e =~= e);
        assert(e + Seq::<u8>::empty() =~= e);
        lemma_decode_encode(c, Seq::<u8>::empty());
        let rest = e.subrange(e.len() as int, e.len() as int);
        assert(rest =~= Seq::<u8>::empty());
        assert(decode_record(rest) == Decoded::End);
        assert(replay_log(apply_command(m, c), rest) == Some(apply_command(m, c)));
        assert(is_whole_log(rest));
        assert(replay_log(m, e) == replay_log(apply_command(m, c), rest));
        assert(is_whole_log(e));
    } else {
        let cmd = decode_record(b)->cmd;
        let len = decode_record(b)->len;
        lemma_decode_prefix(b, e);
        let rest = b.subrange(len as int, b.len() as int);
        assert((b + e).subrange(len as int, (b + e).len() as int) =~= rest + e);
        assert(replay_log(m, b) == replay_log(apply_command(m, cmd), rest));
        lemma_replay_append(apply_command(m, cmd), rest, c);
        assert(replay_log(m, b + e) == replay_log(apply_command(m, cmd), rest + e));
    }
}

/// The number of whole records at the front of a segment.
pub open spec fn record_count(b: Seq<u8>) -> nat
    decreases b.len(),
{
    match decode_record(b) {
        Decoded::Record { cmd, len } => if 0 < len <= b.len() {
            1 + record_count(b.subrange(len as int, b.len() as int))
        } else {
            0
        },
        _ => 0,
    }
}

/// The record assigns to a key of `m` the value that `m` holds there.
pub open spec fn is_live(c: CommandView, m: Map<Seq<char>, Seq<char>>) -> bool {
    &&& c is Put
    &&& m.contains_key(c->Put_key)
    &&& m[c->Put_key] == c->Put_value
}

/// Every whole record of the segment is live in `m`.
pub open spec fn all_live(b: Seq<u8>, m: Map<Seq<char>, Seq<char>>) -> bool
    decreases b.len(),
{
    match decode_record(b) {
        Decoded::Record { cmd, len } => if 0 < len <= b.len() {
            is_live(cmd, m) && all_live(b.subrange(len as int, b.len() as int), m)
        } else {
            true
        },
        _ => true,
    }
}

/// Appending a record to a whole segment adds one record, live exactly when
/// the appended one is.
pub proof fn lemma_count_append(b: Seq<u8>, c: CommandView, m: Map<Seq<char>, Seq<char>>)
    requires
        is_whole_log(b),
        record_fits(c),
    ensures
        record_count(b + encode_record(c)) == record_count(b) + 1,
        all_live(b + encode_record(c), m) == (all_live(b, m) && is_live(c, m)),
    decreases b.len(),
{
    let e = encode_record(c);
    if b.len() == 0 {
        assert(b + e =~= e);
        assert(e + Seq::<u8>::empty() =~= e);
        lemma_decode_encode(c, Seq::<u8>::empty());
        let rest = e.subrange(e.len() as int, e.len() as int);
        assert(rest =~= Seq::<u8>::empty());
        assert(decode_record(rest) == Decoded::End);
        assert(record_count(rest) == 0);
        assert(all_live(rest, m));
        assert(decode_record(b) == Decoded::End);
    } else {
        let len = decode_record(b)->len;
        lemma_decode_prefix(b, e);
        let rest = b.subrange(len as int, b.len() as int);
        assert((b + e).subrange(len as int, (b + e).len() as int) =~= rest + e);
        lemma_count_append(rest, c, m);
    }
}

} // verus!
