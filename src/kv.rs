//! The store: keydir, segments, stale-byte accounting and compaction.
use std::collections::HashMap;
use vstd::hash_map::StringHashMap;
use vstd::prelude::*;

use crate::codec::{
    append_bytes, decode_command, decode_record, encode_command, encode_record,
    lemma_decode_encode, lemma_decoded_len, lemma_encode_decode, record_fits, Decoded,
};
use crate::command::{CommandPos, CommandView, DataCommand};
use crate::effect::{apply_effect, apply_effects, lemma_apply_concat, lemma_apply_push, Effect};
use crate::error::KvsError;
use crate::log::{
    all_live, apply_command, is_whole_log, lemma_count_append, lemma_replay_append,
    lemma_replay_failure_persists, record_count, replay_log, replay_segments,
};

verus! {

broadcast use vstd::std_specs::hash::group_hash_axioms;

/// Stale bytes above which the next `set` compacts the segments.
pub const MAX_USELESS_SIZE: u64 = 0x10000;

/// The record at `p` in `segs` assigns `v` to `k`.
pub open spec fn entry_holds(
    segs: Map<u64, Seq<u8>>,
    k: Seq<char>,
    p: CommandPos,
    v: Seq<char>,
) -> bool {
    let c = CommandView::Put { key: k, value: v };
    &&& record_fits(c)
    &&& segs.contains_key(p.file_id)
    &&& p.value_pos + p.value_size <= segs[p.file_id].len()
    &&& segs[p.file_id].subrange(p.value_pos as int, p.value_pos + p.value_size)
        == encode_record(c)
}

/// Some string of `keys` has the characters `k`.
pub open spec fn lists_key(keys: Seq<String>, k: Seq<char>) -> bool {
    exists|i: int| 0 <= i < keys.len() && (#[trigger] keys[i]@) == k
}

/// The bytes of each segment of a listing, in its order.
pub open spec fn segment_images(segs: Seq<(u64, Vec<u8>)>) -> Seq<Seq<u8>> {
    segs.map_values(|x: (u64, Vec<u8>)| x.1@)
}

/// The generations of a listing of segments rise strictly.
pub open spec fn gens_ascending(segs: Seq<(u64, Vec<u8>)>) -> bool {
    forall|i: int, j: int| 0 <= i < j < segs.len() ==> segs[i].0 < segs[j].0
}

/// The generation that a store opened on a listing writes to: one past the
/// newest, or 1 for an empty directory.
pub open spec fn next_gen(segs: Seq<(u64, Vec<u8>)>) -> int {
    if segs.len() == 0 {
        1
    } else {
        segs.last().0 + 1
    }
}

/// `m` holds exactly the segments of the listing.
pub open spec fn holds_segments(m: Map<u64, Seq<u8>>, segs: Seq<(u64, Vec<u8>)>) -> bool {
    &&& forall|i: int|
        0 <= i < segs.len() ==> #[trigger] m.contains_key(segs[i].0) && m[segs[i].0] == segs[i].1@
    &&& forall|g: u64| #[trigger] m.contains_key(g) ==> exists|i: int| 0 <= i < segs.len() && segs[i].0 == g
}

/// The listing in reverse order, so that popping yields the oldest first.
fn reversed(segments: Vec<(u64, Vec<u8>)>) -> (rev: Vec<(u64, Vec<u8>)>)
    ensures
        rev@.len() == segments@.len(),
        forall|t: int| 0 <= t < rev@.len() ==> #[trigger] rev@[t] == segments@[segments@.len() - 1 - t],
{
    let ghost orig = segments@;
    let n = segments.len();
    let mut segments = segments;
    let mut rev: Vec<(u64, Vec<u8>)> = Vec::new();
    while segments.len() > 0
        invariant
            n == orig.len(),
            segments@ == orig.subrange(0, segments@.len() as int),
            rev@.len() + segments@.len() == n,
            forall|t: int| 0 <= t < rev@.len() ==> #[trigger] rev@[t] == orig[n - 1 - t],
        decreases segments@.len(),
    {
        let x = segments.pop().unwrap();
        rev.push(x);
        assert(segments@ =~= orig.subrange(0, segments@.len() as int));
    }
    rev
}

/// `a + b`, or `u64::MAX` where the sum does not fit.
pub open spec fn sat_add(a: u64, b: u64) -> u64 {
    if a + b > u64::MAX {
        u64::MAX
    } else {
        (a + b) as u64
    }
}

/// The keydir and stale-byte count after one record, of `len` bytes at
/// offset `pos` of segment `gen`, is replayed: an assignment points its key
/// at the record and makes the record it replaces stale; a tombstone drops
/// its key and makes both the removed record and itself stale.
pub open spec fn index_step(
    dir: Map<Seq<char>, CommandPos>,
    stale: u64,
    gen: u64,
    c: CommandView,
    pos: int,
    len: nat,
) -> (Map<Seq<char>, CommandPos>, u64) {
    match c {
        CommandView::Put { key, .. } => (
            dir.insert(key, CommandPos { file_id: gen, value_size: len as u64, value_pos: pos as u64 }),
            if dir.contains_key(key) {
                sat_add(stale, dir[key].value_size)
            } else {
                stale
            },
        ),
        CommandView::Rm { key } => (
            dir.remove(key),
            sat_add(
                if dir.contains_key(key) {
                    sat_add(stale, dir[key].value_size)
                } else {
                    stale
                },
                len as u64,
            ),
        ),
    }
}

/// The keydir and stale-byte count after replaying the records of segment
/// `gen` from offset `pos` on, up to its end or to a record cut short.
pub open spec fn replay_index(
    dir: Map<Seq<char>, CommandPos>,
    stale: u64,
    gen: u64,
    b: Seq<u8>,
    pos: int,
) -> (Map<Seq<char>, CommandPos>, u64)
    decreases b.len() - pos,
{
    if !(0 <= pos < b.len()) {
        (dir, stale)
    } else {
        match decode_record(b.subrange(pos, b.len() as int)) {
            Decoded::Record { cmd, len } => if 0 < len <= b.len() - pos {
                let next = index_step(dir, stale, gen, cmd, pos, len);
                replay_index(next.0, next.1, gen, b, pos + len)
            } else {
                (dir, stale)
            },
            _ => (dir, stale),
        }
    }
}

/// The keydir and stale-byte count after replaying a listing of segments,
/// oldest first, from an empty store.
pub open spec fn index_segments(segs: Seq<(u64, Vec<u8>)>) -> (Map<Seq<char>, CommandPos>, u64)
    decreases segs.len(),
{
    if segs.len() == 0 {
        (Map::empty(), 0)
    } else {
        let prev = index_segments(segs.drop_last());
        replay_index(prev.0, prev.1, segs.last().0, segs.last().1@, 0)
    }
}

/// The byte ranges of two locations do not overlap.
pub open spec fn disjoint_ranges(p: CommandPos, q: CommandPos) -> bool {
    p.value_pos + p.value_size <= q.value_pos || q.value_pos + q.value_size <= p.value_pos
}

/// Byte `i` of a segment lies within the record at some location of `locs`.
pub open spec fn covered(locs: Map<Seq<char>, CommandPos>, i: int) -> bool {
    exists|k: Seq<char>|
        locs.contains_key(k) && locs[k].value_pos <= i < locs[k].value_pos + (
        #[trigger] locs[k]).value_size
}

/// A string key/value store over log segments.
///
/// The newest segment is active and takes every appended record; the others
/// are read-only. The keydir maps each live key to its latest assignment.
pub struct KvStore {
    /// Location of the latest assignment of each live key.
    key_dir: StringHashMap<CommandPos>,
    /// Every live key, perhaps with keys removed since the last compaction,
    /// perhaps more than once; compaction walks it.
    keys: Vec<String>,
    /// The read-only segments, by generation.
    readers: HashMap<u64, Vec<u8>>,
    /// The generations of the read-only segments, ascending.
    reader_gens: Vec<u64>,
    /// Generation of the active segment, above every read-only one.
    active_gen: u64,
    /// The active segment.
    active: Vec<u8>,
    /// Bytes held by records that no keydir entry points at.
    useless_size: u64,
    /// Changes to the segment files not yet handed out.
    pending: Vec<Effect>,
    /// What the store holds: the value of each live key.
    contents: Ghost<Map<Seq<char>, Seq<char>>>,
    /// The segment files as of the last hand-out of effects.
    flushed: Ghost<Map<u64, Seq<u8>>>,
}

impl View for KvStore {
    type V = Map<Seq<char>, Seq<char>>;

    closed spec fn view(&self) -> Map<Seq<char>, Seq<char>> {
        self.contents@
    }
}

impl KvStore {
    /// The bytes of every segment, by generation.
    pub closed spec fn segments(&self) -> Map<u64, Seq<u8>> {
        Map::new(
            |g: u64| g == self.active_gen || self.readers@.contains_key(g),
            |g: u64|
                if g == self.active_gen {
                    self.active@
                } else {
                    self.readers@[g]@
                },
        )
    }

    /// The bytes of every segment, oldest first; the active one is last.
    pub closed spec fn images(&self) -> Seq<Seq<u8>> {
        self.reader_gens@.map_values(|g: u64| self.readers@[g]@).push(self.active@)
    }

    /// The segment files as they stood when the queued effects were last taken.
    pub closed spec fn disk(&self) -> Map<u64, Seq<u8>> {
        self.flushed@
    }

    /// The effects queued since they were last taken.
    pub closed spec fn pending(&self) -> Seq<Effect> {
        self.pending@
    }

    /// The generation of the active segment.
    pub closed spec fn spec_active_gen(&self) -> u64 {
        self.active_gen
    }

    /// The generations of the segments, oldest first; the active one is last.
    pub closed spec fn gens(&self) -> Seq<u64> {
        self.reader_gens@.push(self.active_gen)
    }

    /// Where the latest record of each live key stands.
    pub closed spec fn locations(&self) -> Map<Seq<char>, CommandPos> {
        self.key_dir@
    }

    /// The next `set` compacts first: enough bytes are stale, and a
    /// generation is left for the new segment.
    pub open spec fn compacts(&self) -> bool {
        self.spec_useless_size() > MAX_USELESS_SIZE && self.spec_active_gen() < u64::MAX
    }

    /// The count of stale bytes that decides when to compact.
    pub closed spec fn spec_useless_size(&self) -> u64 {
        self.useless_size
    }

    /// The store's internal invariant.
    pub closed spec fn wf(&self) -> bool {
        &&& !self.readers@.contains_key(self.active_gen)
        &&& forall|i: int|
            0 <= i < self.reader_gens.len() ==> #[trigger] self.readers@.contains_key(
                self.reader_gens[i],
            ) && self.reader_gens[i] < self.active_gen
        &&& forall|i: int, j: int|
            0 <= i < j < self.reader_gens.len() ==> self.reader_gens[i] < self.reader_gens[j]
        &&& forall|g: u64| #[trigger]
            self.readers@.contains_key(g) ==> exists|i: int|
                0 <= i < self.reader_gens.len() && self.reader_gens[i] == g
        &&& self.key_dir@.dom() == self.contents@.dom()
        &&& forall|k: Seq<char>| #[trigger]
            self.key_dir@.contains_key(k) ==> entry_holds(
                self.segments(),
                k,
                self.key_dir@[k],
                self.contents@[k],
            )
        &&& forall|k: Seq<char>|
            #[trigger] self.key_dir@.contains_key(k) ==> lists_key(self.keys@, k)
        &&& is_whole_log(self.active@)
        &&& replay_segments(self.images()) == Some(self.contents@)
        &&& apply_effects(self.flushed@, self.pending@) == self.segments()
    }

    /// The segment of generation `gen`, if the store has one.
    fn segment_of(&self, gen: u64) -> (r: Option<&Vec<u8>>)
        requires
            self.wf(),
        ensures
            match r {
                Some(s) => self.segments().contains_key(gen) && s@ == self.segments()[gen],
                None => !self.segments().contains_key(gen),
            },
    {
        if gen == self.active_gen {
            Some(&self.active)
        } else {
            self.readers.get(&gen)
        }
    }

    /// Reads the value that the keydir entry `p` of key `k` points at.
    fn read_value(&self, k: Ghost<Seq<char>>, p: CommandPos) -> (r: Result<String, KvsError>)
        requires
            self.wf(),
            self.key_dir@.contains_key(k@),
            self.key_dir@[k@] == p,
        ensures
            r matches Ok(v) && v@ == self@[k@],
    {
        let ghost c = CommandView::Put { key: k@, value: self.contents@[k@] };
        assert(entry_holds(self.segments(), k@, p, self.contents@[k@]));
        match self.segment_of(p.file_id) {
            Some(seg) => {
                let len = seg.len();
                if p.value_pos > len as u64 || p.value_size > len as u64 - p.value_pos {
                    return Err(KvsError::UnexpectedCommandType);
                }
                let start = p.value_pos as usize;
                let end = start + p.value_size as usize;
                proof {
                    lemma_decode_encode(c, Seq::<u8>::empty());
                    assert(encode_record(c) + Seq::<u8>::empty() =~= encode_record(c));
                }
                match decode_command(seg.as_slice(), start, end) {
                    Ok(Some((DataCommand::Put { value, .. }, _))) => Ok(value),
                    Ok(_) => Err(KvsError::UnexpectedCommandType),
                    Err(e) => Err(e),
                }
            },
            None => Err(KvsError::UnexpectedCommandType),
        }
    }

    /// The value of `key`, or `None` if it has none.
    pub fn get(&self, key: String) -> (r: Result<Option<String>, KvsError>)
        requires
            self.wf(),
        ensures
            r is Ok,
            match r {
                Ok(Some(v)) => self@.contains_key(key@) && v@ == self@[key@],
                _ => !self@.contains_key(key@),
            },
    {
        match self.key_dir.get(key.as_str()) {
            Some(p) => {
                let v = self.read_value(Ghost(key@), *p)?;
                Ok(Some(v))
            },
            None => Ok(None),
        }
    }

    /// Appends `bytes` to the active segment and queues the matching effect;
    /// returns the offset at which they start.
    fn append_active(&mut self, bytes: Vec<u8>) -> (pos: usize)
        ensures
            pos == old(self).active@.len(),
            final(self).active@ == old(self).active@ + bytes@,
            final(self).pending@ == old(self).pending@.push(
                Effect::Append { gen: old(self).active_gen, bytes },
            ),
            final(self).key_dir == old(self).key_dir,
            final(self).keys == old(self).keys,
            final(self).readers == old(self).readers,
            final(self).reader_gens == old(self).reader_gens,
            final(self).active_gen == old(self).active_gen,
            final(self).useless_size == old(self).useless_size,
            final(self).contents == old(self).contents,
            final(self).flushed == old(self).flushed,
    {
        let pos = self.active.len();
        append_bytes(&mut self.active, bytes.as_slice());
        self.pending.push(Effect::Append { gen: self.active_gen, bytes });
        pos
    }

    /// After `append_active` of record `c` on a well-formed store: every
    /// part of the invariant that does not involve the keydir still holds,
    /// with the contents of the segments taken to have `c` applied.
    proof fn lemma_append_active(old_s: &KvStore, new_s: &KvStore, c: CommandView, pos: int)
        requires
            old_s.wf(),
            record_fits(c),
            pos == old_s.active@.len(),
            new_s.active@ == old_s.active@ + encode_record(c),
            new_s.pending@ == old_s.pending@.push(
                Effect::Append { gen: old_s.active_gen, bytes: new_s.pending@.last()->bytes },
            ),
            new_s.pending@.last()->bytes@ == encode_record(c),
            new_s.readers == old_s.readers,
            new_s.reader_gens == old_s.reader_gens,
            new_s.active_gen == old_s.active_gen,
            new_s.flushed == old_s.flushed,
        ensures
            new_s.segments() == old_s.segments().insert(old_s.active_gen, new_s.active@),
            is_whole_log(new_s.active@),
            replay_segments(new_s.images()) == Some(apply_command(old_s.contents@, c)),
            apply_effects(new_s.flushed@, new_s.pending@) == new_s.segments(),
            new_s.segments()[old_s.active_gen].subrange(pos, pos + encode_record(c).len())
                == encode_record(c),
            forall|k: Seq<char>, p: CommandPos, v: Seq<char>|
                entry_holds(old_s.segments(), k, p, v) ==> entry_holds(new_s.segments(), k, p, v),
    {
        let g = old_s.active_gen;
        let e = encode_record(c);
        assert(new_s.segments() =~= old_s.segments().insert(g, new_s.active@));
        let prefix = old_s.reader_gens@.map_values(|gg: u64| old_s.readers@[gg]@);
        assert(old_s.images().drop_last() =~= prefix);
        assert(new_s.images().drop_last() =~= prefix);
        assert(new_s.images().last() == new_s.active@);
        let m = replay_segments(prefix)->0;
        lemma_replay_append(m, old_s.active@, c);
        lemma_apply_push(old_s.flushed@, old_s.pending@, new_s.pending@.last());
        assert(new_s.pending@ =~= old_s.pending@.push(new_s.pending@.last()));
        assert(apply_effects(new_s.flushed@, new_s.pending@) =~= new_s.segments());
        assert(new_s.active@.subrange(pos, pos + e.len()) =~= e);
        assert forall|k: Seq<char>, p: CommandPos, v: Seq<char>|
            entry_holds(old_s.segments(), k, p, v) implies entry_holds(
            new_s.segments(),
            k,
            p,
            v,
        ) by {
            if p.file_id == g {
                assert(new_s.active@.subrange(p.value_pos as int, p.value_pos + p.value_size)
                    =~= old_s.active@.subrange(p.value_pos as int, p.value_pos + p.value_size));
            }
        }
    }

    /// Replays the records of segment `gen` into the keydir, in order, up to
    /// the end of `data` or to a record cut short; returns the bytes that the
    /// segment's records made stale, and the contents after them.
    fn replay_segment(
        key_dir: &mut StringHashMap<CommandPos>,
        keys: &mut Vec<String>,
        contents: Ghost<Map<Seq<char>, Seq<char>>>,
        segs: Ghost<Map<u64, Seq<u8>>>,
        gen: u64,
        data: &Vec<u8>,
        stale0: u64,
    ) -> (r: Result<(u64, Ghost<Map<Seq<char>, Seq<char>>>), KvsError>)
        requires
            segs@.contains_key(gen),
            segs@[gen] == data@,
            old(key_dir)@.dom() == contents@.dom(),
            forall|k: Seq<char>| #[trigger]
                old(key_dir)@.contains_key(k) ==> entry_holds(
                    segs@,
                    k,
                    old(key_dir)@[k],
                    contents@[k],
                ) && lists_key(old(keys)@, k),
        ensures
            match r {
                Ok((stale, m)) => {
                    &&& (final(key_dir)@, stale) == replay_index(old(key_dir)@, stale0, gen, data@, 0)
                    &&& replay_log(contents@, data@) == Some(m@)
                    &&& final(key_dir)@.dom() == m@.dom()
                    &&& forall|k: Seq<char>| #[trigger]
                        final(key_dir)@.contains_key(k) ==> entry_holds(
                            segs@,
                            k,
                            final(key_dir)@[k],
                            m@[k],
                        ) && lists_key(final(keys)@, k)
                },
                Err(e) => replay_log(contents@, data@) is None && e == KvsError::Decode,
            },
    {
        let len = data.len();
        let mut pos: usize = 0;
        let mut stale: u64 = stale0;
        let ghost mut m = contents@;
        let ghost dir0 = key_dir@;
        assert(data@.subrange(0, len as int) =~= data@);
        loop
            invariant
                dir0 == old(key_dir)@,
                replay_index(key_dir@, stale, gen, data@, pos as int) == replay_index(
                    dir0,
                    stale0,
                    gen,
                    data@,
                    0,
                ),
                len == data@.len(),
                pos <= len,
                segs@.contains_key(gen),
                segs@[gen] == data@,
                replay_log(m, data@.subrange(pos as int, len as int)) == replay_log(contents@, data@),
                key_dir@.dom() == m.dom(),
                forall|k: Seq<char>| #[trigger]
                    key_dir@.contains_key(k) ==> entry_holds(segs@, k, key_dir@[k], m[k])
                        && lists_key(keys@, k),
            decreases len - pos,
        {
            let ghost rest = data@.subrange(pos as int, len as int);
            match decode_command(data.as_slice(), pos, len) {
                Ok(None) => {
                    assert(replay_index(key_dir@, stale, gen, data@, pos as int) == (key_dir@, stale));
                    return Ok((stale, Ghost(m)));
                },
                Err(e) => {
                    return Err(e);
                },
                Ok(Some((cmd, n))) => {
                    proof {
                        lemma_decoded_len(rest);
                        lemma_encode_decode(rest);
                        assert(data@.subrange(pos as int, pos + n) =~= rest.subrange(0, n as int));
                        assert(rest.subrange(n as int, rest.len() as int) =~= data@.subrange(
                            pos + n,
                            len as int,
                        ));
                        assert(replay_log(m, rest) == replay_log(
                            apply_command(m, cmd@),
                            data@.subrange(pos + n, len as int),
                        ));
                    }
                    let ghost next = index_step(key_dir@, stale, gen, cmd@, pos as int, n as nat);
                    assert(replay_index(key_dir@, stale, gen, data@, pos as int) == replay_index(
                        next.0,
                        next.1,
                        gen,
                        data@,
                        pos + n,
                    ));
                    let ghost old_keys = keys@;
                    let ghost old_dir = key_dir@;
                    let ghost c = cmd@;
                    match cmd {
                        DataCommand::Put { key, value } => {
                            let prior = match key_dir.get(key.as_str()) {
                                Some(p) => Some(p.value_size),
                                None => None,
                            };
                            match prior {
                                Some(sz) => {
                                    stale = stale.saturating_add(sz);
                                },
                                None => {
                                    keys.push(key.clone());
                                },
                            }
                            key_dir.insert(
                                key,
                                CommandPos { file_id: gen, value_size: n as u64, value_pos: pos as u64 },
                            );
                            proof {
                                m = apply_command(m, c);
                                assert(key_dir@ =~= next.0);
                                assert(key_dir@.dom() =~= m.dom());
                                assert forall|k: Seq<char>| #[trigger] key_dir@.contains_key(k) implies entry_holds(
                                    segs@,
                                    k,
                                    key_dir@[k],
                                    m[k],
                                ) && lists_key(keys@, k) by {
                                    if k == c->Put_key && prior is None {
                                        assert(keys@[keys@.len() - 1]@ == k);
                                    } else {
                                        assert(old_dir.contains_key(k));
                                        assert(lists_key(old_keys, k));
                                        let t = choose|t: int| 0 <= t < old_keys.len() && (#[trigger] old_keys[t]@) == k;
                                        assert(keys@[t]@ == k);
                                    }
                                }
                            }
                        },
                        DataCommand::Rm { key } => {
                            let prior = match key_dir.get(key.as_str()) {
                                Some(p) => Some(p.value_size),
                                None => None,
                            };
                            match prior {
                                Some(sz) => {
                                    stale = stale.saturating_add(sz);
                                },
                                None => {},
                            }
                            stale = stale.saturating_add(n as u64);
                            key_dir.remove(key.as_str());
                            proof {
                                m = apply_command(m, c);
                                assert(key_dir@ =~= next.0);
                                assert(key_dir@.dom() =~= m.dom());
                                assert forall|k: Seq<char>| #[trigger] key_dir@.contains_key(k) implies entry_holds(
                                    segs@,
                                    k,
                                    key_dir@[k],
                                    m[k],
                                ) && lists_key(keys@, k) by {
                                    assert(old_dir.contains_key(k));
                                }
                            }
                        },
                    }
                    pos = pos + n;
                },
            }
        }
    }

    /// Opens a store on the segments of a data directory, listed oldest
    /// first: replays them in order and starts a fresh active segment one
    /// generation past the newest.
    #[verifier::rlimit(40)]
    pub fn open(segments: Vec<(u64, Vec<u8>)>) -> (r: Result<KvStore, KvsError>)
        requires
            gens_ascending(segments@),
        ensures
            segments@.len() > 0 && segments@.last().0 == u64::MAX ==> r == Err::<
                KvStore,
                KvsError,
            >(KvsError::GenerationExhausted),
            !(segments@.len() > 0 && segments@.last().0 == u64::MAX) && replay_segments(
                segment_images(segments@),
            ) is None ==> r == Err::<KvStore, KvsError>(KvsError::Decode),
            !(segments@.len() > 0 && segments@.last().0 == u64::MAX) && replay_segments(
                segment_images(segments@),
            ) is Some ==> (r matches Ok(s) && {
                &&& s.wf()
                &&& Some(s@) == replay_segments(segment_images(segments@))
                &&& s.spec_active_gen() == next_gen(segments@)
                &&& holds_segments(s.disk(), segments@)
                &&& s.pending() == seq![Effect::Create { gen: s.spec_active_gen() }]
                &&& (s.locations(), s.spec_useless_size()) == index_segments(segments@)
            }),
    {
        let ghost orig = segments@;
        let n = segments.len();
        let new_gen: u64 = if n == 0 {
            1
        } else {
            let last = segments[n - 1].0;
            if last == u64::MAX {
                return Err(KvsError::GenerationExhausted);
            }
            last + 1
        };
        let mut rev = reversed(segments);
        let mut key_dir: StringHashMap<CommandPos> = StringHashMap::new();
        let mut keys: Vec<String> = Vec::new();
        let mut readers: HashMap<u64, Vec<u8>> = HashMap::new();
        let mut reader_gens: Vec<u64> = Vec::new();
        let mut useless_size: u64 = 0;
        let ghost mut contents: Map<Seq<char>, Seq<char>> = Map::empty();
        let mut j: usize = 0;
        while j < n
            invariant
                orig == segments@,
                n == orig.len(),
                j <= n,
                gens_ascending(orig),
                new_gen == next_gen(orig),
                !(orig.len() > 0 && orig.last().0 == u64::MAX),
                rev@.len() == n - j,
                forall|t: int| 0 <= t < rev@.len() ==> #[trigger] rev@[t] == orig[n - 1 - t],
                reader_gens@.len() == j,
                (key_dir@, useless_size) == index_segments(orig.subrange(0, j as int)),
                forall|t: int| 0 <= t < j ==> #[trigger] reader_gens@[t] == orig[t].0,
                forall|t: int|
                    0 <= t < j ==> #[trigger] readers@.contains_key(orig[t].0) && readers@[orig[t].0]@
                        == orig[t].1@,
                forall|g: u64| #[trigger]
                    readers@.contains_key(g) ==> exists|t: int| 0 <= t < j && orig[t].0 == g,
                replay_segments(segment_images(orig.subrange(0, j as int))) == Some(contents),
                key_dir@.dom() == contents.dom(),
                forall|k: Seq<char>| #[trigger]
                    key_dir@.contains_key(k) ==> entry_holds(
                        Map::new(|g: u64| readers@.contains_key(g), |g: u64| readers@[g]@),
                        k,
                        key_dir@[k],
                        contents[k],
                    ) && lists_key(keys@, k),
            decreases n - j,
        {
            let ghost rev_before = rev@;
            let (g, data) = rev.pop().unwrap();
            assert(rev_before[rev_before.len() - 1] == orig[j as int]);
            let ghost before = Map::new(|g: u64| readers@.contains_key(g), |g: u64| readers@[g]@);
            let ghost segs = before.insert(g, data@);
            proof {
                if readers@.contains_key(g) {
                    let t = choose|t: int| 0 <= t < j && orig[t].0 == g;
                }
                assert forall|k: Seq<char>| #[trigger] key_dir@.contains_key(k) implies entry_holds(
                    segs,
                    k,
                    key_dir@[k],
                    contents[k],
                ) by {
                    assert(entry_holds(before, k, key_dir@[k], contents[k]));
                }
            }
            let replayed = Self::replay_segment(
                &mut key_dir,
                &mut keys,
                Ghost(contents),
                Ghost(segs),
                g,
                &data,
                useless_size,
            );
            proof {
                let pre = segment_images(orig.subrange(0, j as int));
                let post = segment_images(orig.subrange(0, j + 1));
                assert(post.drop_last() =~= pre);
                assert(post.last() == data@);
                assert(orig.subrange(0, j + 1).drop_last() =~= orig.subrange(0, j as int));
            }
            match replayed {
                Err(e) => {
                    proof {
                        assert(replay_segments(segment_images(orig.subrange(0, j + 1))) is None);
                        assert(segment_images(orig).subrange(0, j + 1) =~= segment_images(
                            orig.subrange(0, j + 1),
                        ));
                        lemma_replay_failure_persists(segment_images(orig), j + 1);
                    }
                    return Err(e);
                },
                Ok((stale, m)) => {
                    useless_size = stale;
                    proof {
                        contents = m@;
                    }
                },
            }
            let ghost readers_before = readers@;
            readers.insert(g, data);
            reader_gens.push(g);
            j = j + 1;
            proof {
                assert forall|t: int| 0 <= t < j implies #[trigger] readers@.contains_key(orig[t].0)
                    && readers@[orig[t].0]@ == orig[t].1@ by {
                    if t < j - 1 {
                        assert(orig[t].0 < orig[j - 1].0);
                        assert(readers_before.contains_key(orig[t].0));
                    }
                }
                assert forall|k: Seq<char>| #[trigger] key_dir@.contains_key(k) implies entry_holds(
                    Map::new(|g: u64| readers@.contains_key(g), |g: u64| readers@[g]@),
                    k,
                    key_dir@[k],
                    contents[k],
                ) by {
                    assert(Map::new(|g: u64| readers@.contains_key(g), |g: u64| readers@[g]@) =~= segs);
                }
            }
        }
        let mut pending: Vec<Effect> = Vec::new();
        pending.push(Effect::Create { gen: new_gen });
        proof {
            assert(orig.subrange(0, n as int) =~= orig);
        }
        let ghost rmap = Map::new(|g: u64| readers@.contains_key(g), |g: u64| readers@[g]@);
        proof {
            assert forall|g: u64| readers@.contains_key(g) implies g < new_gen by {
                let t = choose|t: int| 0 <= t < n && orig[t].0 == g;
                if t < n - 1 {
                    assert(orig[t].0 < orig[n - 1].0);
                }
            }
            assert forall|t: int| 0 <= t < n implies orig[t].0 < new_gen by {
                assert(readers@.contains_key(orig[t].0));
            }
        }
        let s = KvStore {
            key_dir,
            keys,
            readers,
            reader_gens,
            active_gen: new_gen,
            active: Vec::new(),
            useless_size,
            pending,
            contents: Ghost(contents),
            flushed: Ghost(rmap),
        };
        proof {
            assert(s.segments() =~= rmap.insert(new_gen, Seq::<u8>::empty()));
            assert forall|k: Seq<char>| #[trigger] s.key_dir@.contains_key(k) implies entry_holds(
                s.segments(),
                k,
                s.key_dir@[k],
                s.contents@[k],
            ) by {
                assert(entry_holds(rmap, k, s.key_dir@[k], s.contents@[k]));
                assert(rmap.contains_key(s.key_dir@[k].file_id));
            }
            assert forall|g: u64| #[trigger] s.readers@.contains_key(g) implies exists|i: int|
                0 <= i < s.reader_gens.len() && s.reader_gens[i] == g by {
                let t = choose|t: int| 0 <= t < n && orig[t].0 == g;
                assert(s.reader_gens[t] == g);
            }
            let prefix = s.reader_gens@.map_values(|g: u64| s.readers@[g]@);
            assert(s.images().drop_last() =~= prefix);
            assert forall|t: int| 0 <= t < n implies prefix[t] == segment_images(orig)[t] by {
                assert(s.reader_gens@[t] == orig[t].0);
                assert(s.readers@.contains_key(orig[t].0));
            }
            assert(prefix =~= segment_images(orig));
            assert(s.images().last() == Seq::<u8>::empty());
            assert(decode_record(Seq::<u8>::empty()) == Decoded::End);
            assert(replay_log(s.contents@, Seq::<u8>::empty()) == Some(s.contents@));
            assert(is_whole_log(s.active@));
            assert(s.pending@.drop_last() =~= Seq::<Effect>::empty());
            assert(apply_effects(rmap, Seq::<Effect>::empty()) == rmap);
            assert(apply_effects(rmap, s.pending@) =~= s.segments());
            assert(s.pending@ =~= seq![Effect::Create { gen: new_gen }]);
        }
        Ok(s)
    }

    /// Rewrites every live record into a fresh active segment, queues the
    /// deletion of every other segment, and clears the stale-byte count.
    ///
    /// Afterwards the one segment left holds one live record per key and
    /// nothing else.
    pub fn compact(&mut self)
        requires
            old(self).wf(),
            old(self).spec_active_gen() < u64::MAX,
        ensures
            final(self).wf(),
            final(self)@ == old(self)@,
            final(self).spec_useless_size() == 0,
            final(self).spec_active_gen() == old(self).spec_active_gen() + 1,
            final(self).segments().dom() == set![final(self).spec_active_gen()],
            is_whole_log(final(self).segments()[final(self).spec_active_gen()]),
            record_count(final(self).segments()[final(self).spec_active_gen()]) == final(self)@.len(),
            all_live(final(self).segments()[final(self).spec_active_gen()], final(self)@),
            final(self).disk() == old(self).disk(),
            final(self).locations().dom() == old(self).locations().dom(),
            forall|k: Seq<char>| #[trigger]
                final(self).locations().contains_key(k) ==> final(self).locations()[k].value_size
                    == old(self).locations()[k].value_size && final(self).locations()[k].file_id
                    == final(self).spec_active_gen() && final(self).locations()[k].value_pos
                    + final(self).locations()[k].value_size <= final(self).segments()[final(self).spec_active_gen()].len(),
            forall|k1: Seq<char>, k2: Seq<char>|
                #![trigger final(self).locations()[k1], final(self).locations()[k2]]
                final(self).locations().contains_key(k1) && final(self).locations().contains_key(k2)
                    && k1 != k2 ==> disjoint_ranges(
                    final(self).locations()[k1],
                    final(self).locations()[k2],
                ),
            forall|b: int|
                0 <= b < final(self).segments()[final(self).spec_active_gen()].len() ==> #[trigger] covered(
                    final(self).locations(),
                    b,
                ),
    {
        let new_gen = self.active_gen + 1;
        let ghost segs0 = self.segments();
        let mut data: Vec<u8> = Vec::new();
        let mut new_dir: StringHashMap<CommandPos> = StringHashMap::new();
        let mut new_keys: Vec<String> = Vec::new();
        let mut moved: Vec<Effect> = Vec::new();
        moved.push(Effect::Create { gen: new_gen });
        let ghost mut m: Map<Seq<char>, Seq<char>> = Map::empty();
        proof {
            if self.readers@.contains_key(new_gen) {
                let t = choose|t: int| 0 <= t < self.reader_gens.len() && self.reader_gens[t] == new_gen;
                assert(self.readers@.contains_key(self.reader_gens[t]));
            }
            assert(!segs0.contains_key(new_gen));
            assert(moved@.drop_last() =~= Seq::<Effect>::empty());
            assert(apply_effects(segs0, Seq::<Effect>::empty()) == segs0);
            assert(apply_effects(segs0, moved@) =~= segs0.insert(new_gen, data@));
            assert(decode_record(data@) == Decoded::End);
            assert(record_count(data@) == 0);
            assert(all_live(data@, self.contents@));
        }
        let mut i: usize = 0;
        while i < self.keys.len()
            invariant
                self.wf(),
                segs0 == self.segments(),
                new_gen == self.active_gen + 1,
                i <= self.keys.len(),
                m.dom().finite(),
                record_count(data@) == m.len(),
                all_live(data@, self.contents@),
                apply_effects(segs0, moved@) == segs0.insert(new_gen, data@),
                is_whole_log(data@),
                replay_log(Map::empty(), data@) == Some(m),
                new_dir@.dom() == m.dom(),
                forall|k: Seq<char>| #[trigger]
                    m.contains_key(k) ==> self.contents@.contains_key(k) && m[k]
                        == self.contents@[k],
                forall|k: Seq<char>| #[trigger]
                    new_dir@.contains_key(k) ==> new_dir@[k].value_size == self.key_dir@[k].value_size,
                forall|k1: Seq<char>, k2: Seq<char>|
                    #![trigger new_dir@[k1], new_dir@[k2]]
                    new_dir@.contains_key(k1) && new_dir@.contains_key(k2) && k1 != k2
                        ==> disjoint_ranges(new_dir@[k1], new_dir@[k2]),
                forall|b: int| 0 <= b < data@.len() ==> #[trigger] covered(new_dir@, b),
                forall|k: Seq<char>| #[trigger]
                    new_dir@.contains_key(k) ==> new_dir@[k].file_id == new_gen && entry_holds(
                        map![new_gen => data@],
                        k,
                        new_dir@[k],
                        m[k],
                    ) && lists_key(new_keys@, k),
                forall|j: int|
                    0 <= j < i && self.key_dir@.contains_key(#[trigger] self.keys[j]@)
                        ==> new_dir@.contains_key(self.keys[j]@),
            decreases self.keys.len() - i,
        {
            let k = &self.keys[i];
            if !new_dir.contains_key(k.as_str()) {
                match self.key_dir.get(k.as_str()) {
                    Some(p) => {
                        let p = *p;
                        match self.read_value(Ghost(k@), p) {
                            Ok(v) => {
                                let cmd = DataCommand::Put { key: k.clone(), value: v };
                                let ghost c = cmd@;
                                let bytes = encode_command(&cmd);
                                let n = bytes.len();
                                let ghost old_data = data@;
                                let ghost old_moved = moved@;
                                let pos = data.len();
                                append_bytes(&mut data, bytes.as_slice());
                                proof {
                                    lemma_apply_push(segs0, old_moved, Effect::Append { gen: new_gen, bytes });
                                    lemma_replay_append(Map::empty(), old_data, c);
                                    lemma_count_append(old_data, c, self.contents@);
                                    assert(data@.subrange(pos as int, pos + n) =~= bytes@);
                                    assert forall|k2: Seq<char>| #[trigger] new_dir@.contains_key(k2)
                                        implies data@.subrange(
                                        new_dir@[k2].value_pos as int,
                                        new_dir@[k2].value_pos + new_dir@[k2].value_size,
                                    ) == old_data.subrange(
                                        new_dir@[k2].value_pos as int,
                                        new_dir@[k2].value_pos + new_dir@[k2].value_size,
                                    ) by {
                                        assert(entry_holds(map![new_gen => old_data], k2, new_dir@[k2], m[k2]));
                                        assert(data@.subrange(
                                            new_dir@[k2].value_pos as int,
                                            new_dir@[k2].value_pos + new_dir@[k2].value_size,
                                        ) =~= old_data.subrange(
                                            new_dir@[k2].value_pos as int,
                                            new_dir@[k2].value_pos + new_dir@[k2].value_size,
                                        ));
                                    }
                                }
                                moved.push(Effect::Append { gen: new_gen, bytes });
                                let ghost old_dir_c = new_dir@;
                                new_dir.insert(
                                    k.clone(),
                                    CommandPos { file_id: new_gen, value_size: n as u64, value_pos: pos as u64 },
                                );
                                let ghost old_keys = new_keys@;
                                new_keys.push(k.clone());
                                proof {
                                    assert forall|b: int| 0 <= b < data@.len() implies #[trigger] covered(
                                        new_dir@,
                                        b,
                                    ) by {
                                        if b < pos {
                                            assert(covered(old_dir_c, b));
                                            let w = choose|w: Seq<char>|
                                                old_dir_c.contains_key(w) && old_dir_c[w].value_pos <= b
                                                    < old_dir_c[w].value_pos + (#[trigger] old_dir_c[w]).value_size;
                                            assert(w != k@);
                                            assert(new_dir@[w] == old_dir_c[w]);
                                        } else {
                                            assert(new_dir@[k@].value_pos <= b < new_dir@[k@].value_pos
                                                + new_dir@[k@].value_size);
                                        }
                                    }
                                    assert(entry_holds(segs0, k@, p, self.contents@[k@]));
                                    m = m.insert(k@, v@);
                                    assert(new_dir@.dom() =~= m.dom());
                                    assert(apply_effects(segs0, moved@) =~= segs0.insert(new_gen, data@));
                                    assert forall|k2: Seq<char>| #[trigger] new_dir@.contains_key(k2)
                                        implies new_dir@[k2].file_id == new_gen && entry_holds(
                                        map![new_gen => data@],
                                        k2,
                                        new_dir@[k2],
                                        m[k2],
                                    ) && lists_key(new_keys@, k2) by {
                                        if k2 == k@ {
                                            assert(new_keys@[new_keys@.len() - 1]@ == k2);
                                        } else {
                                            assert(lists_key(old_keys, k2));
                                            let t = choose|t: int| 0 <= t < old_keys.len()
                                                && (#[trigger] old_keys[t]@) == k2;
                                            assert(new_keys@[t]@ == k2);
                                        }
                                    }
                                }
                            },
                            Err(_) => {},
                        }
                    },
                    None => {},
                }
            }
            i = i + 1;
        }
        proof {
            assert forall|k: Seq<char>| #[trigger] self.contents@.contains_key(k) implies m.contains_key(k) by {
                assert(self.key_dir@.contains_key(k));
                assert(lists_key(self.keys@, k));
                let j = choose|j: int| 0 <= j < self.keys@.len() && (#[trigger] self.keys@[j]@) == k;
                assert(self.key_dir@.contains_key(self.keys[j]@));
            }
            assert(m =~= self.contents@);
        }
        let mut j: usize = 0;
        while j < self.reader_gens.len()
            invariant
                self.wf(),
                segs0 == self.segments(),
                new_gen == self.active_gen + 1,
                j <= self.reader_gens.len(),
                forall|g: u64| #[trigger]
                    apply_effects(segs0, moved@).contains_key(g) <==> (g == new_gen || (
                    segs0.contains_key(g) && forall|t: int|
                        0 <= t < j ==> self.reader_gens[t] != g)),
                forall|g: u64| #[trigger]
                    apply_effects(segs0, moved@).contains_key(g) ==> apply_effects(
                        segs0,
                        moved@,
                    )[g] == segs0.insert(new_gen, data@)[g],
            decreases self.reader_gens.len() - j,
        {
            let g = self.reader_gens[j];
            proof {
                assert(self.readers@.contains_key(self.reader_gens[j as int]));
                let ghost before = apply_effects(segs0, moved@);
                assert(apply_effect(before, Effect::Delete { gen: g }) == before.remove(g));
                lemma_apply_push(segs0, moved@, Effect::Delete { gen: g });
            }
            moved.push(Effect::Delete { gen: g });
            j = j + 1;
        }
        proof {
            lemma_apply_push(segs0, moved@, Effect::Delete { gen: self.active_gen });
        }
        moved.push(Effect::Delete { gen: self.active_gen });
        let ghost pending0 = self.pending@;
        let ghost moved_all = moved@;
        proof {
            let cur = apply_effects(segs0, moved_all);
            assert forall|g: u64| cur.contains_key(g) implies g == new_gen by {
                if g != new_gen && g != self.active_gen {
                    assert(segs0.contains_key(g));
                    assert(self.readers@.contains_key(g));
                    let t = choose|t: int| 0 <= t < self.reader_gens.len() && self.reader_gens[t] == g;
                }
            }
            assert(cur =~= map![new_gen => data@]);
            lemma_apply_concat(self.flushed@, pending0, moved_all);
        }
        self.pending.append(&mut moved);
        self.active = data;
        self.active_gen = new_gen;
        self.readers = HashMap::new();
        self.reader_gens = Vec::new();
        self.key_dir = new_dir;
        self.keys = new_keys;
        self.useless_size = 0;
        proof {
            assert(self.segments() =~= map![new_gen => self.active@]);
            assert(self.images() =~= seq![self.active@]);
            assert(self.images().drop_last() =~= Seq::<Seq<u8>>::empty());
            assert(replay_segments(Seq::<Seq<u8>>::empty()) == Some(Map::<Seq<char>, Seq<char>>::empty()));
            assert(self.images().last() == self.active@);
            assert(replay_log(Map::empty(), self.active@) == Some(self.contents@));
            assert(self.pending@ =~= pending0 + moved_all);
        }
    }

    /// Assigns `value` to `key`, compacting first if enough bytes are stale.
    #[verifier::rlimit(40)]
    pub fn set(&mut self, key: String, value: String) -> (r: Result<(), KvsError>)
        requires
            old(self).wf(),
        ensures
            final(self).wf(),
            r is Ok,
            final(self)@ == old(self)@.insert(key@, value@),
            old(self).compacts() ==> final(self).spec_active_gen() == old(self).spec_active_gen() + 1
                && final(self).segments().dom() == set![final(self).spec_active_gen()],
            !old(self).compacts() ==> final(self).spec_active_gen() == old(self).spec_active_gen(),
            final(self).spec_useless_size() == sat_add(
                if old(self).compacts() {
                    0
                } else {
                    old(self).spec_useless_size()
                },
                if old(self).locations().contains_key(key@) {
                    old(self).locations()[key@].value_size
                } else {
                    0
                },
            ),
            final(self).locations()[key@].file_id == final(self).spec_active_gen(),
            final(self).locations()[key@].value_size == encode_record(
                CommandView::Put { key: key@, value: value@ },
            ).len(),
            final(self).disk() == old(self).disk(),
            final(self).segments().contains_key(final(self).spec_active_gen()),
            final(self).locations()[key@].value_pos + final(self).locations()[key@].value_size
                == final(self).segments()[final(self).spec_active_gen()].len(),
            final(self).segments()[final(self).spec_active_gen()].subrange(
                final(self).locations()[key@].value_pos as int,
                final(self).segments()[final(self).spec_active_gen()].len() as int,
            ) == encode_record(CommandView::Put { key: key@, value: value@ }),
            !old(self).compacts() ==> final(self).segments() == old(self).segments().insert(
                old(self).spec_active_gen(),
                old(self).segments()[old(self).spec_active_gen()] + encode_record(
                    CommandView::Put { key: key@, value: value@ },
                ),
            ),
            !old(self).compacts() ==> final(self).locations() == old(self).locations().insert(
                key@,
                CommandPos {
                    file_id: old(self).spec_active_gen(),
                    value_size: encode_record(CommandView::Put { key: key@, value: value@ }).len() as u64,
                    value_pos: old(self).segments()[old(self).spec_active_gen()].len() as u64,
                },
            ),
            old(self).compacts() ==> final(self).locations().dom() == old(self).locations().dom().insert(key@),
            old(self).compacts() ==> forall|k: Seq<char>| #[trigger]
                final(self).locations().contains_key(k) && k != key@ ==> final(self).locations()[k].file_id == final(self).spec_active_gen() && final(self).locations()[k].value_size == old(self).locations()[k].value_size,
    {
        let ghost before = *self;
        if self.useless_size > MAX_USELESS_SIZE && self.active_gen < u64::MAX {
            self.compact();
            assert(self.locations().contains_key(key@) ==> self.locations()[key@].value_size
                == before.locations()[key@].value_size);
        }
        let cmd = DataCommand::Put { key: key.clone(), value };
        let ghost c = cmd@;
        let bytes = encode_command(&cmd);
        let n = bytes.len();
        let ghost old_s = *self;
        let pos = self.append_active(bytes);
        let ghost mid = *self;
        proof {
            Self::lemma_append_active(&old_s, &mid, c, pos as int);
        }
        let loc = CommandPos { file_id: self.active_gen, value_size: n as u64, value_pos: pos as u64 };
        let prior = match self.key_dir.get(key.as_str()) {
            Some(p) => Some(p.value_size),
            None => None,
        };
        match prior {
            Some(sz) => {
                self.useless_size = self.useless_size.saturating_add(sz);
            },
            None => {
                self.keys.push(key.clone());
            },
        }
        self.key_dir.insert(key, loc);
        proof {
            self.contents@ = self.contents@.insert(c->Put_key, c->Put_value);
            assert(self.key_dir@.dom() =~= self.contents@.dom());
            assert forall|k: Seq<char>| #[trigger] self.key_dir@.contains_key(k) implies lists_key(self.keys@, k) by {
                if k != c->Put_key || prior is Some {
                    assert(lists_key(old_s.keys@, k));
                    let i = choose|i: int| 0 <= i < old_s.keys.len() && (#[trigger] old_s.keys[i]@) == k;
                    assert(self.keys[i]@ == k);
                } else {
                    assert(self.keys[self.keys.len() - 1]@ == k);
                }
            }
            assert(self.segments() == mid.segments());
            assert(self.images() == mid.images());
            assert forall|k: Seq<char>| #[trigger] self.key_dir@.contains_key(k) implies entry_holds(
                self.segments(),
                k,
                self.key_dir@[k],
                self.contents@[k],
            ) by {
                if k != c->Put_key {
                    assert(old_s.key_dir@.contains_key(k));
                    assert(entry_holds(old_s.segments(), k, old_s.key_dir@[k], old_s.contents@[k]));
                }
            }
            assert(self.wf());
        }
        Ok(())
    }

    /// Removes `key`; fails with `KeyNotFound`, and changes nothing, if it has
    /// no value.
    pub fn remove(&mut self, key: String) -> (r: Result<(), KvsError>)
        requires
            old(self).wf(),
        ensures
            final(self).wf(),
            old(self)@.contains_key(key@) ==> r is Ok && final(self)@ == old(self)@.remove(key@),
            !old(self)@.contains_key(key@) ==> r == Err::<(), KvsError>(KvsError::KeyNotFound)
                && *final(self) == *old(self),
            old(self)@.contains_key(key@) ==> final(self).spec_useless_size() == sat_add(
                sat_add(old(self).spec_useless_size(), old(self).locations()[key@].value_size),
                encode_record(CommandView::Rm { key: key@ }).len() as u64,
            ),
            final(self).spec_active_gen() == old(self).spec_active_gen(),
            final(self).disk() == old(self).disk(),
            old(self)@.contains_key(key@) ==> final(self).segments() == old(self).segments().insert(
                old(self).spec_active_gen(),
                old(self).segments()[old(self).spec_active_gen()] + encode_record(
                    CommandView::Rm { key: key@ },
                ),
            ),
            old(self)@.contains_key(key@) ==> final(self).locations() == old(self).locations().remove(key@),
    {
        let prior = match self.key_dir.get(key.as_str()) {
            Some(p) => Some(p.value_size),
            None => None,
        };
        match prior {
            None => Err(KvsError::KeyNotFound),
            Some(sz) => {
                let cmd = DataCommand::Rm { key: key.clone() };
                let ghost c = cmd@;
                let bytes = encode_command(&cmd);
                let n = bytes.len() as u64;
                let ghost old_s = *self;
                let pos = self.append_active(bytes);
                let ghost mid = *self;
                proof {
                    Self::lemma_append_active(&old_s, &mid, c, pos as int);
                }
                self.key_dir.remove(key.as_str());
                self.useless_size = self.useless_size.saturating_add(sz).saturating_add(n);
                proof {
                    self.contents@ = self.contents@.remove(key@);
                    assert(self.key_dir@.dom() =~= self.contents@.dom());
                    assert forall|k: Seq<char>| #[trigger] self.key_dir@.contains_key(k) implies lists_key(self.keys@, k) by {
                        assert(old_s.key_dir@.contains_key(k));
                        let i = choose|i: int| 0 <= i < old_s.keys.len() && (#[trigger] old_s.keys[i]@) == k;
                        assert(self.keys[i]@ == k);
                    }
                    assert(self.segments() == mid.segments());
                }
                Ok(())
            },
        }
    }

    /// The generation of the active segment.
    pub fn active_gen(&self) -> (r: u64)
        ensures
            r == self.spec_active_gen(),
    {
        self.active_gen
    }

    /// The count of stale bytes, which decides when to compact.
    pub fn useless_size(&self) -> (r: u64)
        ensures
            r == self.spec_useless_size(),
    {
        self.useless_size
    }

    /// Hands out the queued effects, oldest first, and empties the queue.
    pub fn take_effects(&mut self) -> (r: Vec<Effect>)
        requires
            old(self).wf(),
        ensures
            final(self).wf(),
            r@ == old(self).pending(),
            final(self)@ == old(self)@,
            final(self).segments() == old(self).segments(),
            final(self).disk() == old(self).segments(),
            final(self).pending() == Seq::<Effect>::empty(),
            apply_effects(old(self).disk(), r@) == old(self).segments(),
    {
        let mut r: Vec<Effect> = Vec::new();
        r.append(&mut self.pending);
        proof {
            self.flushed@ = self.segments();
            assert(self.pending@ =~= Seq::<Effect>::empty());
            assert(apply_effects(self.flushed@, self.pending@) == self.flushed@);
            assert(self.segments() =~= old(self).segments());
            assert(self.images() =~= old(self).images());
        }
        r
    }
}

/// Two strictly ascending sequences with the same members are equal.
proof fn lemma_ascending_unique(a: Seq<u64>, b: Seq<u64>)
    requires
        forall|i: int, j: int| 0 <= i < j < a.len() ==> a[i] < a[j],
        forall|i: int, j: int| 0 <= i < j < b.len() ==> b[i] < b[j],
        forall|x: u64| a.contains(x) <==> b.contains(x),
    ensures
        a == b,
    decreases a.len(),
{
    if a.len() == 0 {
        if b.len() > 0 {
            assert(b.contains(b[0]));
        }
        assert(a =~= b);
    } else if b.len() == 0 {
        assert(a.contains(a[0]));
    } else {
        let la = a.last();
        let lb = b.last();
        assert(a.contains(la));
        assert(b.contains(lb));
        let i = choose|i: int| 0 <= i < b.len() && b[i] == la;
        let j = choose|j: int| 0 <= j < a.len() && a[j] == lb;
        assert(la <= lb) by {
            if i < b.len() - 1 {
                assert(b[i] < b[b.len() - 1]);
            }
        }
        assert(lb <= la) by {
            if j < a.len() - 1 {
                assert(a[j] < a[a.len() - 1]);
            }
        }
        assert forall|x: u64| a.drop_last().contains(x) <==> b.drop_last().contains(x) by {
            if a.drop_last().contains(x) {
                let t = choose|t: int| 0 <= t < a.len() - 1 && a[t] == x;
                assert(a[t] < la);
                assert(b.contains(x));
                let u = choose|u: int| 0 <= u < b.len() && b[u] == x;
                assert(u != b.len() - 1);
                assert(b.drop_last()[u] == x);
            }
            if b.drop_last().contains(x) {
                let t = choose|t: int| 0 <= t < b.len() - 1 && b[t] == x;
                assert(b[t] < lb);
                assert(a.contains(x));
                let u = choose|u: int| 0 <= u < a.len() && a[u] == x;
                assert(u != a.len() - 1);
                assert(a.drop_last()[u] == x);
            }
        }
        lemma_ascending_unique(a.drop_last(), b.drop_last());
        assert(a =~= b.drop_last().push(lb));
        assert(b =~= b.drop_last().push(lb));
    }
}

/// Read-your-writes: once `set(k, v)` has returned, the store holds `v` at
/// `k`; once `remove(k)` has succeeded, it holds nothing at `k`.
pub proof fn lemma_read_your_writes(before: &KvStore, after_set: &KvStore, after_remove: &KvStore, k: Seq<char>, v: Seq<char>)
    requires
        after_set@ == before@.insert(k, v),
        after_remove@ == before@.remove(k),
    ensures
        after_set@.contains_key(k) && after_set@[k] == v,
        !after_remove@.contains_key(k),
{
}

/// Overwrite: after `set(k, v1)` and then `set(k, v2)` the store holds `v2`
/// at `k`, exactly as if only the second assignment had been made.
pub proof fn lemma_overwrite(s0: &KvStore, s1: &KvStore, s2: &KvStore, k: Seq<char>, v1: Seq<char>, v2: Seq<char>)
    requires
        s1@ == s0@.insert(k, v1),
        s2@ == s1@.insert(k, v2),
    ensures
        s2@.contains_key(k) && s2@[k] == v2,
        s2@ == s0@.insert(k, v2),
{
    assert(s2@ =~= s0@.insert(k, v2));
}

/// Compaction invariance: whether or not a `set` compacts first, the
/// contents it leaves are the same.
pub proof fn lemma_compaction_invariance(
    a0: &KvStore,
    a1: &KvStore,
    b0: &KvStore,
    b1: &KvStore,
    k: Seq<char>,
    v: Seq<char>,
)
    requires
        a0@ == b0@,
        a0.compacts(),
        !b0.compacts(),
        a1@ == a0@.insert(k, v),
        b1@ == b0@.insert(k, v),
    ensures
        a1@ == b1@,
{
}

/// Independence: assigning or removing one key leaves every other key as it
/// was.
pub proof fn lemma_independence(s: &KvStore, t: &KvStore, k: Seq<char>, v: Seq<char>, other: Seq<char>)
    requires
        k != other,
        t@ == s@.insert(k, v) || t@ == s@.remove(k),
    ensures
        t@.contains_key(other) == s@.contains_key(other),
        s@.contains_key(other) ==> t@[other] == s@[other],
{
}

/// Persistence: any listing, oldest first, of exactly the segments of a
/// store replays to the store's contents; so a store opened on the segment
/// files that its effects produced holds what this one holds.
pub proof fn lemma_persistence(s: &KvStore, listing: Seq<(u64, Vec<u8>)>)
    requires
        s.wf(),
        gens_ascending(listing),
        holds_segments(s.segments(), listing),
    ensures
        replay_segments(segment_images(listing)) == Some(s@),
{
    let lg = listing.map_values(|x: (u64, Vec<u8>)| x.0);
    let sg = s.gens();
    assert forall|i: int, j: int| 0 <= i < j < sg.len() implies sg[i] < sg[j] by {
        if j == sg.len() - 1 {
            assert(s.readers@.contains_key(s.reader_gens[i]));
        }
    }
    assert forall|x: u64| lg.contains(x) <==> sg.contains(x) by {
        if lg.contains(x) {
            let t = choose|t: int| 0 <= t < lg.len() && lg[t] == x;
            assert(s.segments().contains_key(listing[t].0));
            if x != s.active_gen {
                let i = choose|i: int| 0 <= i < s.reader_gens.len() && s.reader_gens[i] == x;
                assert(sg[i] == x);
            } else {
                assert(sg[sg.len() - 1] == x);
            }
        }
        if sg.contains(x) {
            let i = choose|i: int| 0 <= i < sg.len() && sg[i] == x;
            if i < sg.len() - 1 {
                assert(s.readers@.contains_key(s.reader_gens[i]));
            }
            assert(s.segments().contains_key(x));
            let t = choose|t: int| 0 <= t < listing.len() && listing[t].0 == x;
            assert(lg[t] == x);
        }
    }
    lemma_ascending_unique(lg, sg);
    assert forall|i: int| 0 <= i < listing.len() implies segment_images(listing)[i] == s.images()[i] by {
        assert(lg[i] == sg[i]);
        assert(s.segments().contains_key(listing[i].0));
        if i < listing.len() - 1 {
            assert(s.readers@.contains_key(s.reader_gens[i]));
        }
    }
    assert(segment_images(listing) =~= s.images());
}

/// Persistence across a restart: carry out the queued effects on a
/// directory that holds `disk()`, and any listing of that directory, oldest
/// first, replays to the store's contents; `open` on it then holds them too.
pub proof fn lemma_reopen(s: &KvStore, listing: Seq<(u64, Vec<u8>)>)
    requires
        s.wf(),
        gens_ascending(listing),
        holds_segments(apply_effects(s.disk(), s.pending()), listing),
    ensures
        replay_segments(segment_images(listing)) == Some(s@),
{
    lemma_persistence(s, listing);
}

/// Every keydir entry points at a record that exists in its segment and
/// assigns the key the value the store holds; no removed key has an entry.
pub proof fn lemma_keydir_points_at_live_records(s: &KvStore)
    requires
        s.wf(),
    ensures
        s.locations().dom() == s@.dom(),
        forall|k: Seq<char>| #[trigger]
            s.locations().contains_key(k) ==> entry_holds(s.segments(), k, s.locations()[k], s@[k]),
{
}

} // verus!
