//! The log-structured store: numbered append-only segments of encoded
//! command records, an in-memory index from each live key to the location of
//! its most recent value, and a compaction step that rewrites the live keys
//! into a fresh segment.
//!
//! The store works on segment contents held in memory; the surrounding
//! program reads segment files into [`Segment`]s on open and mirrors every
//! byte the store appends (and every segment it creates or drops) back to
//! disk, so that replaying the directory reconstructs the same store.

use vstd::prelude::*;

use crate::codec::{
    parse_command, parse_str, spec_encode_command, command_encodable, encodable_str,
    lemma_parse_command_bounds, lemma_parse_str_bounds, lemma_parse_command_stable,
    lemma_parse_str_encodable, lemma_parse_command_encoding, lemma_value_at_offset,
    lemma_parse_str_stable,
};
use crate::command::{Command, CommandModel, Offset};
use crate::error::Error;
use crate::index::{
    EntryModel, Index, IndexEntry, alist_map, alist_keys_distinct, lemma_alist_map_index,
    lemma_alist_map_dom, lemma_alist_map_len,
};

verus! {

/// One append-only segment: its number in the directory and its bytes, a
/// concatenation of encoded command records.
pub struct Segment {
    index: u64,
    data: Vec<u8>,
}

/// The mathematical shape of a [`Segment`].
pub struct SegModel {
    /// The segment's number in the directory.
    pub index: u64,
    /// The segment's bytes.
    pub data: Seq<u8>,
}

impl View for Segment {
    type V = SegModel;

    closed spec fn view(&self) -> SegModel {
        SegModel { index: self.index, data: self.data@ }
    }
}

impl Segment {
    /// A segment numbered `index` holding `data`.
    pub fn new(index: u64, data: Vec<u8>) -> (r: Segment)
        ensures
            r@ == (SegModel { index, data: data@ }),
    {
        Segment { index, data }
    }

    /// The segment's number in the directory.
    pub fn log_index(&self) -> (r: u64)
        ensures
            r == self@.index,
    {
        self.index
    }

    /// The segment's bytes.
    pub fn data(&self) -> (r: &Vec<u8>)
        ensures
            r@ == self@.data,
    {
        &self.data
    }
}

/// True when every byte of `b` from `pos` on belongs to a complete record.
pub open spec fn stream_ok_from(b: Seq<u8>, pos: int) -> bool
    decreases b.len() - pos,
    when 0 <= pos <= b.len()
{
    if pos == b.len() {
        true
    } else {
        match parse_command(b, pos) {
            Some((c, end)) => pos < end <= b.len() && stream_ok_from(b, end),
            None => false,
        }
    }
}

/// How one record changes the index: the new mapping and the bytes that the
/// record turned dead. A `Put` replaces the key's entry (the old record's
/// bytes die); a `Remove` drops it (the old record's bytes die, and the
/// `Remove` record itself is dead from birth).
pub open spec fn replay_step(
    m: Map<Seq<char>, EntryModel>,
    seg: u64,
    c: CommandModel,
    value_offset: u64,
    length: u64,
) -> (Map<Seq<char>, EntryModel>, int) {
    match c {
        CommandModel::Put { value, key } => (
            m.insert(key, EntryModel { log_index: seg, offset: value_offset, length }),
            if m.contains_key(key) {
                m[key].length as int
            } else {
                0int
            },
        ),
        CommandModel::Remove { key } => (
            m.remove(key),
            length + if m.contains_key(key) {
                m[key].length as int
            } else {
                0int
            },
        ),
    }
}

/// Replays the records of one segment from `pos` on, accumulating the index
/// and the dead-byte count. Stops at the first position that does not parse:
/// a truncated trailing record contributes nothing.
pub open spec fn replay_seg_from(
    m: Map<Seq<char>, EntryModel>,
    dead: int,
    seg: u64,
    b: Seq<u8>,
    pos: int,
) -> (Map<Seq<char>, EntryModel>, int)
    decreases b.len() - pos,
    when 0 <= pos <= b.len()
{
    if pos == b.len() {
        (m, dead)
    } else {
        match parse_command(b, pos) {
            Some((c, end)) => {
                if pos < end <= b.len() {
                    let (m2, delta) = replay_step(
                        m,
                        seg,
                        c,
                        (pos + 3) as u64,
                        (end - pos) as u64,
                    );
                    replay_seg_from(m2, dead + delta, seg, b, end)
                } else {
                    (m, dead)
                }
            },
            None => (m, dead),
        }
    }
}

/// Replays the first `n` segments in order, starting from an empty index.
pub open spec fn replay_upto(segs: Seq<SegModel>, n: int) -> (Map<Seq<char>, EntryModel>, int)
    decreases n,
    when 0 <= n <= segs.len()
{
    if n == 0 {
        (Map::empty(), 0int)
    } else {
        let (m, dead) = replay_upto(segs, n - 1);
        replay_seg_from(m, dead, segs[n - 1].index, segs[n - 1].data, 0)
    }
}

/// Replays a whole directory of segments.
pub open spec fn replay(segs: Seq<SegModel>) -> (Map<Seq<char>, EntryModel>, int) {
    replay_upto(segs, segs.len() as int)
}

/// The end of the longest prefix of `b` (from `pos` on) made of complete
/// records: replay recovers everything before it and discards the rest.
pub open spec fn valid_prefix_end(b: Seq<u8>, pos: int) -> int
    decreases b.len() - pos,
    when 0 <= pos <= b.len()
{
    if pos == b.len() {
        pos
    } else {
        match parse_command(b, pos) {
            Some((c, end)) => {
                if pos < end <= b.len() {
                    valid_prefix_end(b, end)
                } else {
                    pos
                }
            },
            None => pos,
        }
    }
}

/// Segment numbers strictly increase left to right.
pub open spec fn segs_increasing(segs: Seq<SegModel>) -> bool {
    forall|i: int, j: int| 0 <= i < j < segs.len() ==> segs[i].index < segs[j].index
}

/// Every segment is a concatenation of complete records.
pub open spec fn streams_ok(segs: Seq<SegModel>) -> bool {
    forall|i: int| 0 <= i < segs.len() ==> stream_ok_from(#[trigger] segs[i].data, 0)
}

/// True when some segment carries the number `idx`.
pub open spec fn has_seg(segs: Seq<SegModel>, idx: u64) -> bool {
    exists|i: int| 0 <= i < segs.len() && segs[i].index == idx
}

/// The position of the segment numbered `idx`.
pub open spec fn seg_pos(segs: Seq<SegModel>, idx: u64) -> int {
    choose|i: int| 0 <= i < segs.len() && segs[i].index == idx
}

/// The segment numbered `idx`.
pub open spec fn seg_at(segs: Seq<SegModel>, idx: u64) -> SegModel {
    segs[seg_pos(segs, idx)]
}

/// With strictly increasing numbers, a segment's position is determined by
/// its number.
pub proof fn lemma_seg_pos_unique(segs: Seq<SegModel>, i: int)
    requires
        segs_increasing(segs),
        0 <= i < segs.len(),
    ensures
        has_seg(segs, segs[i].index),
        seg_pos(segs, segs[i].index) == i,
        seg_at(segs, segs[i].index) == segs[i],
{
    let idx = segs[i].index;
    assert(has_seg(segs, idx));
    let j = seg_pos(segs, idx);
    assert(0 <= j < segs.len() && segs[j].index == idx);
    if i < j {
        assert(segs[i].index < segs[j].index);
    } else if j < i {
        assert(segs[j].index < segs[i].index);
    }
}

/// True when an entry points at a decodable value inside a present segment.
pub open spec fn entry_valid(segs: Seq<SegModel>, e: EntryModel) -> bool {
    has_seg(segs, e.log_index) && parse_str(seg_at(segs, e.log_index).data, e.offset as int)
        is Some
}

/// The value an entry points at.
pub open spec fn entry_value(segs: Seq<SegModel>, e: EntryModel) -> Seq<char> {
    parse_str(seg_at(segs, e.log_index).data, e.offset as int)->Some_0.0
}

/// Every entry of the index points at a decodable value, and all keys and
/// values are short enough to re-encode.
pub open spec fn entries_valid(segs: Seq<SegModel>, m: Map<Seq<char>, EntryModel>) -> bool {
    forall|k: Seq<char>| #[trigger]
        m.contains_key(k) ==> entry_valid(segs, m[k]) && encodable_str(k) && encodable_str(
            entry_value(segs, m[k]),
        )
}

/// The key-value mapping a directory of segments stands for.
pub open spec fn replay_view(segs: Seq<SegModel>) -> Map<Seq<char>, Seq<char>> {
    Map::new(
        |k: Seq<char>| replay(segs).0.contains_key(k),
        |k: Seq<char>| entry_value(segs, replay(segs).0[k]),
    )
}

/// Replay never reduces the dead-byte count.
pub proof fn lemma_replay_seg_dead_mono(
    m: Map<Seq<char>, EntryModel>,
    dead: int,
    seg: u64,
    b: Seq<u8>,
    pos: int,
)
    requires
        0 <= pos <= b.len(),
    ensures
        replay_seg_from(m, dead, seg, b, pos).1 >= dead,
    decreases b.len() - pos,
{
    if pos < b.len() {
        match parse_command(b, pos) {
            Some((c, end)) => {
                if pos < end <= b.len() {
                    let (m2, delta) = replay_step(m, seg, c, (pos + 3) as u64, (end - pos) as u64);
                    lemma_replay_seg_dead_mono(m2, dead + delta, seg, b, end);
                }
            },
            None => {},
        }
    }
}

/// The dead-byte count of a whole replay is never negative.
pub proof fn lemma_replay_dead_nonneg(segs: Seq<SegModel>, n: int)
    requires
        0 <= n <= segs.len(),
    ensures
        replay_upto(segs, n).1 >= 0,
    decreases n,
{
    if n > 0 {
        lemma_replay_dead_nonneg(segs, n - 1);
        let (m, dead) = replay_upto(segs, n - 1);
        lemma_replay_seg_dead_mono(m, dead, segs[n - 1].index, segs[n - 1].data, 0);
    }
}

/// Replaying the first `n` segments looks only at those segments.
pub proof fn lemma_replay_upto_agree(s1: Seq<SegModel>, s2: Seq<SegModel>, n: int)
    requires
        0 <= n <= s1.len(),
        n <= s2.len(),
        forall|i: int| 0 <= i < n ==> s1[i] == s2[i],
    ensures
        replay_upto(s1, n) == replay_upto(s2, n),
    decreases n,
{
    if n > 0 {
        lemma_replay_upto_agree(s1, s2, n - 1);
    }
}

/// Appending one complete record to a stream extends its replay by exactly
/// one step, and the stream stays complete.
pub proof fn lemma_replay_append(
    m: Map<Seq<char>, EntryModel>,
    dead: int,
    seg: u64,
    b1: Seq<u8>,
    b2: Seq<u8>,
    pos: int,
    c: CommandModel,
)
    requires
        0 <= pos <= b1.len() < b2.len(),
        forall|i: int| 0 <= i < b1.len() ==> b1[i] == b2[i],
        parse_command(b2, b1.len() as int) == Some((c, b2.len() as int)),
        stream_ok_from(b1, pos),
    ensures
        stream_ok_from(b2, pos),
        replay_seg_from(m, dead, seg, b2, pos) == {
            let (m1, d1) = replay_seg_from(m, dead, seg, b1, pos);
            let (m2, delta) = replay_step(
                m1,
                seg,
                c,
                (b1.len() + 3) as u64,
                (b2.len() - b1.len()) as u64,
            );
            (m2, d1 + delta)
        },
    decreases b1.len() - pos,
{
    lemma_parse_command_bounds(b2, b1.len() as int);
    if pos == b1.len() {
        let (m2, delta) = replay_step(
            m,
            seg,
            c,
            (pos + 3) as u64,
            (b2.len() - pos) as u64,
        );
        assert(replay_seg_from(m2, dead + delta, seg, b2, b2.len() as int) == (
            m2,
            dead + delta,
        ));
        assert(stream_ok_from(b2, b2.len() as int));
        assert(stream_ok_from(b2, pos));
    } else {
        let (c1, end) = parse_command(b1, pos)->Some_0;
        lemma_parse_command_bounds(b1, pos);
        lemma_parse_command_stable(b1, b2, pos);
        let (m2, delta) = replay_step(m, seg, c1, (pos + 3) as u64, (end - pos) as u64);
        lemma_replay_append(m2, dead + delta, seg, b1, b2, end, c);
        assert(stream_ok_from(b2, pos));
    }
}

/// The dead-byte count above which a `set` compacts the directory. A tuning
/// parameter, not a correctness property.
pub const COMPACTION_THRESHOLD: u64 = 1024 * 1024;

/// A sum clipped to what a `u64` can hold.
pub open spec fn sat64(x: int) -> u64
    recommends
        x >= 0,
{
    if x > u64::MAX {
        u64::MAX
    } else {
        x as u64
    }
}

/// Adds two counters, clipping at the top of `u64`.
fn sat_add(a: u64, b: u64) -> (r: u64)
    ensures
        r == sat64(a + b),
{
    if a <= u64::MAX - b {
        a + b
    } else {
        u64::MAX
    }
}

/// Clipped addition over already-clipped counters loses nothing more.
proof fn lemma_sat64_add(a: int, b: int)
    requires
        a >= 0,
        b >= 0,
    ensures
        sat64(sat64(a) as int + sat64(b) as int) == sat64(a + b),
{
}

/// Applies one replayed record to the in-memory index, by the replay rule:
/// a `Put` maps its key to the record's location and kills any entry it
/// replaces; a `Remove` drops the key's entry and is itself dead. Returns
/// how many bytes the record turned dead (clipped to `u64`).
pub fn open_entry(log_index: u64, index: &mut Index, record: (Command, Offset, u64)) -> (dead:
    u64)
    requires
        old(index).wf(),
    ensures
        final(index).wf(),
        ({
            let (m2, delta) = replay_step(
                old(index)@,
                log_index,
                record.0@,
                record.1@,
                record.2,
            );
            final(index)@ == m2 && dead == sat64(delta)
        }),
{
    let (command, offset, length) = record;
    match command {
        Command::Put { value: _, key } => {
            match index.insert(key, IndexEntry { log_index, offset, length }) {
                Some(old_entry) => old_entry.length,
                None => 0,
            }
        },
        Command::Remove { key } => {
            match index.remove(&key) {
                Some(old_entry) => sat_add(length, old_entry.length),
                None => length,
            }
        },
    }
}

/// The store: a directory of segments, the index over their live keys, and
/// the running count of dead bytes that decides when to compact.
pub struct Store {
    segments: Vec<Segment>,
    index: Index,
    uncompacted: u64,
}

impl View for Store {
    type V = Map<Seq<char>, Seq<char>>;

    closed spec fn view(&self) -> Map<Seq<char>, Seq<char>> {
        Map::new(
            |k: Seq<char>| self.index@.contains_key(k),
            |k: Seq<char>| entry_value(self.segs(), self.index@[k]),
        )
    }
}

impl Store {
    /// The segments as they stand, in directory order.
    pub closed spec fn segs(&self) -> Seq<SegModel> {
        self.segments@.map_values(|s: Segment| s@)
    }

    /// The number of the active segment: the highest present, the only one
    /// appended to.
    pub open spec fn active(&self) -> u64 {
        self.segs().last().index
    }

    /// The store's invariant: the segments are numbered in strictly
    /// increasing order and hold complete records only; the index is exactly
    /// the replay of the segments, every entry of it points at a decodable
    /// value, and the dead-byte counter is the replay's (clipped to `u64`).
    pub closed spec fn wf(&self) -> bool {
        &&& self.segs().len() > 0
        &&& segs_increasing(self.segs())
        &&& streams_ok(self.segs())
        &&& self.index.wf()
        &&& self.index@ == replay(self.segs()).0
        &&& self.uncompacted == sat64(replay(self.segs()).1)
        &&& entries_valid(self.segs(), self.index@)
    }

    /// For a well-formed store, replaying its segments from scratch yields
    /// its own key-value view: every completed mutation survives a release
    /// and reopen of the directory.
    pub proof fn lemma_replay_recovers_view(&self)
        requires
            self.wf(),
        ensures
            replay_view(self.segs()) == self@,
            forall|i: int|
                0 <= i < self.segs().len() ==> valid_prefix_end(#[trigger] self.segs()[i].data, 0)
                    == self.segs()[i].data.len(),
    {
        assert(replay_view(self.segs()) =~= self@);
        assert forall|i: int| 0 <= i < self.segs().len() implies valid_prefix_end(
            #[trigger] self.segs()[i].data,
            0,
        ) == self.segs()[i].data.len() by {
            lemma_stream_ok_valid_prefix(self.segs()[i].data, 0);
        }
    }

    /// A well-formed store's segments are nonempty and strictly increasing:
    /// handing copies of them back to `open` meets its requirements, so the
    /// directory of any well-formed store can be reopened.
    pub proof fn lemma_wf_segments(&self)
        requires
            self.wf(),
        ensures
            self.segs().len() > 0,
            segs_increasing(self.segs()),
    {
    }

    /// How many segments the directory holds.
    pub fn segment_count(&self) -> (r: usize)
        ensures
            r == self.segs().len(),
    {
        self.segments.len()
    }

    /// The segment at position `i` of the directory.
    pub fn segment_at(&self, i: usize) -> (r: &Segment)
        requires
            i < self.segs().len(),
        ensures
            r@ == self.segs()[i as int],
    {
        &self.segments[i]
    }

    /// How many keys are live.
    pub fn index_size(&self) -> (r: usize)
        requires
            self.wf(),
        ensures
            r == self@.dom().len(),
    {
        proof {
            assert(self@.dom() =~= self.index@.dom());
        }
        self.index.len()
    }
}

impl Store {
    /// Opens a store from the segments of a directory, handed in ascending
    /// numeric order. Replays every segment in order to rebuild the index,
    /// tolerating a truncated or malformed tail in each: the records before
    /// the cut are recovered, the rest of the segment is dropped. An empty
    /// directory gets a fresh segment numbered zero.
    pub fn open(segments: Vec<Segment>) -> (r: Store)
        requires
            segs_increasing(segments@.map_values(|s: Segment| s@)),
        ensures
            r.wf(),
            ({
                let input = segments@.map_values(|s: Segment| s@);
                if input.len() == 0 {
                    r.segs() == seq![SegModel { index: 0u64, data: Seq::<u8>::empty() }]
                } else {
                    r.segs().len() == input.len() && forall|i: int|
                        0 <= i < input.len() ==> (#[trigger] r.segs()[i]).index == input[i].index
                            && r.segs()[i].data == input[i].data.subrange(
                            0,
                            valid_prefix_end(input[i].data, 0),
                        )
                }
            }),
            r@ == replay_view(r.segs()),
    {
        let ghost input = segments@.map_values(|s: Segment| s@);
        let mut index = Index::new();
        let mut uncompacted: u64 = 0;
        let mut kept: Vec<Segment> = Vec::new();
        let n = segments.len();
        let mut j: usize = 0;
        while j < n
            invariant
                n == segments@.len(),
                input == segments@.map_values(|s: Segment| s@),
                segs_increasing(input),
                0 <= j <= n,
                kept@.len() == j,
                forall|p: int|
                    0 <= p < j ==> (#[trigger] kept@[p])@.index == input[p].index
                        && kept@[p]@.data == input[p].data.subrange(
                        0,
                        valid_prefix_end(input[p].data, 0),
                    ),
                index.wf(),
                index@ == replay(kept@.map_values(|s: Segment| s@)).0,
                uncompacted == sat64(replay(kept@.map_values(|s: Segment| s@)).1),
                streams_ok(kept@.map_values(|s: Segment| s@)),
                segs_increasing(kept@.map_values(|s: Segment| s@)),
                entries_valid(kept@.map_values(|s: Segment| s@), index@),
            decreases n - j,
        {
            let ghost km = kept@.map_values(|s: Segment| s@);
            let seg = &segments[j];
            let sidx = seg.log_index();
            let data = seg.data();
            let ghost b = data@;
            let dlen = data.len();
            proof {
                assert(input[j as int] == segments@[j as int]@);
                assert(forall|p: int| 0 <= p < j ==> km[p].index < sidx);
                let em = SegModel { index: sidx, data: b.subrange(0, 0) };
                assert(b.subrange(0, 0).len() == 0);
                lemma_replay_upto_agree(km.push(em), km, km.len() as int);
                assert(replay(km.push(em)) == replay(km));
                assert(stream_ok_from(b.subrange(0, 0), 0));
                assert forall|x: int, y: int|
                    0 <= x < y < km.push(em).len() implies km.push(em)[x].index < km.push(
                    em,
                )[y].index by {
                    if y < km.len() {
                        assert(km.push(em)[x] == km[x] && km.push(em)[y] == km[y]);
                    } else {
                        assert(km.push(em)[x] == km[x]);
                    }
                }
                lemma_entries_valid_push(km, em, index@);
                assert(b.len() == dlen as int);
                assert(b.len() <= u64::MAX);
            }
            let mut it = crate::codec::ReaderIterator::init(data.as_slice());
            let mut done = false;
            while !done
                invariant
                    it.inv(),
                    it.data_view() == b,
                    b.len() <= u64::MAX,
                    index.wf(),
                    forall|p: int| 0 <= p < km.len() ==> (#[trigger] km[p]).index < sidx,
                    segs_increasing(km),
                    streams_ok(km),
                    stream_ok_from(b.subrange(0, it.pos()), 0),
                    segs_increasing(
                        km.push(SegModel { index: sidx, data: b.subrange(0, it.pos()) }),
                    ),
                    index@ == replay(
                        km.push(SegModel { index: sidx, data: b.subrange(0, it.pos()) }),
                    ).0,
                    uncompacted == sat64(
                        replay(
                            km.push(SegModel { index: sidx, data: b.subrange(0, it.pos()) }),
                        ).1,
                    ),
                    entries_valid(
                        km.push(SegModel { index: sidx, data: b.subrange(0, it.pos()) }),
                        index@,
                    ),
                    valid_prefix_end(b, 0) == valid_prefix_end(b, it.pos()),
                    done ==> it.pos() == b.len() || parse_command(b, it.pos()) is None,
                decreases b.len() - it.pos() + (if done {
                    0int
                } else {
                    1int
                }),
            {
                let ghost pos0 = it.pos();
                let ghost m_old = index@;
                match it.next() {
                    None => {
                        done = true;
                    },
                    Some(Err(_)) => {
                        done = true;
                    },
                    Some(Ok(rec)) => {
                        let ghost c = rec.0@;
                        let ghost end = it.pos();
                        let dead = open_entry(sidx, &mut index, rec);
                        uncompacted = sat_add(uncompacted, dead);
                        proof {
                            lemma_open_step(km, sidx, b, pos0, end, c, m_old);
                            let prevm = SegModel { index: sidx, data: b.subrange(0, pos0) };
                            let delta = replay_step(
                                m_old,
                                sidx,
                                c,
                                (pos0 + 3) as u64,
                                (end - pos0) as u64,
                            ).1;
                            lemma_sat64_add(replay(km.push(prevm)).1, delta);
                        }
                    },
                }
            }
            let keep = it.offset();
            proof {
                assert(valid_prefix_end(b, it.pos()) == it.pos());
            }
            let kept_data = vstd::slice::slice_to_vec(
                vstd::slice::slice_subrange(data.as_slice(), 0, keep),
            );
            kept.push(Segment::new(sidx, kept_data));
            proof {
                let km2 = kept@.map_values(|s: Segment| s@);
                assert(km2 =~= km.push(SegModel { index: sidx, data: b.subrange(0, keep as int) }));
            }
            j += 1;
        }
        if kept.len() == 0 {
            kept.push(Segment::new(0, Vec::new()));
            proof {
                let km2 = kept@.map_values(|s: Segment| s@);
                assert(km2 =~= Seq::<SegModel>::empty().push(
                    SegModel { index: 0u64, data: Seq::<u8>::empty() },
                ));
                assert(km2.len() == 1);
                assert(km2[0] == (SegModel { index: 0u64, data: Seq::<u8>::empty() }));
                assert(stream_ok_from(km2[0].data, 0));
                assert(replay_upto(km2, 0) == (Map::<Seq<char>, EntryModel>::empty(), 0int));
                assert(replay_seg_from(
                    Map::<Seq<char>, EntryModel>::empty(),
                    0int,
                    0u64,
                    Seq::<u8>::empty(),
                    0int,
                ) == (Map::<Seq<char>, EntryModel>::empty(), 0int));
                assert(replay(km2) == (Map::<Seq<char>, EntryModel>::empty(), 0int));
            }
        }
        let r = Store { segments: kept, index, uncompacted };
        proof {
            assert(r@ =~= replay_view(r.segs()));
        }
        r
    }
}

impl Store {
    /// The position of the segment numbered `idx` in the directory.
    fn find_segment(&self, idx: u64) -> (r: usize)
        requires
            segs_increasing(self.segs()),
            has_seg(self.segs(), idx),
        ensures
            r < self.segs().len(),
            self.segs()[r as int].index == idx,
    {
        let n = self.segments.len();
        let mut i: usize = 0;
        while i < n
            invariant
                n == self.segs().len(),
                0 <= i <= n,
                has_seg(self.segs(), idx),
                forall|j: int| 0 <= j < i ==> self.segs()[j].index != idx,
            decreases n - i,
        {
            if self.segments[i].log_index() == idx {
                proof {
                    assert(self.segs()[i as int] == self.segments@[i as int]@);
                }
                return i;
            }
            proof {
                assert(self.segs()[i as int] == self.segments@[i as int]@);
            }
            i += 1;
        }
        proof {
            let w = choose|w: int| 0 <= w < self.segs().len() && self.segs()[w].index == idx;
            assert(false);
        }
        vstd::pervasive::unreached()
    }
}

impl Store {
    /// Compacts the directory to a single live segment: writes the value of
    /// every live key into a fresh segment, points the index at it, makes a
    /// further fresh segment the active one, and drops all older segments.
    /// The key-value view is unchanged and no dead bytes remain.
    #[verifier::rlimit(100)]
    fn compact(&mut self)
        requires
            old(self).wf(),
            old(self).active() + 2 <= u64::MAX,
        ensures
            final(self).wf(),
            final(self)@ == old(self)@,
            final(self).segs().len() == 2,
            final(self).segs()[0].index == old(self).active() + 1,
            final(self).active() == old(self).active() + 2,
            sat64(replay(final(self).segs()).1) == 0,
    {
        let li = self.segments.len() - 1;
        let active = self.segments[li].log_index();
        let cidx = active + 1;
        let nidx = active + 2;
        let mut cdata: Vec<u8> = Vec::new();
        let n = self.index.len();
        let ghost oldsegs = self.segs();
        let ghost m_old = self.index@;
        let ghost oldview = self@;
        let ghost sv0 = self.index.seq_view();
        proof {
            assert(self.segs()[li as int] == self.segments@[li as int]@);
            assert(active == oldsegs.last().index);
            self.index.lemma_view_is_seq_view();
        }
        let mut i: usize = 0;
        while i < n
            invariant
                self.segments@.len() == oldsegs.len(),
                self.segs() == oldsegs,
                oldsegs.len() > 0,
                segs_increasing(oldsegs),
                streams_ok(oldsegs),
                entries_valid(oldsegs, m_old),
                m_old == alist_map(sv0),
                alist_keys_distinct(sv0),
                oldview == Map::new(
                    |k: Seq<char>| m_old.contains_key(k),
                    |k: Seq<char>| entry_value(oldsegs, m_old[k]),
                ),
                cidx == active + 1 && nidx == active + 2 && nidx <= u64::MAX,
                active == oldsegs.last().index,
                self.index.wf(),
                n == self.index.seq_view().len(),
                sv0.len() == n,
                0 <= i <= n,
                forall|p: int| 0 <= p < n ==> (#[trigger] self.index.seq_view()[p]).0 == sv0[p].0,
                forall|p: int| i <= p < n ==> #[trigger] self.index.seq_view()[p] == sv0[p],
                forall|p: int|
                    0 <= p < i ==> {
                        let e = (#[trigger] self.index.seq_view()[p]).1;
                        &&& e.log_index == cidx
                        &&& parse_str(cdata@, e.offset as int) matches Some((v, vend)) && v
                            == oldview[sv0[p].0]
                    },
                stream_ok_from(cdata@, 0),
                cdata@.len() <= u64::MAX,
                replay_seg_from(Map::empty(), 0int, cidx, cdata@, 0).1 == 0,
                forall|p: int|
                    0 <= p < i ==> replay_seg_from(
                        Map::empty(),
                        0int,
                        cidx,
                        cdata@,
                        0,
                    ).0.contains_key(#[trigger] sv0[p].0) && replay_seg_from(
                        Map::empty(),
                        0int,
                        cidx,
                        cdata@,
                        0,
                    ).0[sv0[p].0] == self.index.seq_view()[p].1,
                forall|k: Seq<char>| #[trigger]
                    replay_seg_from(Map::empty(), 0int, cidx, cdata@, 0).0.contains_key(k)
                        ==> exists|p: int| 0 <= p < i && sv0[p].0 == k,
            decreases n - i,
        {
            let ghost cmap0 = replay_seg_from(Map::empty(), 0int, cidx, cdata@, 0).0;
            let (key_ref, entry_ref) = self.index.pair_at(i);
            let entry = *entry_ref;
            let key = key_ref.clone();
            proof {
                lemma_alist_map_index(sv0, i as int);
                assert(m_old.contains_key(key@) && m_old[key@] == entry@);
                assert(entry_valid(oldsegs, entry@));
            }
            let p = self.find_segment(entry.log_index);
            let seg = &self.segments[p];
            proof {
                lemma_seg_pos_unique(self.segs(), p as int);
                assert(seg@ == self.segs()[p as int]);
                assert(seg@ == seg_at(oldsegs, entry@.log_index));
                assert(parse_str(seg@.data, entry@.offset as int) is Some);
                assert(0 <= entry@.offset < seg@.data.len());
            }
            let dlen = seg.data().len();
            let off = entry.offset.get();
            proof {
                assert(0 <= entry@.offset < dlen as int);
                assert((off as usize) as int == entry@.offset as int);
            }
            let value = match crate::codec::read_str(seg.data().as_slice(), off as usize) {
                Some((v, _)) => v,
                None => vstd::pervasive::unreached(),
            };
            proof {
                assert(value@ == entry_value(oldsegs, m_old[key@]));
                assert(oldview.contains_key(key@) && value@ == oldview[key@]);
            }
            let c = Command::Put { value, key: key.clone() };
            let bytes = match crate::codec::encode_command(&c) {
                Ok(b) => b,
                Err(_) => vstd::pervasive::unreached(),
            };
            let start = cdata.len();
            let blen = bytes.len();
            let ghost cprev = cdata@;
            let mut bytes = bytes;
            cdata.append(&mut bytes);
            let newlen = cdata.len();
            proof {
                assert(crate::codec::spec_encode_str(key@).len() >= 1);
                assert(blen >= 4);
                assert(cdata@ == cprev + spec_encode_command(c@));
                assert(cdata@.subrange(start as int, start + blen) =~= spec_encode_command(c@));
                lemma_parse_command_encoding(cdata@, start as int, c@);
                lemma_replay_append(Map::empty(), 0int, cidx, cprev, cdata@, 0, c@);
                lemma_value_at_offset(cdata@, start as int, c@->Put_value, c@->Put_key);
            }
            let newentry = IndexEntry {
                log_index: cidx,
                offset: Offset::from_record_start(start as u64),
                length: blen as u64,
            };
            self.index.set_entry_at(i, newentry);
            proof {
                // the new record's key was not yet in the compacted stream
                assert(!cmap0.contains_key(key@)) by {
                    if cmap0.contains_key(key@) {
                        let q = choose|q: int| 0 <= q < i && sv0[q].0 == key@;
                        assert(sv0[q].0 == sv0[i as int].0);
                    }
                }
                // records written earlier still parse the same after the append
                assert forall|q: int| 0 <= q < i implies {
                    let e = (#[trigger] self.index.seq_view()[q]).1;
                    &&& e.log_index == cidx
                    &&& parse_str(cdata@, e.offset as int) matches Some((v, vend)) && v
                        == oldview[sv0[q].0]
                } by {
                    let e = self.index.seq_view()[q].1;
                    lemma_parse_str_bounds(cprev, e.offset as int);
                    lemma_parse_str_stable(cprev, cdata@, e.offset as int);
                }
            }
            i += 1;
        }
        proof {
            self.index.lemma_view_is_seq_view();
            lemma_alist_map_len(self.index.seq_view());
        }
        let mut newsegs: Vec<Segment> = Vec::new();
        newsegs.push(Segment::new(cidx, cdata));
        newsegs.push(Segment::new(nidx, Vec::new()));
        self.segments = newsegs;
        self.uncompacted = 0;
        proof {
            let segs = self.segs();
            let cmap = replay_seg_from(Map::empty(), 0int, cidx, segs[0].data, 0).0;
            assert(segs.len() == 2);
            assert(segs[0].index == cidx && segs[1].index == nidx);
            assert(segs[1].data.len() == 0);
            // the directory replays to exactly the rebuilt index
            assert(replay_upto(segs, 0) == (Map::<Seq<char>, EntryModel>::empty(), 0int));
            assert(replay_upto(segs, 1) == replay_seg_from(
                Map::<Seq<char>, EntryModel>::empty(),
                0int,
                cidx,
                segs[0].data,
                0,
            ));
            assert(replay(segs) == replay_upto(segs, 1));
            let sv = self.index.seq_view();
            assert forall|k: Seq<char>| #[trigger]
                cmap.contains_key(k) == self.index@.contains_key(k) && (cmap.contains_key(k)
                ==> cmap[k] == self.index@[k]) by {
                lemma_alist_map_dom(sv, k);
                if self.index@.contains_key(k) {
                    let q = choose|q: int| 0 <= q < sv.len() && sv[q].0 == k;
                    assert(sv[q].0 == sv0[q].0);
                    lemma_alist_map_index(sv, q);
                    assert(cmap.contains_key(sv0[q].0) && cmap[sv0[q].0] == sv[q].1);
                } else {
                    if cmap.contains_key(k) {
                        let q = choose|q: int| 0 <= q < sv0.len() && sv0[q].0 == k;
                        assert(sv[q].0 == k);
                    }
                }
            }
            assert(cmap =~= self.index@);
            // every rebuilt entry points at the value it had before
            assert forall|k: Seq<char>| #[trigger] self.index@.contains_key(k) implies entry_valid(
                segs,
                self.index@[k],
            ) && encodable_str(k) && encodable_str(entry_value(segs, self.index@[k]))
                && entry_value(segs, self.index@[k]) == oldview[k] by {
                lemma_alist_map_dom(sv, k);
                let q = choose|q: int| 0 <= q < sv.len() && sv[q].0 == k;
                lemma_alist_map_index(sv, q);
                assert(self.index@[k] == sv[q].1);
                lemma_seg_pos_unique(segs, 0);
                assert(seg_at(segs, cidx) == segs[0]);
                assert(sv0[q].0 == k);
                lemma_alist_map_index(sv0, q);
                assert(m_old.contains_key(k));
            }
            assert forall|k: Seq<char>| #[trigger] m_old.contains_key(k) implies
                self.index@.contains_key(k) by {
                lemma_alist_map_dom(sv0, k);
                let q = choose|q: int| 0 <= q < sv0.len() && sv0[q].0 == k;
                assert(sv[q].0 == k);
                lemma_alist_map_dom(sv, k);
            }
            assert forall|k: Seq<char>| #[trigger] oldview.contains_key(k) implies self@
                .contains_key(k) && self@[k] == oldview[k] by {
                assert(m_old.contains_key(k));
                assert(self.index@.contains_key(k));
                assert(self@[k] == entry_value(segs, self.index@[k]));
            }
            assert forall|k: Seq<char>| #[trigger] self@.contains_key(k) implies
                oldview.contains_key(k) by {
                assert(self.index@.contains_key(k));
                lemma_alist_map_dom(sv, k);
                let q = choose|q: int| 0 <= q < sv.len() && sv[q].0 == k;
                assert(sv0[q].0 == k);
                lemma_alist_map_dom(sv0, k);
                assert(m_old.contains_key(k));
            }
            assert(self@ =~= oldview);
            assert(sat64(replay(segs).1) == 0);
        }
    }
}

impl crate::engine::Engine for Store {
    /// The store's invariant.
    open spec fn inv(&self) -> bool {
        self.wf()
    }

    /// The store's key-value mapping.
    open spec fn model(&self) -> Map<Seq<char>, Seq<char>> {
        self@
    }

    /// Get the value of a key: look its entry up in the index and decode the
    /// value at the entry's offset in the entry's segment. A missing key is
    /// not an error. Never fails.
    fn get(&mut self, key: String) -> (r: Result<Option<String>, Error>)
        ensures
            *final(self) == *old(self),
            r is Ok,
    {
        let entry = match self.index.get(&key) {
            Some(e) => *e,
            None => {
                return Ok(None);
            },
        };
        let p = self.find_segment(entry.log_index);
        let seg = &self.segments[p];
        proof {
            lemma_seg_pos_unique(self.segs(), p as int);
            assert(seg@ == self.segs()[p as int]);
            assert(seg@ == seg_at(self.segs(), entry@.log_index));
            assert(parse_str(seg@.data, entry@.offset as int) is Some);
            assert(0 <= entry@.offset < seg@.data.len());
        }
        let dlen = seg.data().len();
        let off = entry.offset.get();
        proof {
            assert(0 <= entry@.offset < dlen as int);
            assert((off as usize) as int == entry@.offset as int);
        }
        match crate::codec::read_str(seg.data().as_slice(), off as usize) {
            Some((v, _)) => {
                proof {
                    assert(self@.contains_key(key@));
                    assert(self@[key@] == entry_value(self.segs(), self.index@[key@]));
                    assert(v@ == self@[key@]);
                }
                Ok(Some(v))
            },
            None => vstd::pervasive::unreached(),
        }
    }

    /// Set a key to a value: encode a `Put` record, append it to the active
    /// segment, and point the key's index entry at the new value. Fails
    /// exactly when the key or value is too long for the record format, and
    /// then changes nothing.
    fn set(&mut self, key: String, value: String) -> (r: Result<(), Error>)
        ensures
            r is Ok <==> command_encodable(CommandModel::Put { value: value@, key: key@ }),
            r matches Err(e) ==> e is Encode && *final(self) == *old(self),
            // when no compaction followed, the directory grew by exactly the
            // one encoded record, at the end of the active segment
            r is Ok && final(self).active() == old(self).active() ==> final(self).segs()
                == old(self).segs().update(
                old(self).segs().len() - 1,
                SegModel {
                    index: old(self).active(),
                    data: old(self).segs().last().data + spec_encode_command(
                        CommandModel::Put { value: value@, key: key@ },
                    ),
                },
            ),
            // compaction runs synchronously before returning whenever the
            // dead bytes exceed the threshold (unless the segment numbers
            // are exhausted), so a set never leaves them above it
            r is Ok ==> sat64(replay(final(self).segs()).1) <= COMPACTION_THRESHOLD
                || final(self).active() + 2 > u64::MAX,
            // and when it ran, it left two fresh segments and no dead bytes
            r is Ok ==> final(self).active() == old(self).active() || (final(self).active()
                == old(self).active() + 2 && final(self).segs().len() == 2 && sat64(
                replay(final(self).segs()).1,
            ) == 0),
            // compaction ran exactly when the appended record pushed the
            // dead bytes over the threshold and segment numbers remained
            r is Ok ==> ({
                let appended = old(self).segs().update(
                    old(self).segs().len() - 1,
                    SegModel {
                        index: old(self).active(),
                        data: old(self).segs().last().data + spec_encode_command(
                            CommandModel::Put { value: value@, key: key@ },
                        ),
                    },
                );
                final(self).active() == old(self).active() + 2 <==> (sat64(replay(appended).1)
                    > COMPACTION_THRESHOLD && old(self).active() + 2 <= u64::MAX)
            }),
    {
        let c = Command::Put { value, key: key.clone() };
        let bytes = match crate::codec::encode_command(&c) {
            Ok(b) => b,
            Err(e) => {
                return Err(e);
            },
        };
        let ghost oldsegs = self.segs();
        let ghost m_old = self.index@;
        let ghost dead_old = replay(oldsegs).1;
        let blen = bytes.len();
        let li = self.segments.len() - 1;
        let sidx = self.segments[li].log_index();
        let start = self.segments[li].data().len();
        let mut bytes = bytes;
        let seg = vstd::std_specs::vec::vec_index_mut(&mut self.segments, li);
        seg.data.append(&mut bytes);
        let newlen = seg.data.len();
        proof {
            assert(crate::codec::spec_encode_str(value@).len() >= 1);
            assert(crate::codec::spec_encode_str(key@).len() >= 1);
            assert(blen >= 4);
            let newsegs = self.segs();
            assert(newsegs.len() == oldsegs.len());
            assert(forall|i: int|
                0 <= i < oldsegs.len() - 1 ==> #[trigger] newsegs[i] == oldsegs[i]);
            assert(newsegs.last().index == sidx && newsegs.last().data == oldsegs.last().data
                + spec_encode_command(c@));
            assert(newsegs.last().data.len() == newlen as int);
            assert(start + blen == newlen as int);
            lemma_append_record(oldsegs, newsegs, c@, m_old);
        }
        let entry = IndexEntry {
            log_index: sidx,
            offset: Offset::from_record_start(start as u64),
            length: blen as u64,
        };
        let prior = self.index.insert(key, entry);
        match prior {
            Some(pe) => {
                self.uncompacted = sat_add(self.uncompacted, pe.length);
            },
            None => {},
        }
        proof {
            let newsegs = self.segs();
            let (m2, delta) = replay_step(
                m_old,
                sidx,
                c@,
                (start + 3) as u64,
                blen as u64,
            );
            assert(self.index@ =~= m2);
            lemma_sat64_add(dead_old, delta);
            assert(self.uncompacted == sat64(replay(newsegs).1));
            let e_new = EntryModel {
                log_index: sidx,
                offset: (start + 3) as u64,
                length: blen as u64,
            };
            assert forall|k: Seq<char>| #[trigger] self.index@.contains_key(k) implies entry_valid(
                newsegs,
                self.index@[k],
            ) && encodable_str(k) && encodable_str(entry_value(newsegs, self.index@[k])) by {
                if k != key@ {
                    assert(m_old.contains_key(k) && self.index@[k] == m_old[k]);
                } else {
                    assert(self.index@[k] == e_new);
                    assert(entry_value(newsegs, e_new) == value@);
                }
            }
            assert(self@ =~= old(self)@.insert(key@, value@));
            assert(old(self).active() == sidx);
            assert(self.segs() =~= oldsegs.update(
                oldsegs.len() - 1,
                SegModel { index: sidx, data: oldsegs.last().data + spec_encode_command(c@) },
            ));
            assert(self.active() == sidx);
        }
        if self.uncompacted > COMPACTION_THRESHOLD {
            let li2 = self.segments.len() - 1;
            let active = self.segments[li2].log_index();
            proof {
                assert(self.segs()[li2 as int] == self.segments@[li2 as int]@);
                assert(self.active() == active);
            }
            if active <= u64::MAX - 2 {
                let ghost before = self@;
                self.compact();
                proof {
                    assert(self@ == before);
                }
            } else {
                proof {
                    assert(self.active() + 2 > u64::MAX);
                }
            }
        } else {
            proof {
                assert(sat64(replay(self.segs()).1) <= COMPACTION_THRESHOLD);
            }
        }
        Ok(())
    }

    /// Remove a key: if it is not live, fail with `KeyNotFound` and append
    /// nothing; otherwise encode a `Remove` record, append it to the active
    /// segment, and drop the key's entry from the index.
    fn remove(&mut self, key: String) -> (r: Result<(), Error>)
        ensures
            old(self)@.contains_key(key@) ==> r is Ok,
            !old(self)@.contains_key(key@) ==> (r matches Err(e) && e is KeyNotFound
                && *final(self) == *old(self)),
            // the directory grew by exactly the one encoded record, at the
            // end of the active segment (a remove never compacts)
            r is Ok ==> final(self).segs() == old(self).segs().update(
                old(self).segs().len() - 1,
                SegModel {
                    index: old(self).active(),
                    data: old(self).segs().last().data + spec_encode_command(
                        CommandModel::Remove { key: key@ },
                    ),
                },
            ),
    {
        let present = match self.index.get(&key) {
            Some(_) => true,
            None => false,
        };
        if !present {
            return Err(Error::KeyNotFound);
        }
        let c = Command::Remove { key: key.clone() };
        let bytes = match crate::codec::encode_command(&c) {
            Ok(b) => b,
            Err(_) => {
                proof {
                    assert(encodable_str(key@));
                }
                vstd::pervasive::unreached()
            },
        };
        let ghost oldsegs = self.segs();
        let ghost m_old = self.index@;
        let ghost dead_old = replay(oldsegs).1;
        let blen = bytes.len();
        let li = self.segments.len() - 1;
        let sidx = self.segments[li].log_index();
        let mut bytes = bytes;
        let seg = vstd::std_specs::vec::vec_index_mut(&mut self.segments, li);
        seg.data.append(&mut bytes);
        let newlen = seg.data.len();
        proof {
            assert(crate::codec::spec_encode_str(key@).len() >= 1);
            assert(blen >= 4);
            let newsegs = self.segs();
            assert(newsegs.len() == oldsegs.len());
            assert(forall|i: int|
                0 <= i < oldsegs.len() - 1 ==> #[trigger] newsegs[i] == oldsegs[i]);
            assert(newsegs.last().index == sidx && newsegs.last().data == oldsegs.last().data
                + spec_encode_command(c@));
            assert(newsegs.last().data.len() == newlen as int);
            lemma_append_record(oldsegs, newsegs, c@, m_old);
        }
        let prior = match self.index.remove(&key) {
            Some(pe) => pe,
            None => vstd::pervasive::unreached(),
        };
        self.uncompacted = sat_add(self.uncompacted, sat_add(blen as u64, prior.length));
        proof {
            let newsegs = self.segs();
            let (m2, delta) = replay_step(
                m_old,
                sidx,
                c@,
                (oldsegs.last().data.len() + 3) as u64,
                blen as u64,
            );
            assert(self.index@ =~= m2);
            lemma_sat64_add(dead_old, delta);
            assert(self.uncompacted == sat64(replay(newsegs).1));
            assert forall|k: Seq<char>| #[trigger] self.index@.contains_key(k) implies entry_valid(
                newsegs,
                self.index@[k],
            ) && encodable_str(k) && encodable_str(entry_value(newsegs, self.index@[k])) by {
                assert(m_old.contains_key(k) && self.index@[k] == m_old[k]);
            }
            assert(self@ =~= old(self)@.remove(key@));
            assert(old(self).active() == sidx);
            assert(self.segs() =~= oldsegs.update(
                oldsegs.len() - 1,
                SegModel { index: sidx, data: oldsegs.last().data + spec_encode_command(c@) },
            ));
        }
        Ok(())
    }
}

/// Entries valid for a directory stay valid when a fresh segment is added
/// after it.
proof fn lemma_entries_valid_push(
    km: Seq<SegModel>,
    s: SegModel,
    m: Map<Seq<char>, EntryModel>,
)
    requires
        segs_increasing(km.push(s)),
        entries_valid(km, m),
    ensures
        entries_valid(km.push(s), m),
        forall|k: Seq<char>| #[trigger]
            m.contains_key(k) ==> entry_value(km.push(s), m[k]) == entry_value(km, m[k]),
{
    let nsegs = km.push(s);
    assert forall|x: int, y: int| 0 <= x < y < km.len() implies km[x].index < km[y].index by {
        assert(nsegs[x] == km[x] && nsegs[y] == km[y]);
    }
    assert forall|k: Seq<char>| #[trigger] m.contains_key(k) implies entry_valid(nsegs, m[k])
        && encodable_str(k) && encodable_str(entry_value(nsegs, m[k])) && entry_value(
        nsegs,
        m[k],
    ) == entry_value(km, m[k]) by {
        let e = m[k];
        let p = seg_pos(km, e.log_index);
        assert(0 <= p < km.len() && km[p].index == e.log_index);
        lemma_seg_pos_unique(km, p);
        assert(nsegs[p] == km[p]);
        lemma_seg_pos_unique(nsegs, p);
    }
}

/// The ghost bookkeeping for replaying one record of the segment being
/// opened: the segment's kept prefix grows by the record, the replay of the
/// directory-so-far steps once, every index entry stays valid, and the
/// segment's valid prefix is unchanged.
#[verifier::rlimit(100)]
proof fn lemma_open_step(
    km: Seq<SegModel>,
    sidx: u64,
    b: Seq<u8>,
    pos0: int,
    end: int,
    c: CommandModel,
    m_old: Map<Seq<char>, EntryModel>,
)
    requires
        0 <= pos0 < end <= b.len(),
        b.len() <= u64::MAX,
        parse_command(b, pos0) == Some((c, end)),
        forall|p: int| 0 <= p < km.len() ==> (#[trigger] km[p]).index < sidx,
        segs_increasing(km),
        stream_ok_from(b.subrange(0, pos0), 0),
        m_old == replay(km.push(SegModel { index: sidx, data: b.subrange(0, pos0) })).0,
        entries_valid(km.push(SegModel { index: sidx, data: b.subrange(0, pos0) }), m_old),
    ensures
        stream_ok_from(b.subrange(0, end), 0),
        segs_increasing(km.push(SegModel { index: sidx, data: b.subrange(0, end) })),
        ({
            let prev = replay(km.push(SegModel { index: sidx, data: b.subrange(0, pos0) }));
            let (m2, delta) = replay_step(
                m_old,
                sidx,
                c,
                (pos0 + 3) as u64,
                (end - pos0) as u64,
            );
            replay(km.push(SegModel { index: sidx, data: b.subrange(0, end) })) == (
                m2,
                prev.1 + delta,
            ) && delta >= 0 && prev.1 >= 0 && m2 == replay_step(
                m_old,
                sidx,
                c,
                (pos0 + 3) as u64,
                (end - pos0) as u64,
            ).0
        }),
        entries_valid(
            km.push(SegModel { index: sidx, data: b.subrange(0, end) }),
            replay_step(m_old, sidx, c, (pos0 + 3) as u64, (end - pos0) as u64).0,
        ),
        valid_prefix_end(b, pos0) == valid_prefix_end(b, end),
{
    let prev = b.subrange(0, pos0);
    let cur = b.subrange(0, end);
    let prevm = SegModel { index: sidx, data: prev };
    let curm = SegModel { index: sidx, data: cur };
    let osegs = km.push(prevm);
    let nsegs = km.push(curm);
    // the record parses the same inside its own window
    assert(forall|i: int| pos0 <= i < end ==> b[i] == cur[i]);
    lemma_parse_command_stable(b, cur, pos0);
    // the prefix replay is the base replay followed by this segment
    let base = replay(km);
    lemma_replay_upto_agree(osegs, km, km.len() as int);
    lemma_replay_upto_agree(nsegs, km, km.len() as int);
    assert(replay(osegs) == replay_seg_from(base.0, base.1, sidx, prev, 0));
    assert(replay(nsegs) == replay_seg_from(base.0, base.1, sidx, cur, 0));
    // appending the record steps the replay once
    assert(forall|i: int| 0 <= i < prev.len() ==> prev[i] == cur[i]);
    lemma_replay_append(base.0, base.1, sidx, prev, cur, 0, c);
    lemma_replay_dead_nonneg(osegs, osegs.len() as int);
    // every entry of the stepped index points at a decodable value
    let m_new = replay_step(m_old, sidx, c, (pos0 + 3) as u64, (end - pos0) as u64).0;
    assert forall|k: Seq<char>| #[trigger] m_new.contains_key(k) implies entry_valid(
        nsegs,
        m_new[k],
    ) && encodable_str(k) && encodable_str(entry_value(nsegs, m_new[k])) by {
        let is_new_put_key = match c {
            CommandModel::Put { value, key } => k == key,
            CommandModel::Remove { key } => false,
        };
        if is_new_put_key {
            let e = m_new[k];
            assert(e.log_index == sidx && e.offset == (pos0 + 3) as u64 && e.offset as int == pos0
                + 3);
            lemma_seg_pos_unique(nsegs, km.len() as int);
            assert(seg_at(nsegs, sidx) == curm);
            assert(parse_str(cur, pos0 + 3) is Some);
            lemma_parse_str_encodable(cur, pos0 + 3);
            let mid = parse_str(cur, pos0 + 3)->Some_0.1;
            lemma_parse_str_encodable(cur, mid);
        } else {
            assert(m_old.contains_key(k) && m_new[k] == m_old[k]);
            let e = m_old[k];
            let p = seg_pos(osegs, e.log_index);
            assert(0 <= p < osegs.len() && osegs[p].index == e.log_index);
            lemma_seg_pos_unique(osegs, p);
            assert(nsegs[p].index == osegs[p].index);
            lemma_seg_pos_unique(nsegs, p);
            if p < km.len() {
                assert(nsegs[p] == osegs[p]);
            } else {
                assert(seg_at(osegs, e.log_index) == prevm);
                assert(seg_at(nsegs, e.log_index) == curm);
                lemma_parse_str_bounds(prev, e.offset as int);
                let pend = parse_str(prev, e.offset as int)->Some_0.1;
                assert(forall|i: int| e.offset as int <= i < pend ==> prev[i] == cur[i]);
                lemma_parse_str_stable(prev, cur, e.offset as int);
            }
        }
    }
}

/// The ghost bookkeeping for appending one encoded record to the active
/// segment: the replay of the directory steps once, every old entry stays
/// valid and keeps its value, and a `Put`'s fresh entry reads back the value
/// just written.
#[verifier::rlimit(100)]
proof fn lemma_append_record(
    oldsegs: Seq<SegModel>,
    newsegs: Seq<SegModel>,
    c: CommandModel,
    m_old: Map<Seq<char>, EntryModel>,
)
    requires
        oldsegs.len() > 0,
        segs_increasing(oldsegs),
        streams_ok(oldsegs),
        command_encodable(c),
        newsegs.len() == oldsegs.len(),
        forall|i: int| 0 <= i < oldsegs.len() - 1 ==> #[trigger] newsegs[i] == oldsegs[i],
        newsegs.last().index == oldsegs.last().index,
        newsegs.last().data == oldsegs.last().data + spec_encode_command(c),
        newsegs.last().data.len() <= u64::MAX,
        m_old == replay(oldsegs).0,
        entries_valid(oldsegs, m_old),
    ensures
        segs_increasing(newsegs),
        streams_ok(newsegs),
        ({
            let start = oldsegs.last().data.len() as int;
            let len = spec_encode_command(c).len() as int;
            let (m2, delta) = replay_step(
                m_old,
                oldsegs.last().index,
                c,
                (start + 3) as u64,
                len as u64,
            );
            &&& replay(newsegs) == (m2, replay(oldsegs).1 + delta)
            &&& delta >= 0
            &&& replay(oldsegs).1 >= 0
        }),
        forall|k: Seq<char>| #[trigger]
            m_old.contains_key(k) ==> entry_valid(newsegs, m_old[k]) && entry_value(
                newsegs,
                m_old[k],
            ) == entry_value(oldsegs, m_old[k]),
        match c {
            CommandModel::Put { value, key } => {
                let e = EntryModel {
                    log_index: oldsegs.last().index,
                    offset: (oldsegs.last().data.len() + 3) as u64,
                    length: spec_encode_command(c).len() as u64,
                };
                entry_valid(newsegs, e) && entry_value(newsegs, e) == value
            },
            CommandModel::Remove { key } => true,
        },
{
    let n = oldsegs.len() as int;
    let sidx = oldsegs.last().index;
    let old_data = oldsegs.last().data;
    let new_data = newsegs.last().data;
    let enc = spec_encode_command(c);
    let start = old_data.len() as int;
    // segment numbers are unchanged
    assert forall|i: int| 0 <= i < n implies newsegs[i].index == oldsegs[i].index by {
        if i < n - 1 {
        } else {
            assert(newsegs[i] == newsegs.last() && oldsegs[i] == oldsegs.last());
        }
    }
    // the appended record parses canonically at its start
    assert(new_data.subrange(start, start + enc.len()) =~= enc);
    lemma_parse_command_encoding(new_data, start, c);
    // the replay of everything before the active segment is unchanged
    lemma_replay_upto_agree(newsegs, oldsegs, n - 1);
    let base = replay_upto(oldsegs, n - 1);
    assert(replay(oldsegs) == replay_seg_from(base.0, base.1, sidx, old_data, 0));
    assert(replay(newsegs) == replay_seg_from(base.0, base.1, sidx, new_data, 0));
    // appending the record steps the replay once
    assert(forall|i: int| 0 <= i < old_data.len() ==> old_data[i] == new_data[i]);
    assert(stream_ok_from(old_data, 0));
    lemma_replay_append(base.0, base.1, sidx, old_data, new_data, 0, c);
    lemma_replay_dead_nonneg(oldsegs, n);
    // streams stay complete
    assert forall|i: int| 0 <= i < n implies stream_ok_from(#[trigger] newsegs[i].data, 0) by {
        if i < n - 1 {
            assert(newsegs[i] == oldsegs[i]);
        } else {
            assert(newsegs[i].data == new_data);
        }
    }
    // old entries keep pointing at the same decodable values
    assert forall|k: Seq<char>| #[trigger] m_old.contains_key(k) implies entry_valid(
        newsegs,
        m_old[k],
    ) && entry_value(newsegs, m_old[k]) == entry_value(oldsegs, m_old[k]) by {
        let e = m_old[k];
        let p = seg_pos(oldsegs, e.log_index);
        assert(0 <= p < n && oldsegs[p].index == e.log_index);
        lemma_seg_pos_unique(oldsegs, p);
        lemma_seg_pos_unique(newsegs, p);
        if p < n - 1 {
            assert(newsegs[p] == oldsegs[p]);
        } else {
            assert(seg_at(oldsegs, e.log_index) == oldsegs.last());
            assert(seg_at(newsegs, e.log_index) == newsegs.last());
            lemma_parse_str_bounds(old_data, e.offset as int);
            lemma_parse_str_stable(old_data, new_data, e.offset as int);
        }
    }
    // a Put's new entry reads back the value just written
    match c {
        CommandModel::Put { value, key } => {
            lemma_value_at_offset(new_data, start, value, key);
            lemma_seg_pos_unique(newsegs, n - 1);
            assert(seg_at(newsegs, sidx) == newsegs.last());
        },
        CommandModel::Remove { key } => {},
    }
}

/// The character of one decimal digit.
pub open spec fn digit_char(d: nat) -> char
    recommends
        d < 10,
{
    if d == 0 {
        '0'
    } else if d == 1 {
        '1'
    } else if d == 2 {
        '2'
    } else if d == 3 {
        '3'
    } else if d == 4 {
        '4'
    } else if d == 5 {
        '5'
    } else if d == 6 {
        '6'
    } else if d == 7 {
        '7'
    } else if d == 8 {
        '8'
    } else {
        '9'
    }
}

/// The decimal digits of `n`, most significant first.
pub open spec fn dec_digits(n: nat) -> Seq<char>
    decreases n,
{
    if n < 10 {
        seq![digit_char(n)]
    } else {
        dec_digits(n / 10).push(digit_char(n % 10))
    }
}

/// The ASCII bytes of those digits.
spec fn dec_bytes(n: nat) -> Seq<u8>
    decreases n,
{
    if n < 10 {
        seq![(0x30 + n) as u8]
    } else {
        dec_bytes(n / 10).push((0x30 + n % 10) as u8)
    }
}

/// A digit's character is the ASCII character of its byte.
proof fn lemma_digit_char_byte(d: nat)
    requires
        d < 10,
    ensures
        '\0' <= digit_char(d) <= '\u{7f}',
        digit_char(d) as u8 == (0x30 + d) as u8,
{
}

/// The digit characters line up with the digit bytes, and all are ASCII.
proof fn lemma_dec_digits_bytes(n: nat)
    ensures
        dec_digits(n).len() == dec_bytes(n).len(),
        dec_digits(n).len() >= 1,
        forall|i: int|
            0 <= i < dec_digits(n).len() ==> '\0' <= #[trigger] dec_digits(n)[i] <= '\u{7f}'
                && dec_digits(n)[i] as u8 == dec_bytes(n)[i],
    decreases n,
{
    if n < 10 {
        lemma_digit_char_byte(n);
    } else {
        lemma_dec_digits_bytes(n / 10);
        lemma_digit_char_byte(n % 10);
        assert forall|i: int| 0 <= i < dec_digits(n).len() implies '\0'
            <= #[trigger] dec_digits(n)[i] <= '\u{7f}' && dec_digits(n)[i] as u8 == dec_bytes(
            n,
        )[i] by {
            if i < dec_digits(n / 10).len() {
                assert(dec_digits(n)[i] == dec_digits(n / 10)[i]);
                assert(dec_bytes(n)[i] == dec_bytes(n / 10)[i]);
            }
        }
    }
}

/// Appends the decimal digits of `n` as ASCII bytes.
fn push_dec(out: &mut Vec<u8>, n: u64)
    ensures
        final(out)@ == old(out)@ + dec_bytes(n as nat),
    decreases n,
{
    if n >= 10 {
        push_dec(out, n / 10);
    }
    out.push(0x30u8 + (n % 10) as u8);
    proof {
        assert(final(out)@ =~= old(out)@ + dec_bytes(n as nat));
    }
}

/// The file name of the segment numbered `index`: its decimal digits with
/// the `.log` extension.
pub fn log_path(index: u64) -> (r: String)
    ensures
        r@ == dec_digits(index as nat) + ".log"@,
{
    let mut bytes: Vec<u8> = Vec::new();
    push_dec(&mut bytes, index);
    bytes.push(0x2eu8);
    bytes.push(0x6cu8);
    bytes.push(0x6fu8);
    bytes.push(0x67u8);
    proof {
        reveal_strlit(".log");
        let chars = dec_digits(index as nat) + ".log"@;
        let dn = dec_digits(index as nat).len() as int;
        lemma_dec_digits_bytes(index as nat);
        assert(".log"@.len() == 4);
        assert(".log"@[0] == '.' && ".log"@[1] == 'l' && ".log"@[2] == 'o' && ".log"@[3] == 'g');
        assert(bytes@.len() == chars.len());
        assert forall|i: int| 0 <= i < chars.len() implies '\0' <= #[trigger] chars[i]
            <= '\u{7f}' && chars[i] as u8 == bytes@[i] by {
            if i < dn {
                assert(chars[i] == dec_digits(index as nat)[i]);
                assert(bytes@[i] == dec_bytes(index as nat)[i]);
            } else {
                assert(chars[i] == ".log"@[i - dn]);
            }
        }
        assert(vstd::utf8::is_ascii_chars(chars));
        vstd::utf8::is_ascii_chars_encode_utf8(chars);
        assert(vstd::utf8::encode_utf8(chars) =~= bytes@);
        vstd::utf8::encode_utf8_valid_utf8(chars);
        vstd::utf8::encode_utf8_decode_utf8(chars);
    }
    match crate::codec::string_from_utf8(bytes) {
        Some(s) => {
            proof {
                vstd::utf8::encode_utf8_decode_utf8(s@);
                vstd::utf8::encode_utf8_decode_utf8(dec_digits(index as nat) + ".log"@);
                assert(s@ == dec_digits(index as nat) + ".log"@);
            }
            s
        },
        None => vstd::pervasive::unreached(),
    }
}

/// Inserting an element into a sequence adds exactly it to the members.
proof fn lemma_insert_contains(s: Seq<u64>, p: int, x: u64, y: u64)
    requires
        0 <= p <= s.len(),
    ensures
        s.insert(p, x).contains(y) <==> (s.contains(y) || y == x),
{
    let s2 = s.insert(p, x);
    if s.contains(y) {
        let w = choose|w: int| 0 <= w < s.len() && s[w] == y;
        if w < p {
            assert(s2[w] == y);
        } else {
            assert(s2[w + 1] == y);
        }
    }
    assert(s2[p] == x);
    if s2.contains(y) && y != x {
        let w = choose|w: int| 0 <= w < s2.len() && s2[w] == y;
        if w < p {
            assert(s[w] == y);
        } else if w > p {
            assert(s[w - 1] == y);
        }
    }
}

/// Pushing an element onto a sequence adds exactly it to the members.
proof fn lemma_push_contains(s: Seq<u64>, a: u64, y: u64)
    ensures
        s.push(a).contains(y) <==> (s.contains(y) || y == a),
{
    let s2 = s.push(a);
    if s.contains(y) {
        let w = choose|w: int| 0 <= w < s.len() && s[w] == y;
        assert(s2[w] == y);
    }
    assert(s2[s.len() as int] == a);
    if s2.contains(y) && y != a {
        let w = choose|w: int| 0 <= w < s2.len() && s2[w] == y;
        assert(s[w] == y);
    }
}

/// Sorts directory numbers ascending and drops duplicates: the order and
/// distinctness [`Store::open`] requires of the segments it is handed.
pub fn sort_indices(v: &Vec<u64>) -> (r: Vec<u64>)
    ensures
        forall|i: int, j: int| 0 <= i < j < r@.len() ==> r@[i] < r@[j],
        forall|x: u64| r@.contains(x) <==> v@.contains(x),
{
    let mut r: Vec<u64> = Vec::new();
    let n = v.len();
    let mut i: usize = 0;
    while i < n
        invariant
            n == v@.len(),
            0 <= i <= n,
            forall|a: int, b: int| 0 <= a < b < r@.len() ==> r@[a] < r@[b],
            forall|x: u64| r@.contains(x) <==> v@.subrange(0, i as int).contains(x),
        decreases n - i,
    {
        let x = v[i];
        let m = r.len();
        let mut p: usize = 0;
        while p < m && r[p] < x
            invariant
                m == r@.len(),
                0 <= p <= m,
                forall|q: int| 0 <= q < p ==> r@[q] < x,
            decreases m - p,
        {
            p += 1;
        }
        let ghost r_old = r@;
        let duplicate = p < m && r[p] == x;
        if !duplicate {
            r.insert(p, x);
            proof {
                assert forall|a: int, b: int| 0 <= a < b < r@.len() implies r@[a] < r@[b] by {
                    if b < p {
                        assert(r@[a] == r_old[a] && r@[b] == r_old[b]);
                    } else if a < p && b == p {
                        assert(r@[a] == r_old[a] && r@[b] == x);
                    } else if a < p {
                        assert(r@[a] == r_old[a] && r@[b] == r_old[b - 1]);
                        assert(r_old[b - 1] >= x || b - 1 < p);
                    } else if a == p {
                        assert(r@[a] == x && r@[b] == r_old[b - 1]);
                        assert(r_old[p as int] > x);
                        assert(r_old[b - 1] >= r_old[p as int]);
                    } else {
                        assert(r@[a] == r_old[a - 1] && r@[b] == r_old[b - 1]);
                    }
                }
            }
        }
        proof {
            assert(v@.subrange(0, (i + 1) as int) =~= v@.subrange(0, i as int).push(
                v@[i as int],
            ));
            assert forall|y: u64| r@.contains(y) <==> v@.subrange(0, (i + 1) as int).contains(
                y,
            ) by {
                lemma_push_contains(v@.subrange(0, i as int), x, y);
                if duplicate {
                    if y == x {
                        assert(r_old[p as int] == x);
                        assert(r_old.contains(x));
                    }
                } else {
                    lemma_insert_contains(r_old, p as int, x, y);
                }
            }
        }
        i += 1;
    }
    proof {
        assert(v@.subrange(0, n as int) =~= v@);
    }
    r
}

/// A complete stream's valid prefix is the whole stream.
pub proof fn lemma_stream_ok_valid_prefix(b: Seq<u8>, pos: int)
    requires
        0 <= pos <= b.len(),
        stream_ok_from(b, pos),
    ensures
        valid_prefix_end(b, pos) == b.len(),
    decreases b.len() - pos,
{
    if pos < b.len() {
        let (c, end) = parse_command(b, pos)->Some_0;
        lemma_stream_ok_valid_prefix(b, end);
    }
}

} // verus!
