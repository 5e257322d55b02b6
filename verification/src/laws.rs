//! Laws of the store's user-visible state. The store's `set`, `remove` and
//! `get` say in their contracts how each call moves the key-value mapping
//! (`insert`, `remove`, lookup); these laws say what whole histories of such
//! moves amount to.

use vstd::prelude::*;
use vstd::set_lib::lemma_len_subset;
use vstd::utf8::encode_utf8;

use crate::codec::{
    command_encodable, spec_encode_command, spec_encode_str,
    lemma_parse_command_encoding,
};
use crate::command::CommandModel;
use crate::index::EntryModel;
use crate::store::{
    replay, replay_seg_from, replay_step, replay_upto, sat64, stream_ok_from,
    lemma_replay_append, SegModel, COMPACTION_THRESHOLD,
};

verus! {

/// One mutation of a store, at the level of its key-value mapping.
pub enum StoreOp {
    /// Set `key` to `value`.
    Put { key: Seq<char>, value: Seq<char> },
    /// Remove `key`.
    Remove { key: Seq<char> },
}

/// How one mutation moves the mapping: exactly what `set` and `remove`
/// promise in their contracts.
pub open spec fn apply_op(
    m: Map<Seq<char>, Seq<char>>,
    op: StoreOp,
) -> Map<Seq<char>, Seq<char>> {
    match op {
        StoreOp::Put { key, value } => m.insert(key, value),
        StoreOp::Remove { key } => m.remove(key),
    }
}

/// A whole history of mutations, applied in order.
pub open spec fn apply_ops(
    m: Map<Seq<char>, Seq<char>>,
    ops: Seq<StoreOp>,
) -> Map<Seq<char>, Seq<char>>
    decreases ops.len(),
{
    if ops.len() == 0 {
        m
    } else {
        apply_op(apply_ops(m, ops.drop_last()), ops.last())
    }
}

/// The value of the last `Put` for `k` not followed by a `Remove` of `k`,
/// if there is one.
pub open spec fn last_write(ops: Seq<StoreOp>, k: Seq<char>) -> Option<Seq<char>>
    decreases ops.len(),
{
    if ops.len() == 0 {
        None
    } else {
        match ops.last() {
            StoreOp::Put { key, value } => if key == k {
                Some(value)
            } else {
                last_write(ops.drop_last(), k)
            },
            StoreOp::Remove { key } => if key == k {
                None
            } else {
                last_write(ops.drop_last(), k)
            },
        }
    }
}

/// Every key ever set by a history.
pub open spec fn put_keys(ops: Seq<StoreOp>) -> Set<Seq<char>>
    decreases ops.len(),
{
    if ops.len() == 0 {
        Set::empty()
    } else {
        match ops.last() {
            StoreOp::Put { key, value } => put_keys(ops.drop_last()).insert(key),
            StoreOp::Remove { key } => put_keys(ops.drop_last()),
        }
    }
}

/// After any sequence of mutations on a fresh store, a key reads as the
/// value of the last `Put` for it that no later `Remove` cancelled, and as
/// absent otherwise.
pub proof fn lemma_last_write_wins(ops: Seq<StoreOp>, k: Seq<char>)
    ensures
        match last_write(ops, k) {
            Some(v) => apply_ops(Map::empty(), ops).contains_key(k) && apply_ops(
                Map::empty(),
                ops,
            )[k] == v,
            None => !apply_ops(Map::empty(), ops).contains_key(k),
        },
    decreases ops.len(),
{
    if ops.len() > 0 {
        lemma_last_write_wins(ops.drop_last(), k);
    }
}

/// At any time a store's index holds no more keys than were ever set.
pub proof fn lemma_index_size_bounded(ops: Seq<StoreOp>)
    ensures
        apply_ops(Map::empty(), ops).dom().finite(),
        put_keys(ops).finite(),
        apply_ops(Map::empty(), ops).dom() <= put_keys(ops),
        apply_ops(Map::empty(), ops).dom().len() <= put_keys(ops).len(),
    decreases ops.len(),
{
    if ops.len() == 0 {
        assert(apply_ops(Map::empty(), ops).dom() =~= Set::<Seq<char>>::empty());
    } else {
        lemma_index_size_bounded(ops.drop_last());
        let prev = apply_ops(Map::empty(), ops.drop_last());
        match ops.last() {
            StoreOp::Put { key, value } => {
                assert(apply_ops(Map::empty(), ops).dom() =~= prev.dom().insert(key));
            },
            StoreOp::Remove { key } => {
                assert(apply_ops(Map::empty(), ops).dom() =~= prev.dom().remove(key));
                assert(apply_ops(Map::empty(), ops).dom() <= prev.dom());
            },
        }
    }
    lemma_len_subset(apply_ops(Map::empty(), ops).dom(), put_keys(ops));
}

/// A segment holding a record and then an overwrite of the same key carries
/// the whole first record as dead bytes. So when the first value is at least
/// the compaction threshold long, the dead bytes exceed the threshold, and
/// by `set`'s contract the set that appended the overwrite compacts (unless
/// the segment numbers are exhausted).
#[verifier::rlimit(100)]
pub proof fn lemma_overwrite_crosses_threshold(seg: u64, v1: Seq<char>, v2: Seq<char>, k: Seq<char>)
    requires
        command_encodable(CommandModel::Put { value: v1, key: k }),
        command_encodable(CommandModel::Put { value: v2, key: k }),
        encode_utf8(v1).len() >= COMPACTION_THRESHOLD,
    ensures
        ({
            let data = spec_encode_command(CommandModel::Put { value: v1, key: k })
                + spec_encode_command(CommandModel::Put { value: v2, key: k });
            sat64(replay(seq![SegModel { index: seg, data }]).1) > COMPACTION_THRESHOLD
        }),
{
    let c1 = CommandModel::Put { value: v1, key: k };
    let c2 = CommandModel::Put { value: v2, key: k };
    let e1 = spec_encode_command(c1);
    let e2 = spec_encode_command(c2);
    let data = e1 + e2;
    let l1 = e1.len() as int;
    // each record parses where it was written
    assert(e1.subrange(0, l1) =~= e1);
    lemma_parse_command_encoding(e1, 0, c1);
    assert(data.subrange(l1, l1 + e2.len() as int) =~= e2);
    lemma_parse_command_encoding(data, l1, c2);
    // a one-record stream is complete
    assert(stream_ok_from(e1, l1));
    assert(stream_ok_from(e1, 0));
    // replaying the first record inserts the key, killing nothing
    let m0 = Map::<Seq<char>, EntryModel>::empty();
    let (m1, d1) = replay_step(m0, seg, c1, 3u64, l1 as u64);
    assert(d1 == 0);
    assert(replay_seg_from(m1, 0int, seg, e1, l1) == (m1, 0int));
    assert(replay_seg_from(m0, 0int, seg, e1, 0) == (m1, 0int));
    // the overwrite kills the whole first record
    lemma_replay_append(m0, 0int, seg, e1, data, 0, c2);
    assert(m1.contains_key(k) && m1[k].length == l1 as u64);
    let (m2, d2) = replay_step(m1, seg, c2, (l1 + 3) as u64, e2.len() as u64);
    assert(replay_seg_from(m0, 0int, seg, data, 0) == (m2, 0int + d2));
    // which is the whole directory's dead-byte count
    let segs = seq![SegModel { index: seg, data }];
    assert(replay_upto(segs, 0) == (m0, 0int));
    assert(segs[0].data == data);
    assert(replay(segs) == replay_seg_from(m0, 0int, seg, data, 0));
    // the first record is longer than the threshold and fits a u64
    assert(spec_encode_str(v1).len() >= 1 + encode_utf8(v1).len());
    assert(spec_encode_str(v1).len() <= 5 + encode_utf8(v1).len());
    assert(spec_encode_str(k).len() <= 5 + encode_utf8(k).len());
    assert(l1 > COMPACTION_THRESHOLD);
    assert(l1 <= u64::MAX);
    assert(sat64(replay(segs).1) == l1 as u64);
}

/// Setting a key twice to one value leaves the state a single set leaves.
pub proof fn lemma_set_idempotent(m: Map<Seq<char>, Seq<char>>, k: Seq<char>, v: Seq<char>)
    ensures
        m.insert(k, v).insert(k, v) == m.insert(k, v),
{
    assert(m.insert(k, v).insert(k, v) =~= m.insert(k, v));
}

} // verus!
