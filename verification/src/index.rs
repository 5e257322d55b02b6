//! The in-memory index: a mapping from each live key to the location of its
//! most recent value. Keys are unique; the store consults it on every
//! operation and rebuilds it from the segment files on open.

use vstd::prelude::*;

use crate::command::Offset;

verus! {

/// Where the most recent value of a key lives: the segment, the absolute
/// byte offset of the encoded value inside it, and the total byte length of
/// the record the value came from.
#[derive(Debug, Clone, Copy)]
pub struct IndexEntry {
    /// The index of the segment holding the record.
    pub log_index: u64,
    /// The absolute offset of the encoded value within that segment.
    pub offset: Offset,
    /// The byte length of the whole record.
    pub length: u64,
}

/// The mathematical shape of an [`IndexEntry`].
pub struct EntryModel {
    /// The index of the segment holding the record.
    pub log_index: u64,
    /// The absolute offset of the encoded value within that segment.
    pub offset: u64,
    /// The byte length of the whole record.
    pub length: u64,
}

impl View for IndexEntry {
    type V = EntryModel;

    open spec fn view(&self) -> EntryModel {
        EntryModel { log_index: self.log_index, offset: self.offset@, length: self.length }
    }
}

/// The mapping an association list stands for: a later pair for the same key
/// wins, though a well-formed index never holds two pairs for one key.
pub open spec fn alist_map(s: Seq<(Seq<char>, EntryModel)>) -> Map<Seq<char>, EntryModel>
    decreases s.len(),
{
    if s.len() == 0 {
        Map::empty()
    } else {
        alist_map(s.drop_last()).insert(s.last().0, s.last().1)
    }
}

/// True when no key occurs twice.
pub open spec fn alist_keys_distinct(s: Seq<(Seq<char>, EntryModel)>) -> bool {
    forall|i: int, j: int| 0 <= i < j < s.len() ==> s[i].0 != s[j].0
}

/// A key is in the mapping exactly when some pair holds it.
pub proof fn lemma_alist_map_dom(s: Seq<(Seq<char>, EntryModel)>, k: Seq<char>)
    ensures
        alist_map(s).contains_key(k) <==> exists|i: int| 0 <= i < s.len() && s[i].0 == k,
    decreases s.len(),
{
    if s.len() > 0 {
        lemma_alist_map_dom(s.drop_last(), k);
        if s.last().0 == k {
            assert(s[s.len() - 1].0 == k);
        } else if alist_map(s).contains_key(k) {
            let i = choose|i: int| 0 <= i < s.drop_last().len() && s.drop_last()[i].0 == k;
            assert(s[i].0 == k);
        } else {
            if exists|i: int| 0 <= i < s.len() && s[i].0 == k {
                let i = choose|i: int| 0 <= i < s.len() && s[i].0 == k;
                assert(s.drop_last()[i].0 == k);
            }
        }
    }
}

/// With distinct keys, the mapping sends each pair's key to that pair's
/// entry.
pub proof fn lemma_alist_map_index(s: Seq<(Seq<char>, EntryModel)>, i: int)
    requires
        alist_keys_distinct(s),
        0 <= i < s.len(),
    ensures
        alist_map(s).contains_key(s[i].0),
        alist_map(s)[s[i].0] == s[i].1,
    decreases s.len(),
{
    if i == s.len() - 1 {
    } else {
        lemma_alist_map_index(s.drop_last(), i);
        assert(s.drop_last()[i] == s[i]);
        assert(s.last().0 != s[i].0);
    }
}

/// Replacing the pair at `i` by one with the same key updates the mapping at
/// that key alone.
pub proof fn lemma_alist_map_update(
    s: Seq<(Seq<char>, EntryModel)>,
    i: int,
    p: (Seq<char>, EntryModel),
)
    requires
        alist_keys_distinct(s),
        0 <= i < s.len(),
        p.0 == s[i].0,
    ensures
        alist_map(s.update(i, p)) == alist_map(s).insert(p.0, p.1),
    decreases s.len(),
{
    let s2 = s.update(i, p);
    if i == s.len() - 1 {
        assert(s2.drop_last() =~= s.drop_last());
        assert(s2.last() == p);
    } else {
        lemma_alist_map_update(s.drop_last(), i, p);
        assert(s2.drop_last() =~= s.drop_last().update(i, p));
        assert(s2.last() == s.last());
        assert(s.last().0 != p.0);
        assert(alist_map(s.drop_last()).insert(p.0, p.1).insert(s.last().0, s.last().1)
            =~= alist_map(s.drop_last()).insert(s.last().0, s.last().1).insert(p.0, p.1));
    }
}

/// Removing the pair at `i` removes exactly its key from the mapping.
pub proof fn lemma_alist_map_remove(s: Seq<(Seq<char>, EntryModel)>, i: int)
    requires
        alist_keys_distinct(s),
        0 <= i < s.len(),
    ensures
        alist_map(s.remove(i)) == alist_map(s).remove(s[i].0),
    decreases s.len(),
{
    let s2 = s.remove(i);
    if i == s.len() - 1 {
        assert(s2 =~= s.drop_last());
        lemma_alist_map_dom(s.drop_last(), s[i].0);
        assert(forall|j: int|
            0 <= j < s.drop_last().len() ==> s.drop_last()[j] == s[j] && s[j].0 != s[i].0);
        assert(!alist_map(s.drop_last()).contains_key(s[i].0));
        assert(alist_map(s.drop_last()).insert(s.last().0, s.last().1).remove(s[i].0)
            =~= alist_map(s.drop_last()));
    } else {
        lemma_alist_map_remove(s.drop_last(), i);
        assert(s2.drop_last() =~= s.drop_last().remove(i));
        assert(s2.last() == s.last());
        assert(s.last().0 != s[i].0);
        assert(alist_map(s.drop_last()).remove(s[i].0).insert(s.last().0, s.last().1)
            =~= alist_map(s.drop_last()).insert(s.last().0, s.last().1).remove(s[i].0));
    }
}

/// With distinct keys the mapping holds exactly as many keys as the list has
/// pairs.
pub proof fn lemma_alist_map_len(s: Seq<(Seq<char>, EntryModel)>)
    requires
        alist_keys_distinct(s),
    ensures
        alist_map(s).dom().finite(),
        alist_map(s).dom().len() == s.len(),
    decreases s.len(),
{
    if s.len() > 0 {
        lemma_alist_map_len(s.drop_last());
        lemma_alist_map_dom(s.drop_last(), s.last().0);
        assert(forall|j: int|
            0 <= j < s.drop_last().len() ==> s.drop_last()[j] == s[j] && s[j].0 != s.last().0);
        assert(!alist_map(s.drop_last()).contains_key(s.last().0));
        assert(alist_map(s).dom() =~= alist_map(s.drop_last()).dom().insert(s.last().0));
    }
}

/// The in-memory index: keys are unique, and each maps to the location of
/// its most recent value.
pub struct Index {
    pairs: Vec<(String, IndexEntry)>,
}

impl View for Index {
    type V = Map<Seq<char>, EntryModel>;

    closed spec fn view(&self) -> Map<Seq<char>, EntryModel> {
        alist_map(self.seq_view())
    }
}

impl Index {
    /// The pairs in insertion order, as character sequences and entry models.
    pub closed spec fn seq_view(&self) -> Seq<(Seq<char>, EntryModel)> {
        self.pairs@.map_values(|p: (String, IndexEntry)| (p.0@, p.1@))
    }

    /// Keys are unique.
    pub open spec fn wf(&self) -> bool {
        alist_keys_distinct(self.seq_view())
    }

    /// The mapping is the association list folded up.
    pub proof fn lemma_view_is_seq_view(&self)
        ensures
            self@ == alist_map(self.seq_view()),
    {
    }

    /// An empty index.
    pub fn new() -> (r: Index)
        ensures
            r.wf(),
            r@ == Map::<Seq<char>, EntryModel>::empty(),
            r.seq_view() == Seq::<(Seq<char>, EntryModel)>::empty(),
    {
        let r = Index { pairs: Vec::new() };
        proof {
            assert(r.seq_view() =~= Seq::<(Seq<char>, EntryModel)>::empty());
        }
        r
    }

    /// How many keys are live.
    pub fn len(&self) -> (r: usize)
        requires
            self.wf(),
        ensures
            r == self.seq_view().len(),
            r == self@.dom().len(),
    {
        proof {
            lemma_alist_map_len(self.seq_view());
        }
        self.pairs.len()
    }

    /// The pair at position `i`, for walking the index.
    pub fn pair_at(&self, i: usize) -> (r: (&String, &IndexEntry))
        requires
            i < self.seq_view().len(),
        ensures
            (r.0@, r.1@) == self.seq_view()[i as int],
    {
        let p = &self.pairs[i];
        (&p.0, &p.1)
    }

    /// Replaces the entry at position `i`, keeping its key.
    pub fn set_entry_at(&mut self, i: usize, entry: IndexEntry)
        requires
            old(self).wf(),
            i < old(self).seq_view().len(),
        ensures
            final(self).wf(),
            final(self).seq_view() == old(self).seq_view().update(
                i as int,
                (old(self).seq_view()[i as int].0, entry@),
            ),
            final(self)@ == old(self)@.insert(old(self).seq_view()[i as int].0, entry@),
    {
        let p = vstd::std_specs::vec::vec_index_mut(&mut self.pairs, i);
        p.1 = entry;
        proof {
            let os = old(self).seq_view();
            let k = os[i as int].0;
            assert forall|j: int| 0 <= j < os.len() implies self.seq_view()[j] == os.update(
                i as int,
                (k, entry@),
            )[j] by {
                if j != i {
                    assert(self.pairs@[j] == old(self).pairs@[j]);
                }
            }
            assert(self.seq_view() =~= os.update(i as int, (k, entry@)));
            lemma_alist_map_update(os, i as int, (k, entry@));
        }
    }

    /// The entry a key maps to, if the key is live.
    pub fn get(&self, key: &String) -> (r: Option<&IndexEntry>)
        requires
            self.wf(),
        ensures
            match r {
                Some(e) => self@.contains_key(key@) && self@[key@] == e@,
                None => !self@.contains_key(key@),
            },
    {
        let n = self.pairs.len();
        let mut i: usize = 0;
        while i < n
            invariant
                self.wf(),
                n == self.seq_view().len(),
                0 <= i <= n,
                forall|j: int| 0 <= j < i ==> self.seq_view()[j].0 != key@,
            decreases n - i,
        {
            if self.pairs[i].0.eq(key) {
                proof {
                    lemma_alist_map_index(self.seq_view(), i as int);
                }
                return Some(&self.pairs[i].1);
            }
            proof {
                assert(self.seq_view()[i as int].0 == self.pairs@[i as int].0@);
            }
            i += 1;
        }
        proof {
            lemma_alist_map_dom(self.seq_view(), key@);
        }
        None
    }

    /// Maps `key` to `entry`; returns the entry it replaced, if any.
    pub fn insert(&mut self, key: String, entry: IndexEntry) -> (r: Option<IndexEntry>)
        requires
            old(self).wf(),
        ensures
            final(self).wf(),
            final(self)@ == old(self)@.insert(key@, entry@),
            match r {
                Some(e) => old(self)@.contains_key(key@) && old(self)@[key@] == e@,
                None => !old(self)@.contains_key(key@),
            },
            final(self).seq_view().len() == if old(self)@.contains_key(key@) {
                old(self).seq_view().len() as int
            } else {
                old(self).seq_view().len() + 1int
            },
    {
        let n = self.pairs.len();
        let mut i: usize = 0;
        while i < n
            invariant
                self == old(self),
                self.wf(),
                n == self.seq_view().len(),
                0 <= i <= n,
                forall|j: int| 0 <= j < i ==> self.seq_view()[j].0 != key@,
            decreases n - i,
        {
            if self.pairs[i].0.eq(&key) {
                proof {
                    lemma_alist_map_index(self.seq_view(), i as int);
                }
                let prior = self.pairs[i].1;
                let p = vstd::std_specs::vec::vec_index_mut(&mut self.pairs, i);
                *p = (key, entry);
                proof {
                    let os = old(self).seq_view();
                    let k = os[i as int].0;
                    assert forall|j: int| 0 <= j < os.len() implies self.seq_view()[j]
                        == os.update(i as int, (k, entry@))[j] by {
                        if j != i {
                            assert(self.pairs@[j] == old(self).pairs@[j]);
                        }
                    }
                    assert(self.seq_view() =~= os.update(i as int, (k, entry@)));
                    lemma_alist_map_update(os, i as int, (k, entry@));
                }
                return Some(prior);
            }
            proof {
                assert(self.seq_view()[i as int].0 == self.pairs@[i as int].0@);
            }
            i += 1;
        }
        proof {
            lemma_alist_map_dom(self.seq_view(), key@);
        }
        self.pairs.push((key, entry));
        proof {
            let os = old(self).seq_view();
            assert(self.seq_view() =~= os.push((key@, entry@)));
            assert(self.seq_view().drop_last() =~= os);
            assert forall|a: int, b: int|
                0 <= a < b < self.seq_view().len() implies self.seq_view()[a].0
                != self.seq_view()[b].0 by {
                if b == self.seq_view().len() - 1 {
                    assert(self.seq_view()[a].0 == os[a].0);
                }
            }
        }
        None
    }

    /// Removes `key`; returns the entry it mapped to, if it was live.
    pub fn remove(&mut self, key: &String) -> (r: Option<IndexEntry>)
        requires
            old(self).wf(),
        ensures
            final(self).wf(),
            final(self)@ == old(self)@.remove(key@),
            match r {
                Some(e) => old(self)@.contains_key(key@) && old(self)@[key@] == e@,
                None => !old(self)@.contains_key(key@) && *final(self) == *old(self),
            },
    {
        let n = self.pairs.len();
        let mut i: usize = 0;
        while i < n
            invariant
                self == old(self),
                self.wf(),
                n == self.seq_view().len(),
                0 <= i <= n,
                forall|j: int| 0 <= j < i ==> self.seq_view()[j].0 != key@,
            decreases n - i,
        {
            if self.pairs[i].0.eq(key) {
                proof {
                    lemma_alist_map_index(self.seq_view(), i as int);
                    lemma_alist_map_remove(self.seq_view(), i as int);
                }
                let removed = self.pairs.remove(i);
                let prior = removed.1;
                proof {
                    let os = old(self).seq_view();
                    assert forall|j: int| 0 <= j < self.pairs@.len() implies self.seq_view()[j]
                        == os.remove(i as int)[j] by {
                        if j < i {
                            assert(self.pairs@[j] == old(self).pairs@[j]);
                        } else {
                            assert(self.pairs@[j] == old(self).pairs@[j + 1]);
                        }
                    }
                    assert(self.seq_view() =~= os.remove(i as int));
                }
                return Some(prior);
            }
            proof {
                assert(self.seq_view()[i as int].0 == self.pairs@[i as int].0@);
            }
            i += 1;
        }
        proof {
            lemma_alist_map_dom(self.seq_view(), key@);
            assert(old(self)@.remove(key@) =~= old(self)@);
        }
        None
    }
}

} // verus!
