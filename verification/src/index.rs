//! The in-memory index: a mapping from each live key to the location of its
//! most recent put record.
//!
//! The index is kept as an association list with pairwise-distinct keys; its
//! abstract value is the finite map from key to record location.  It is built
//! once at startup by replaying every segment, maintained on every `set` and
//! `remove`, and rewritten wholesale (same keys, new locations) by compaction.

use vstd::prelude::*;

verus! {

/// The location of a record inside the segment files: which segment it is in,
/// the byte offset at which its encoding starts, and the encoding's length.
#[derive(Clone, Copy, Debug, PartialEq, Eq, Structural)]
pub struct CommandInfo {
    pub log_idx: u64,
    pub pos: u64,
    pub len: u64,
}

/// The map described by an association list, later pairs shadowing earlier
/// ones.
pub open spec fn assoc_map(s: Seq<(String, CommandInfo)>) -> Map<Seq<char>, CommandInfo>
    decreases s.len(),
{
    if s.len() == 0 {
        Map::empty()
    } else {
        assoc_map(s.drop_last()).insert(s.last().0@, s.last().1)
    }
}

/// Pairwise-distinct keys.
pub open spec fn keys_distinct(s: Seq<(String, CommandInfo)>) -> bool {
    forall|i: int, j: int| 0 <= i < j < s.len() ==> s[i].0@ != s[j].0@
}

/// A key is in the map exactly when some pair carries it.
pub proof fn lemma_assoc_map_dom(s: Seq<(String, CommandInfo)>, k: Seq<char>)
    ensures
        assoc_map(s).contains_key(k) <==> exists|i: int| 0 <= i < s.len() && s[i].0@ == k,
    decreases s.len(),
{
    if s.len() > 0 {
        lemma_assoc_map_dom(s.drop_last(), k);
        if s.last().0@ != k && assoc_map(s).contains_key(k) {
            let i = choose|i: int| 0 <= i < s.drop_last().len() && s.drop_last()[i].0@ == k;
            assert(s[i].0@ == k);
        }
        if exists|i: int| 0 <= i < s.len() && s[i].0@ == k {
            let i = choose|i: int| 0 <= i < s.len() && s[i].0@ == k;
            if i < s.len() - 1 {
                assert(s.drop_last()[i].0@ == k);
            }
        }
    }
}

/// With distinct keys, each pair is reflected verbatim in the map.
pub proof fn lemma_assoc_map_index(s: Seq<(String, CommandInfo)>, i: int)
    requires
        keys_distinct(s),
        0 <= i < s.len(),
    ensures
        assoc_map(s).contains_key(s[i].0@),
        assoc_map(s)[s[i].0@] == s[i].1,
    decreases s.len(),
{
    if i < s.len() - 1 {
        lemma_assoc_map_index(s.drop_last(), i);
        assert(s.drop_last()[i] == s[i]);
    }
}

/// Overwriting the pair that carries a key updates the map at that key alone.
proof fn lemma_assoc_map_update(s: Seq<(String, CommandInfo)>, i: int, p: (String, CommandInfo))
    requires
        keys_distinct(s),
        0 <= i < s.len(),
        s[i].0@ == p.0@,
    ensures
        assoc_map(s.update(i, p)) =~= assoc_map(s).insert(p.0@, p.1),
    decreases s.len(),
{
    let t = s.update(i, p);
    if i == s.len() - 1 {
        assert(t.drop_last() =~= s.drop_last());
    } else {
        assert(t.drop_last() =~= s.drop_last().update(i, p));
        lemma_assoc_map_update(s.drop_last(), i, p);
        assert(t.last() == s.last());
    }
}

/// Removing the pair that carries a key removes that key from the map alone.
proof fn lemma_assoc_map_remove(s: Seq<(String, CommandInfo)>, i: int)
    requires
        keys_distinct(s),
        0 <= i < s.len(),
    ensures
        assoc_map(s.remove(i)) =~= assoc_map(s).remove(s[i].0@),
    decreases s.len(),
{
    let t = s.remove(i);
    if i == s.len() - 1 {
        assert(t =~= s.drop_last());
        lemma_assoc_map_dom(s.drop_last(), s[i].0@);
    } else {
        assert(t.drop_last() =~= s.drop_last().remove(i));
        lemma_assoc_map_remove(s.drop_last(), i);
        assert(t.last() == s.last());
    }
}

/// The in-memory index.  If a key has an entry, that entry points at the put
/// record holding the key's current value; if a key has no entry, the key does
/// not exist (it was never set, or its last record is a delete).
pub struct Index {
    pub pairs: Vec<(String, CommandInfo)>,
}

impl View for Index {
    type V = Map<Seq<char>, CommandInfo>;

    open spec fn view(&self) -> Map<Seq<char>, CommandInfo> {
        assoc_map(self.pairs@)
    }
}

impl Index {
    /// The entries in insertion order; compaction iterates over them.
    pub open spec fn entries(&self) -> Seq<(String, CommandInfo)> {
        self.pairs@
    }

    /// Structural invariant: no key occurs twice.
    pub open spec fn inv(&self) -> bool {
        keys_distinct(self.pairs@)
    }

    pub fn new() -> (r: Index)
        ensures
            r.inv(),
            r@ =~= Map::empty(),
            r.entries() =~= Seq::<(String, CommandInfo)>::empty(),
    {
        Index { pairs: Vec::new() }
    }

    pub fn len(&self) -> (r: usize)
        ensures
            r == self.entries().len(),
    {
        self.pairs.len()
    }

    pub fn pair_at(&self, i: usize) -> (r: &(String, CommandInfo))
        requires
            i < self.entries().len(),
        ensures
            *r == self.entries()[i as int],
    {
        &self.pairs[i]
    }

    /// Looks a key up, returning the location of its most recent put record.
    pub fn get(&self, k: &String) -> (r: Option<&CommandInfo>)
        requires
            self.inv(),
        ensures
            match r {
                Some(info) => self@.contains_key(k@) && *info == self@[k@],
                None => !self@.contains_key(k@),
            },
    {
        let n = self.pairs.len();
        let mut i: usize = 0;
        while i < n
            invariant
                n == self.pairs@.len(),
                0 <= i <= n,
                self.inv(),
                forall|j: int| 0 <= j < i ==> self.pairs@[j].0@ != k@,
            decreases n - i,
        {
            if self.pairs[i].0 == *k {
                proof {
                    lemma_assoc_map_index(self.pairs@, i as int);
                }
                return Some(&self.pairs[i].1);
            }
            i += 1;
        }
        proof {
            lemma_assoc_map_dom(self.pairs@, k@);
        }
        None
    }

    /// Records the location of a key's newest put, overwriting any prior
    /// entry; no read-before-write.
    pub fn insert(&mut self, k: String, info: CommandInfo)
        requires
            old(self).inv(),
        ensures
            final(self).inv(),
            final(self)@ =~= old(self)@.insert(k@, info),
    {
        let n = self.pairs.len();
        let mut i: usize = 0;
        while i < n
            invariant
                n == self.pairs@.len(),
                0 <= i <= n,
                self.inv(),
                self.pairs@ == old(self).pairs@,
                forall|j: int| 0 <= j < i ==> self.pairs@[j].0@ != k@,
            decreases n - i,
        {
            if self.pairs[i].0 == *&k {
                proof {
                    lemma_assoc_map_update(self.pairs@, i as int, (k, info));
                }
                self.pairs[i] = (k, info);
                return ;
            }
            i += 1;
        }
        proof {
            lemma_assoc_map_dom(self.pairs@, k@);
        }
        self.pairs.push((k, info));
        proof {
            assert(self.pairs@.drop_last() =~= old(self).pairs@);
        }
    }

    /// Erases a key's entry if it has one; erasing an absent key is a benign
    /// no-op.
    pub fn remove(&mut self, k: &String)
        requires
            old(self).inv(),
        ensures
            final(self).inv(),
            final(self)@ =~= old(self)@.remove(k@),
    {
        let n = self.pairs.len();
        let mut i: usize = 0;
        while i < n
            invariant
                n == self.pairs@.len(),
                0 <= i <= n,
                self.inv(),
                self.pairs@ == old(self).pairs@,
                forall|j: int| 0 <= j < i ==> self.pairs@[j].0@ != k@,
            decreases n - i,
        {
            if self.pairs[i].0 == *k {
                proof {
                    lemma_assoc_map_remove(self.pairs@, i as int);
                }
                self.pairs.remove(i);
                return ;
            }
            i += 1;
        }
        proof {
            lemma_assoc_map_dom(self.pairs@, k@);
            assert(self@ =~= self@.remove(k@));
        }
    }

    /// Appends an entry for a key known to be absent; compaction rebuilds the
    /// index with this.
    pub fn push(&mut self, k: String, info: CommandInfo)
        requires
            old(self).inv(),
            !old(self)@.contains_key(k@),
        ensures
            final(self).inv(),
            final(self)@ =~= old(self)@.insert(k@, info),
            final(self).entries() =~= old(self).entries() + seq![(k, info)],
    {
        proof {
            lemma_assoc_map_dom(self.pairs@, k@);
        }
        self.pairs.push((k, info));
        proof {
            assert(self.pairs@.drop_last() =~= old(self).pairs@);
        }
    }
}

} // verus!
