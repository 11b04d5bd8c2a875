//! A small verified table keyed by [`Label`], kept as a vector of entries
//! with pairwise distinct keys. Its view is the finite map the entries
//! denote. The parser's jump table, the machine's jump table and the jump
//! list's label and pending tables are all instances of it.

use crate::primitives::{label_eq, Label};
use vstd::prelude::*;

verus! {

/// The mapping that a sequence of entries denotes: later entries shadow
/// earlier ones (a well-formed table has no two entries with one key).
pub open spec fn table_map<V: View>(s: Seq<(Label, V)>) -> Map<Seq<u8>, V::V>
    decreases s.len(),
{
    if s.len() == 0 {
        Map::empty()
    } else {
        table_map(s.drop_last()).insert(s.last().0@, s.last().1@)
    }
}

/// No two entries carry the same label text.
pub open spec fn distinct_keys<V>(s: Seq<(Label, V)>) -> bool {
    forall|i: int, j: int| 0 <= i < j < s.len() ==> s[i].0@ != s[j].0@
}

/// The denoted map contains a key exactly when some entry carries it.
pub proof fn lemma_table_contains<V: View>(s: Seq<(Label, V)>, k: Seq<u8>)
    ensures
        table_map(s).contains_key(k) <==> (exists|i: int| 0 <= i < s.len() && s[i].0@ == k),
    decreases s.len(),
{
    if s.len() > 0 {
        lemma_table_contains(s.drop_last(), k);
        if s.last().0@ == k {
            assert(s[s.len() - 1].0@ == k);
        } else {
            assert(forall|i: int| 0 <= i < s.len() - 1 ==> s.drop_last()[i] == s[i]);
            if exists|i: int| 0 <= i < s.len() && s[i].0@ == k {
                let i = choose|i: int| 0 <= i < s.len() && s[i].0@ == k;
                assert(s.drop_last()[i] == s[i]);
            }
        }
    }
}

/// In a table with distinct keys, the entry that carries a key gives the
/// denoted map's value at that key.
pub proof fn lemma_table_value<V: View>(s: Seq<(Label, V)>, i: int)
    requires
        distinct_keys(s),
        0 <= i < s.len(),
    ensures
        table_map(s).contains_key(s[i].0@),
        table_map(s)[s[i].0@] == s[i].1@,
    decreases s.len(),
{
    if i < s.len() - 1 {
        assert(forall|j: int| 0 <= j < s.len() - 1 ==> s.drop_last()[j] == s[j]);
        lemma_table_value(s.drop_last(), i);
        assert(s.last().0@ != s[i].0@);
    }
}

/// Removing the entry that carries a key removes exactly that key from the
/// denoted map.
pub proof fn lemma_table_remove<V: View>(s: Seq<(Label, V)>, i: int)
    requires
        distinct_keys(s),
        0 <= i < s.len(),
    ensures
        distinct_keys(s.remove(i)),
        table_map(s.remove(i)) == table_map(s).remove(s[i].0@),
    decreases s.len(),
{
    let k = s[i].0@;
    lemma_table_contains(s.drop_last(), k);
    if i == s.len() - 1 {
        assert(s.remove(i) =~= s.drop_last());
        assert(!table_map(s.drop_last()).contains_key(k));
        assert(table_map(s.drop_last()).insert(k, s.last().1@).remove(k) =~= table_map(
            s.drop_last(),
        ));
    } else {
        assert(s.remove(i).drop_last() =~= s.drop_last().remove(i));
        assert(s.remove(i).last() == s.last());
        lemma_table_remove(s.drop_last(), i);
        assert(s.drop_last()[i] == s[i]);
        assert(s.last().0@ != k);
        assert(table_map(s.drop_last()).remove(k).insert(s.last().0@, s.last().1@)
            =~= table_map(s.drop_last()).insert(s.last().0@, s.last().1@).remove(k));
        assert(table_map(s.remove(i)) == table_map(s.remove(i).drop_last()).insert(
            s.remove(i).last().0@,
            s.remove(i).last().1@,
        ));
    }
}

/// A table from labels to values. Its view is the finite map from label
/// text to the views of the stored values.
pub struct LabelTable<V>(pub Vec<(Label, V)>);

impl<V: View> View for LabelTable<V> {
    type V = Map<Seq<u8>, V::V>;

    open spec fn view(&self) -> Map<Seq<u8>, V::V> {
        table_map(self.0@)
    }
}

impl<V: View> LabelTable<V> {
    /// The table's entries carry pairwise distinct keys.
    pub open spec fn wf(&self) -> bool {
        distinct_keys(self.0@)
    }

    /// An empty table.
    pub fn new() -> (r: Self)
        ensures
            r.wf(),
            r@ == Map::<Seq<u8>, V::V>::empty(),
    {
        LabelTable(Vec::new())
    }

    /// The position of the entry that carries the given label, if any.
    fn find(&self, l: &Label) -> (r: Option<usize>)
        ensures
            match r {
                Some(i) => i < self.0@.len() && self.0@[i as int].0@ == l@,
                None => forall|j: int| 0 <= j < self.0@.len() ==> self.0@[j].0@ != l@,
            },
    {
        let mut i: usize = 0;
        #[verifier::loop_isolation(false)]
        while i < self.0.len()
            invariant
                i <= self.0.len(),
                forall|j: int| 0 <= j < i ==> self.0@[j].0@ != l@,
            decreases self.0.len() - i,
        {
            if label_eq(&self.0[i].0, l) {
                return Some(i);
            }
            i = i + 1;
        }
        None
    }

    /// True exactly when the table holds the given label.
    pub fn contains(&self, l: &Label) -> (r: bool)
        ensures
            r == self@.contains_key(l@),
    {
        proof {
            lemma_table_contains(self.0@, l@);
        }
        self.find(l).is_some()
    }

    /// The value stored under the given label, if any.
    pub fn get(&self, l: &Label) -> (r: Option<&V>)
        requires
            self.wf(),
        ensures
            match r {
                Some(v) => self@.contains_key(l@) && v@ == self@[l@],
                None => !self@.contains_key(l@),
            },
    {
        proof {
            lemma_table_contains(self.0@, l@);
        }
        match self.find(l) {
            Some(i) => {
                proof {
                    lemma_table_value(self.0@, i as int);
                }
                Some(&self.0[i].1)
            },
            None => None,
        }
    }

    /// Stores a value under a label, replacing any value stored there
    /// before.
    pub fn insert(&mut self, l: Label, v: V)
        requires
            old(self).wf(),
        ensures
            final(self).wf(),
            final(self)@ == old(self)@.insert(l@, v@),
    {
        proof {
            lemma_table_contains(self.0@, l@);
        }
        let ghost s0 = self.0@;
        match self.find(&l) {
            Some(i) => {
                proof {
                    lemma_table_remove(s0, i as int);
                }
                let _ = self.0.remove(i);
                proof {
                    lemma_table_contains(self.0@, l@);
                    assert(forall|j: int|
                        0 <= j < self.0@.len() ==> #[trigger] self.0@[j] == s0.remove(i as int)[j]);
                }
                self.0.push((l, v));
                proof {
                    assert(self.0@.drop_last() =~= s0.remove(i as int));
                    assert(table_map(s0).remove(s0[i as int].0@).insert(l@, v@) =~= table_map(
                        s0,
                    ).insert(l@, v@));
                }
            },
            None => {
                self.0.push((l, v));
                proof {
                    assert(self.0@.drop_last() =~= s0);
                }
            },
        }
    }

    /// Takes the value stored under a label out of the table.
    pub fn remove(&mut self, l: &Label) -> (r: Option<V>)
        requires
            old(self).wf(),
        ensures
            final(self).wf(),
            match r {
                Some(v) => old(self)@.contains_key(l@) && v@ == old(self)@[l@] && final(self)@
                    == old(self)@.remove(l@),
                None => !old(self)@.contains_key(l@) && final(self)@ == old(self)@,
            },
    {
        proof {
            lemma_table_contains(self.0@, l@);
        }
        match self.find(l) {
            Some(i) => {
                proof {
                    lemma_table_value(self.0@, i as int);
                    lemma_table_remove(self.0@, i as int);
                }
                let (_, v) = self.0.remove(i);
                Some(v)
            },
            None => None,
        }
    }
}

} // verus!
