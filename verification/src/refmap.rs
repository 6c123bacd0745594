//! A map from node identities to nodes, backed by a list of entries with
//! pairwise-distinct keys and modeled as a `Map` over the identities'
//! mathematical views.

use vstd::prelude::*;

use crate::clone_eq::ref_eq;
use crate::schemalet::{RefView, SchemaRef};

verus! {

/// The model of an entry list: later entries win, though under
/// [`unique_keys`] each key occurs once.
pub open spec fn map_of<V: View>(s: Seq<(SchemaRef, V)>) -> Map<RefView, V::V>
    decreases s.len(),
{
    if s.len() == 0 {
        Map::empty()
    } else {
        map_of(s.drop_last()).insert(s.last().0@, s.last().1@)
    }
}

/// Whether `s` holds an entry whose key has model `k`.
pub open spec fn seq_has_key<V>(s: Seq<(SchemaRef, V)>, k: RefView) -> bool {
    exists|i: int| 0 <= i < s.len() && s[i].0@ == k
}

/// Entry keys are pairwise distinct.
pub open spec fn unique_keys<V>(s: Seq<(SchemaRef, V)>) -> bool {
    forall|i: int, j: int| 0 <= i < j < s.len() ==> s[i].0@ != s[j].0@
}

/// Relates the entry list to its map model: the domain holds exactly the
/// entry keys, each entry's value is the map's value at its key, and the
/// domain is finite with one element per entry.
pub proof fn lemma_map_of<V: View>(s: Seq<(SchemaRef, V)>)
    requires
        unique_keys(s),
    ensures
        forall|k: RefView| #[trigger] map_of(s).dom().contains(k) <==> seq_has_key(s, k),
        forall|i: int|
            0 <= i < s.len() ==> #[trigger] map_of(s)[s[i].0@] == s[i].1@,
        map_of(s).dom().finite(),
        map_of(s).dom().len() == s.len(),
    decreases s.len(),
{
    if s.len() > 0 {
        let prefix = s.drop_last();
        lemma_map_of(prefix);
        assert forall|k: RefView| #[trigger] map_of(s).dom().contains(k) implies seq_has_key(
            s,
            k,
        ) by {
            if k == s.last().0@ {
                assert(s[s.len() - 1].0@ == k);
            } else {
                let i = choose|i: int| 0 <= i < prefix.len() && prefix[i].0@ == k;
                assert(s[i].0@ == k);
            }
        }
        assert forall|k: RefView| seq_has_key(s, k) implies #[trigger] map_of(s).dom().contains(
            k,
        ) by {
            let i = choose|i: int| 0 <= i < s.len() && s[i].0@ == k;
            if i < s.len() - 1 {
                assert(prefix[i].0@ == k);
            }
        }
        assert forall|i: int| 0 <= i < s.len() implies #[trigger] map_of(s)[s[i].0@]
            == s[i].1@ by {
            if i < s.len() - 1 {
                assert(prefix[i].0@ == s[i].0@);
                assert(s[i].0@ != s.last().0@);
            }
        }
        assert(!map_of(prefix).dom().contains(s.last().0@));
    }
}

/// A map from node identities to values of type `V`.
pub struct RefMap<V> {
    entries: Vec<(SchemaRef, V)>,
}

impl<V: View> View for RefMap<V> {
    type V = Map<RefView, <V as View>::V>;

    closed spec fn view(&self) -> Map<RefView, <V as View>::V> {
        map_of(self.entries@)
    }
}

impl<V: View> RefMap<V> {
    /// The entry list behind the map.
    pub closed spec fn entries_spec(&self) -> Seq<(SchemaRef, V)> {
        self.entries@
    }

    /// The entry keys are pairwise distinct.
    pub open spec fn wf(&self) -> bool {
        unique_keys(self.entries_spec())
    }

    /// The number of entries.
    pub open spec fn spec_len(&self) -> nat {
        self.entries_spec().len()
    }

    /// The empty map.
    pub fn new() -> (out: RefMap<V>)
        ensures
            out.wf(),
            out@ == Map::<RefView, <V as View>::V>::empty(),
            out.spec_len() == 0,
    {
        RefMap { entries: Vec::new() }
    }

    /// The number of entries.
    pub fn len(&self) -> (out: usize)
        ensures
            out == self.spec_len(),
    {
        self.entries.len()
    }

    /// Whether the map has no entries.
    pub fn is_empty(&self) -> (out: bool)
        requires
            self.wf(),
        ensures
            out == (self@ =~= Map::<RefView, <V as View>::V>::empty()),
    {
        proof {
            lemma_map_of(self.entries@);
            if self.entries@.len() > 0 {
                assert(self@.dom().contains(self.entries@[0].0@));
            }
        }
        self.entries.len() == 0
    }

    /// Whether `k` is a key of the map.
    pub fn contains_key(&self, k: &SchemaRef) -> (out: bool)
        requires
            self.wf(),
        ensures
            out == self@.dom().contains(k@),
    {
        proof {
            lemma_map_of(self.entries@);
        }
        let n = self.entries.len();
        let mut i: usize = 0;
        while i < n
            invariant
                n == self.entries@.len(),
                unique_keys(self.entries@),
                i <= n,
                forall|j: int| 0 <= j < i ==> self.entries@[j].0@ != k@,
            decreases n - i,
        {
            if ref_eq(&self.entries[i].0, k) {
                proof {
                    lemma_map_of(self.entries@);
                    assert(seq_has_key(self.entries@, k@));
                }
                return true;
            }
            i = i + 1;
        }
        proof {
            lemma_map_of(self.entries@);
        }
        false
    }

    /// The value at `k`, if `k` is a key of the map.
    pub fn get(&self, k: &SchemaRef) -> (out: Option<&V>)
        requires
            self.wf(),
        ensures
            match out {
                Some(v) => self@.dom().contains(k@) && v@ == self@[k@],
                None => !self@.dom().contains(k@),
            },
    {
        proof {
            lemma_map_of(self.entries@);
        }
        let n = self.entries.len();
        let mut i: usize = 0;
        while i < n
            invariant
                n == self.entries@.len(),
                unique_keys(self.entries@),
                i <= n,
                forall|j: int| 0 <= j < i ==> self.entries@[j].0@ != k@,
            decreases n - i,
        {
            if ref_eq(&self.entries[i].0, k) {
                proof {
                    lemma_map_of(self.entries@);
                    assert(seq_has_key(self.entries@, k@));
                }
                return Some(&self.entries[i].1);
            }
            i = i + 1;
        }
        proof {
            lemma_map_of(self.entries@);
        }
        None
    }

    /// Adds an entry for a key not yet in the map.
    pub fn insert(&mut self, k: SchemaRef, v: V)
        requires
            old(self).wf(),
            !old(self)@.dom().contains(k@),
        ensures
            final(self).wf(),
            final(self)@ == old(self)@.insert(k@, v@),
            final(self).spec_len() == old(self).spec_len() + 1,
    {
        proof {
            lemma_map_of(self.entries@);
        }
        self.entries.push((k, v));
        proof {
            assert(self.entries@.drop_last() =~= old(self).entries@);
        }
    }

    /// Hands out the entries; their keys are pairwise distinct and they
    /// carry exactly the map's contents.
    pub fn into_entries(self) -> (out: Vec<(SchemaRef, V)>)
        requires
            self.wf(),
        ensures
            unique_keys(out@),
            out@.len() == self.spec_len(),
            map_of(out@) == self@,
            forall|i: int|
                0 <= i < out@.len() ==> #[trigger] self@.dom().contains(out@[i].0@)
                    && self@[out@[i].0@] == out@[i].1@,
            forall|k: RefView| #[trigger] self@.dom().contains(k) ==> seq_has_key(out@, k),
    {
        proof {
            lemma_map_of(self.entries@);
        }
        self.entries
    }

    /// The domain of the model is finite, with one element per entry,
    /// and every key of the model names an entry.
    pub proof fn lemma_dom(&self)
        requires
            self.wf(),
        ensures
            self@.dom().finite(),
            self@.dom().len() == self.spec_len(),
            forall|k: RefView| #[trigger]
                self@.dom().contains(k) ==> seq_has_key(self.entries_spec(), k),
    {
        lemma_map_of(self.entries@);
    }

    /// Clones the keys of all entries, in entry order.
    pub fn keys(&self) -> (out: Vec<SchemaRef>)
        requires
            self.wf(),
        ensures
            out@.len() == self.spec_len(),
            forall|i: int| 0 <= i < out@.len() ==> #[trigger] self@.dom().contains(out@[i]@),
    {
        proof {
            lemma_map_of(self.entries@);
        }
        let n = self.entries.len();
        let mut out: Vec<SchemaRef> = Vec::new();
        let mut i: usize = 0;
        while i < n
            invariant
                n == self.entries@.len(),
                unique_keys(self.entries@),
                i <= n,
                out@.len() == i,
                forall|j: int| 0 <= j < i ==> out@[j]@ == self.entries@[j].0@,
            decreases n - i,
        {
            out.push(self.entries[i].0.clone());
            i = i + 1;
        }
        proof {
            lemma_map_of(self.entries@);
            assert forall|i2: int| 0 <= i2 < out@.len() implies #[trigger] self@.dom().contains(
                out@[i2]@,
            ) by {
                assert(self.entries@[i2].0@ == out@[i2]@);
            }
        }
        out
    }
}

} // verus!
