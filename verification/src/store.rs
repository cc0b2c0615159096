//! The marker store: an in-memory mapping from flag names to directory paths.
//!
//! A store is modelled as a `Map<Seq<char>, Seq<char>>` (its view); the
//! concrete representation is a vector of pairs whose keys are non-empty and
//! pairwise distinct, kept in insertion order for display.

use vstd::prelude::*;

verus! {

/// The view of a sequence of owned string pairs as a sequence of char-sequence
/// pairs, the form all contracts are stated over.
pub open spec fn seq_view(es: Seq<(String, String)>) -> Seq<(Seq<char>, Seq<char>)> {
    es.map_values(|p: (String, String)| (p.0@, p.1@))
}

/// Whether some entry of `es` carries the key `k`.
pub open spec fn has_key(es: Seq<(Seq<char>, Seq<char>)>, k: Seq<char>) -> bool {
    exists|i: int| 0 <= i < es.len() && es[i].0 == k
}

/// Entry sequences are well formed when their keys are pairwise distinct.
pub open spec fn entries_wf(es: Seq<(Seq<char>, Seq<char>)>) -> bool {
    forall|i: int, j: int| 0 <= i < j < es.len() ==> es[i].0 != es[j].0
}

/// Whether every key has at least one character; the data model admits no
/// empty flag name.
pub open spec fn keys_nonempty(es: Seq<(Seq<char>, Seq<char>)>) -> bool {
    forall|i: int| 0 <= i < es.len() ==> es[i].0.len() > 0
}

/// The mapping an entry sequence denotes; later entries take precedence.
pub open spec fn map_of(es: Seq<(Seq<char>, Seq<char>)>) -> Map<Seq<char>, Seq<char>>
    decreases es.len(),
{
    if es.len() == 0 {
        Map::empty()
    } else {
        map_of(es.drop_last()).insert(es.last().0, es.last().1)
    }
}

/// A key is in the denoted mapping exactly when some entry carries it.
pub proof fn lemma_map_of_dom(es: Seq<(Seq<char>, Seq<char>)>, k: Seq<char>)
    ensures
        map_of(es).dom().contains(k) <==> has_key(es, k),
    decreases es.len(),
{
    if es.len() > 0 {
        lemma_map_of_dom(es.drop_last(), k);
        if has_key(es, k) && es.last().0 != k {
            let i = choose|i: int| 0 <= i < es.len() && es[i].0 == k;
            assert(es.drop_last()[i] == es[i]);
        }
        if has_key(es.drop_last(), k) {
            let i = choose|i: int| 0 <= i < es.drop_last().len() && es.drop_last()[i].0 == k;
            assert(es[i].0 == k);
        }
    }
}

/// In a well-formed entry sequence each entry is mapped to its own value.
pub proof fn lemma_map_of_get(es: Seq<(Seq<char>, Seq<char>)>, i: int)
    requires
        entries_wf(es),
        0 <= i < es.len(),
    ensures
        map_of(es).dom().contains(es[i].0),
        map_of(es)[es[i].0] == es[i].1,
    decreases es.len(),
{
    if i == es.len() - 1 {
    } else {
        assert(entries_wf(es.drop_last())) by {
            assert(forall|a: int, b: int|
                0 <= a < b < es.drop_last().len() ==> es.drop_last()[a] == es[a]
                    && es.drop_last()[b] == es[b]);
        }
        assert(es.drop_last()[i] == es[i]);
        lemma_map_of_get(es.drop_last(), i);
        assert(es[i].0 != es.last().0);
    }
}

/// Well-formedness restricts to any prefix obtained by dropping the last entry.
proof fn lemma_wf_drop_last(es: Seq<(Seq<char>, Seq<char>)>)
    requires
        entries_wf(es),
        es.len() > 0,
    ensures
        entries_wf(es.drop_last()),
        !has_key(es.drop_last(), es.last().0),
{
    assert(forall|a: int, b: int|
        0 <= a < b < es.drop_last().len() ==> es.drop_last()[a] == es[a]
            && es.drop_last()[b] == es[b]);
    if has_key(es.drop_last(), es.last().0) {
        let i = choose|i: int|
            0 <= i < es.drop_last().len() && es.drop_last()[i].0 == es.last().0;
        assert(es[i].0 == es.last().0);
        assert(false);
    }
}

/// Removing the entry at `i` from a well-formed sequence removes exactly its
/// key from the denoted mapping, and no other entry carries that key.
pub proof fn lemma_map_of_remove(es: Seq<(Seq<char>, Seq<char>)>, i: int)
    requires
        entries_wf(es),
        0 <= i < es.len(),
    ensures
        entries_wf(es.remove(i)),
        !has_key(es.remove(i), es[i].0),
        map_of(es.remove(i)) == map_of(es).remove(es[i].0),
    decreases es.len(),
{
    let k = es[i].0;
    es.remove_ensures(i);
    assert(entries_wf(es.remove(i))) by {
        assert(forall|a: int| 0 <= a < i ==> #[trigger] es.remove(i)[a] == es[a]);
        assert(forall|a: int|
            i <= a < es.len() - 1 ==> #[trigger] es.remove(i)[a] == es[a + 1]);
    }
    assert(!has_key(es.remove(i), k)) by {
        if has_key(es.remove(i), k) {
            let j = choose|j: int| 0 <= j < es.remove(i).len() && es.remove(i)[j].0 == k;
            if j < i {
                assert(es[j].0 == k);
            } else {
                assert(es[j + 1].0 == k);
            }
            assert(false);
        }
    }
    if i == es.len() - 1 {
        assert(es.remove(i) =~= es.drop_last());
        lemma_wf_drop_last(es);
        lemma_map_of_dom(es.drop_last(), k);
        assert(map_of(es.drop_last()).remove(k) =~= map_of(es.drop_last()));
        assert(map_of(es).remove(k) =~= map_of(es.drop_last()));
    } else {
        let dl = es.drop_last();
        lemma_wf_drop_last(es);
        assert(es.remove(i).drop_last() =~= dl.remove(i));
        assert(es.remove(i).last() == es.last());
        assert(es.remove(i).len() > 0);
        lemma_map_of_remove(dl, i);
        assert(dl[i] == es[i]);
        // both sides insert the last pair into the mapping without `k`
        assert(es.last().0 != k);
        assert(map_of(es.remove(i))
            == map_of(dl).remove(k).insert(es.last().0, es.last().1));
        assert(map_of(dl).remove(k).insert(es.last().0, es.last().1)
            =~= map_of(dl).insert(es.last().0, es.last().1).remove(k));
    }
}

/// A map with no entries denotes the empty mapping, and only such a map does.
pub proof fn lemma_map_of_empty(es: Seq<(Seq<char>, Seq<char>)>)
    ensures
        (es.len() == 0) <==> (map_of(es) == Map::<Seq<char>, Seq<char>>::empty()),
{
    if es.len() == 0 {
        assert(map_of(es) =~= Map::<Seq<char>, Seq<char>>::empty());
    } else {
        assert(map_of(es).dom().contains(es.last().0));
        assert(!Map::<Seq<char>, Seq<char>>::empty().dom().contains(es.last().0));
        assert(map_of(es) != Map::<Seq<char>, Seq<char>>::empty());
    }
}

/// Law: setting a flag twice leaves the store as if only the second set had
/// happened — exactly one binding for that flag, carrying the second path.
/// `set`'s contract writes the view as an insert, so two sets compose as two
/// inserts.
pub proof fn lemma_overwrite(
    m: Map<Seq<char>, Seq<char>>,
    k: Seq<char>,
    v1: Seq<char>,
    v2: Seq<char>,
)
    ensures
        m.insert(k, v1).insert(k, v2) == m.insert(k, v2),
{
    assert(m.insert(k, v1).insert(k, v2) =~= m.insert(k, v2));
}

/// Law: deleting a flag that is not set leaves the mapping untouched, so a
/// second delete of the same flag meets exactly the same outcome as the
/// first; `delete_one`'s contract adds that no error is possible.
pub proof fn lemma_delete_absent(m: Map<Seq<char>, Seq<char>>, k: Seq<char>)
    requires
        !m.dom().contains(k),
    ensures
        m.remove(k) == m,
{
    assert(m.remove(k) =~= m);
}

/// Character-wise equality of two string slices.
pub fn str_eq(a: &str, b: &str) -> (r: bool)
    ensures
        r == (a@ == b@),
{
    let la = a.unicode_len();
    let lb = b.unicode_len();
    if la != lb {
        assert(a@ != b@);
        return false;
    }
    let mut i: usize = 0;
    while i < la
        invariant
            i <= la,
            la == a@.len(),
            la == b@.len(),
            forall|j: int| 0 <= j < i ==> a@[j] == b@[j],
        decreases la - i,
    {
        if a.get_char(i) != b.get_char(i) {
            assert(a@[i as int] != b@[i as int]);
            return false;
        }
        i += 1;
    }
    assert(a@ =~= b@);
    true
}

/// The store of markers: at most one directory path per flag name.
#[derive(Debug, Clone, PartialEq, Eq)]
pub struct MarkerStore {
    entries: Vec<(String, String)>,
}

impl View for MarkerStore {
    type V = Map<Seq<char>, Seq<char>>;

    closed spec fn view(&self) -> Map<Seq<char>, Seq<char>> {
        map_of(self.entries_seq())
    }
}

impl MarkerStore {
    /// The entries the store holds, in insertion order.
    pub closed spec fn entries_seq(&self) -> Seq<(Seq<char>, Seq<char>)> {
        seq_view(self.entries@)
    }

    /// The store's invariant: no flag occurs twice, and no flag is empty.
    pub open spec fn wf(&self) -> bool {
        entries_wf(self.entries_seq()) && keys_nonempty(self.entries_seq())
    }

    /// The view is always the mapping denoted by the entry sequence.
    pub proof fn lemma_view_is_map_of(&self)
        ensures
            self@ == map_of(self.entries_seq()),
    {
    }

    /// An empty store.
    pub fn new() -> (s: MarkerStore)
        ensures
            s.wf(),
            s@ == Map::<Seq<char>, Seq<char>>::empty(),
            s.entries_seq() == Seq::<(Seq<char>, Seq<char>)>::empty(),
    {
        let s = MarkerStore { entries: Vec::new() };
        proof {
            assert(s.entries_seq() =~= Seq::<(Seq<char>, Seq<char>)>::empty());
        }
        s
    }

    /// How many markers are set.
    pub fn len(&self) -> (n: usize)
        ensures
            n == self.entries_seq().len(),
    {
        self.entries.len()
    }

    /// The flag and path of the entry at position `i` (insertion order).
    pub fn pair_at(&self, i: usize) -> (r: (&String, &String))
        requires
            i < self.entries_seq().len(),
        ensures
            r.0@ == self.entries_seq()[i as int].0,
            r.1@ == self.entries_seq()[i as int].1,
    {
        (&self.entries[i].0, &self.entries[i].1)
    }

    /// The position of the entry carrying `flag`, if any.
    fn find_index(&self, flag: &str) -> (r: Option<usize>)
        requires
            self.wf(),
        ensures
            match r {
                Some(i) => i < self.entries_seq().len()
                    && self.entries_seq()[i as int].0 == flag@,
                None => !has_key(self.entries_seq(), flag@),
            },
    {
        let n = self.entries.len();
        let mut i: usize = 0;
        while i < n
            invariant
                i <= n,
                n == self.entries_seq().len(),
                forall|j: int| 0 <= j < i ==> self.entries_seq()[j].0 != flag@,
            decreases n - i,
        {
            if str_eq(self.entries[i].0.as_str(), flag) {
                return Some(i);
            }
            i += 1;
        }
        None
    }

    /// Whether a marker is set under `flag`.
    pub fn contains(&self, flag: &str) -> (r: bool)
        requires
            self.wf(),
        ensures
            r == self@.dom().contains(flag@),
    {
        proof {
            lemma_map_of_dom(self.entries_seq(), flag@);
        }
        match self.find_index(flag) {
            Some(_) => true,
            None => false,
        }
    }

    /// The path stored under `flag`, if any.
    pub fn retrieve(&self, flag: &str) -> (r: Option<String>)
        requires
            self.wf(),
        ensures
            match r {
                Some(p) => self@.dom().contains(flag@) && p@ == self@[flag@],
                None => !self@.dom().contains(flag@),
            },
    {
        proof {
            lemma_map_of_dom(self.entries_seq(), flag@);
        }
        match self.find_index(flag) {
            Some(i) => {
                proof {
                    lemma_map_of_get(self.entries_seq(), i as int);
                }
                Some(self.entries[i].1.clone())
            },
            None => None,
        }
    }

    /// Removes the marker under `flag`, if set. Removing an absent flag
    /// leaves the store exactly as it was and is never an error.
    pub fn delete_one(&mut self, flag: &str) -> (r: bool)
        requires
            old(self).wf(),
        ensures
            final(self).wf(),
            r == old(self)@.dom().contains(flag@),
            final(self)@ == old(self)@.remove(flag@),
            !has_key(final(self).entries_seq(), flag@),
            !r ==> *final(self) == *old(self),
    {
        proof {
            lemma_map_of_dom(self.entries_seq(), flag@);
        }
        match self.find_index(flag) {
            Some(i) => {
                let ghost es = self.entries_seq();
                proof {
                    lemma_map_of_remove(es, i as int);
                }
                self.entries.remove(i);
                proof {
                    assert(self.entries_seq() =~= es.remove(i as int));
                    assert(keys_nonempty(self.entries_seq())) by {
                        es.remove_ensures(i as int);
                        assert(forall|a: int|
                            0 <= a < i ==> #[trigger] es.remove(i as int)[a] == es[a]);
                        assert(forall|a: int|
                            i <= a < es.len() - 1
                                ==> #[trigger] es.remove(i as int)[a] == es[a + 1]);
                    }
                }
                true
            },
            None => {
                proof {
                    assert(self@.remove(flag@) =~= self@);
                }
                false
            },
        }
    }

    /// Sets `flag` to `directory`, silently overwriting any previous path
    /// stored under the same flag.
    pub fn set(&mut self, flag: String, directory: String)
        requires
            old(self).wf(),
            flag@.len() > 0,
        ensures
            final(self).wf(),
            final(self)@ == old(self)@.insert(flag@, directory@),
    {
        let ghost m0 = self@;
        self.delete_one(flag.as_str());
        let ghost es = self.entries_seq();
        proof {
            lemma_map_of_dom(es, flag@);
        }
        self.entries.push((flag, directory));
        proof {
            assert(self.entries_seq() =~= es.push(self.entries_seq().last()));
            assert(self.entries_seq().drop_last() =~= es);
            let k = self.entries_seq().last().0;
            let v = self.entries_seq().last().1;
            assert(entries_wf(self.entries_seq())) by {
                assert(forall|a: int, b: int|
                    0 <= a < b < self.entries_seq().len() - 1
                        ==> self.entries_seq()[a] == es[a] && self.entries_seq()[b] == es[b]);
                assert(forall|a: int|
                    0 <= a < self.entries_seq().len() - 1
                        ==> #[trigger] self.entries_seq()[a] == es[a]);
            }
            assert(self@ == map_of(es).insert(k, v));
            assert(m0.remove(k).insert(k, v) =~= m0.insert(k, v));
            assert(keys_nonempty(self.entries_seq())) by {
                assert(forall|a: int|
                    0 <= a < self.entries_seq().len() - 1
                        ==> #[trigger] self.entries_seq()[a] == es[a]);
                assert(self.entries_seq().last().0 == flag@);
            }
        }
    }

    /// Removes every marker.
    pub fn clear(&mut self)
        ensures
            final(self).wf(),
            final(self)@ == Map::<Seq<char>, Seq<char>>::empty(),
            final(self).entries_seq() == Seq::<(Seq<char>, Seq<char>)>::empty(),
    {
        self.entries.clear();
        proof {
            assert(self.entries_seq() =~= Seq::<(Seq<char>, Seq<char>)>::empty());
        }
    }
}

} // verus!
