//! A map from keys to the lists of values recorded under them, held as
//! entries whose keys are all different.
use vstd::prelude::*;

use crate::types::commit::{joined, Commit};
use crate::types::file::{same_file_name, FileName};

verus! {

/// A map from keys to lists of values: one entry per key, no two entries
/// with keys of the same view.
pub struct ChangeMap<K: View, V> {
    pub(crate) entries: Vec<(K, Vec<V>)>,
}

/// No two entries of `s` have keys of the same view.
pub open spec fn distinct_keys<K: View, V>(s: Seq<(K, Vec<V>)>) -> bool {
    forall|i: int, j: int|
        0 <= i < s.len() && 0 <= j < s.len() && i != j ==> (#[trigger] s[i]).0@ != (#[trigger] s[j]).0@
}

/// Some entry of `s` has a key of view `k`.
pub open spec fn has_key<K: View, V>(s: Seq<(K, Vec<V>)>, k: K::V) -> bool {
    exists|i: int| 0 <= i < s.len() && (#[trigger] s[i]).0@ == k
}

/// The position of an entry of `s` whose key has the view `k`.
pub open spec fn index_of<K: View, V>(s: Seq<(K, Vec<V>)>, k: K::V) -> int {
    choose|i: int| 0 <= i < s.len() && (#[trigger] s[i]).0@ == k
}

/// The map that the entries `s` stand for.
pub open spec fn entries_map<K: View, V>(s: Seq<(K, Vec<V>)>) -> Map<K::V, Seq<V>> {
    Map::new(|k: K::V| has_key(s, k), |k: K::V| s[index_of(s, k)].1@)
}

impl<K: View, V> ChangeMap<K, V> {
    /// The keys of the entries are all different.
    #[verifier::type_invariant]
    pub closed spec fn distinct(self) -> bool {
        distinct_keys(self.entries@)
    }

    /// The empty map.
    pub fn new() -> (r: Self)
        ensures
            r@ == Map::<K::V, Seq<V>>::empty(),
    {
        let r = ChangeMap { entries: Vec::new() };
        assert(entries_map(r.entries@) =~= Map::<K::V, Seq<V>>::empty());
        r
    }
}

impl<K: View, V> View for ChangeMap<K, V> {
    type V = Map<K::V, Seq<V>>;

    closed spec fn view(&self) -> Map<K::V, Seq<V>> {
        entries_map(self.entries@)
    }
}

/// In entries with distinct keys, the entry at `i` is the one found under
/// its key.
pub proof fn lemma_index_of<K: View, V>(s: Seq<(K, Vec<V>)>, i: int)
    requires
        distinct_keys(s),
        0 <= i < s.len(),
    ensures
        has_key(s, s[i].0@),
        index_of(s, s[i].0@) == i,
        entries_map(s).contains_key(s[i].0@),
        entries_map(s)[s[i].0@] == s[i].1@,
{
    assert(has_key(s, s[i].0@));
    let j = index_of(s, s[i].0@);
    assert(s[j].0@ == s[i].0@);
}

/// Replacing the values of the entry at `i` replaces them in the map.
pub proof fn lemma_map_update<K: View, V>(s: Seq<(K, Vec<V>)>, i: int, v: Vec<V>)
    requires
        distinct_keys(s),
        0 <= i < s.len(),
    ensures
        distinct_keys(s.update(i, (s[i].0, v))),
        entries_map(s.update(i, (s[i].0, v))) == entries_map(s).insert(s[i].0@, v@),
{
    let s2 = s.update(i, (s[i].0, v));
    assert forall|a: int, b: int|
        0 <= a < s2.len() && 0 <= b < s2.len() && a != b implies (#[trigger] s2[a]).0@ != (
    #[trigger] s2[b]).0@ by {
        assert(s2[a].0 == s[a].0);
        assert(s2[b].0 == s[b].0);
    }
    let m2 = entries_map(s2);
    let m1 = entries_map(s).insert(s[i].0@, v@);
    assert forall|k: K::V| #[trigger] m2.contains_key(k) <==> m1.contains_key(k) by {
        if has_key(s2, k) {
            let j = choose|j: int| 0 <= j < s2.len() && (#[trigger] s2[j]).0@ == k;
            assert(s[j].0 == s2[j].0);
        }
        if has_key(s, k) {
            let j = choose|j: int| 0 <= j < s.len() && (#[trigger] s[j]).0@ == k;
            assert(s[j].0 == s2[j].0);
        }
        lemma_index_of(s2, i);
    }
    assert forall|k: K::V| m2.contains_key(k) implies #[trigger] m2[k] == m1[k] by {
        let j = choose|j: int| 0 <= j < s2.len() && (#[trigger] s2[j]).0@ == k;
        lemma_index_of(s2, j);
        if j != i {
            assert(s2[j] == s[j]);
            lemma_index_of(s, j);
        }
    }
    assert(m2 =~= m1);
}

/// Adding an entry under a new key adds it to the map.
pub proof fn lemma_map_push<K: View, V>(s: Seq<(K, Vec<V>)>, e: (K, Vec<V>))
    requires
        distinct_keys(s),
        !has_key(s, e.0@),
    ensures
        distinct_keys(s.push(e)),
        entries_map(s.push(e)) == entries_map(s).insert(e.0@, e.1@),
{
    let s2 = s.push(e);
    assert forall|a: int, b: int|
        0 <= a < s2.len() && 0 <= b < s2.len() && a != b implies (#[trigger] s2[a]).0@ != (
    #[trigger] s2[b]).0@ by {
        if a < s.len() && b < s.len() {
            assert(s2[a] == s[a] && s2[b] == s[b]);
        } else if a < s.len() {
            assert(s2[a] == s[a]);
        } else if b < s.len() {
            assert(s2[b] == s[b]);
        }
    }
    let m2 = entries_map(s2);
    let m1 = entries_map(s).insert(e.0@, e.1@);
    assert forall|k: K::V| #[trigger] m2.contains_key(k) <==> m1.contains_key(k) by {
        if has_key(s2, k) {
            let j = choose|j: int| 0 <= j < s2.len() && (#[trigger] s2[j]).0@ == k;
            if j < s.len() {
                assert(s2[j] == s[j]);
            }
        }
        if has_key(s, k) {
            let j = choose|j: int| 0 <= j < s.len() && (#[trigger] s[j]).0@ == k;
            assert(s2[j] == s[j]);
        }
        assert(s2[s.len() as int] == e);
    }
    assert forall|k: K::V| m2.contains_key(k) implies #[trigger] m2[k] == m1[k] by {
        let j = choose|j: int| 0 <= j < s2.len() && (#[trigger] s2[j]).0@ == k;
        lemma_index_of(s2, j);
        if j < s.len() {
            assert(s2[j] == s[j]);
            lemma_index_of(s, j);
        }
    }
    assert(m2 =~= m1);
}

/// Removing the entry at `i` removes its key from the map.
pub proof fn lemma_map_remove<K: View, V>(s: Seq<(K, Vec<V>)>, i: int)
    requires
        distinct_keys(s),
        0 <= i < s.len(),
    ensures
        distinct_keys(s.remove(i)),
        entries_map(s.remove(i)) == entries_map(s).remove(s[i].0@),
{
    let s2 = s.remove(i);
    assert forall|a: int| 0 <= a < s2.len() implies #[trigger] s2[a] == s[if a < i {
        a
    } else {
        a + 1
    }] by {}
    assert forall|a: int, b: int|
        0 <= a < s2.len() && 0 <= b < s2.len() && a != b implies (#[trigger] s2[a]).0@ != (
    #[trigger] s2[b]).0@ by {
        let a1 = if a < i { a } else { a + 1 };
        let b1 = if b < i { b } else { b + 1 };
        assert(s2[a] == s[a1] && s2[b] == s[b1]);
    }
    let m2 = entries_map(s2);
    let m1 = entries_map(s).remove(s[i].0@);
    assert forall|k: K::V| #[trigger] m2.contains_key(k) <==> m1.contains_key(k) by {
        if has_key(s2, k) {
            let j = choose|j: int| 0 <= j < s2.len() && (#[trigger] s2[j]).0@ == k;
            let j1 = if j < i { j } else { j + 1 };
            assert(s2[j] == s[j1]);
            assert(s[j1].0@ != s[i].0@);
        }
        if has_key(s, k) && k != s[i].0@ {
            let j = choose|j: int| 0 <= j < s.len() && (#[trigger] s[j]).0@ == k;
            let j2 = if j < i { j } else { j - 1 };
            assert(s2[j2] == s[j]);
        }
    }
    assert forall|k: K::V| m2.contains_key(k) implies #[trigger] m2[k] == m1[k] by {
        let j = choose|j: int| 0 <= j < s2.len() && (#[trigger] s2[j]).0@ == k;
        let j1 = if j < i { j } else { j + 1 };
        assert(s2[j] == s[j1]);
        lemma_index_of(s2, j);
        lemma_index_of(s, j1);
    }
    assert(m2 =~= m1);
}

impl ChangeMap<FileName, Commit> {
    /// The commits recorded for `name`, if any.
    pub fn get(&self, name: &FileName) -> (r: Option<&Vec<Commit>>)
        ensures
            r is Some <==> self@.contains_key(name@),
            r matches Some(v) ==> v@ == self@[name@],
    {
        proof {
            use_type_invariant(self);
        }
        match self.find(name) {
            Some(i) => {
                proof {
                    lemma_index_of(self.entries@, i as int);
                }
                Some(&self.entries[i].1)
            },
            None => None,
        }
    }

    /// The position of the entry of `name`.
    fn find(&self, name: &FileName) -> (r: Option<usize>)
        ensures
            r matches Some(i) ==> i < self.entries@.len() && self.entries@[i as int].0@ == name@,
            r is None ==> !has_key(self.entries@, name@),
    {
        let mut i: usize = 0;
        while i < self.entries.len()
            invariant
                i <= self.entries@.len(),
                forall|j: int| 0 <= j < i ==> (#[trigger] self.entries@[j]).0@ != name@,
            decreases self.entries@.len() - i,
        {
            if same_file_name(&self.entries[i].0, name) {
                return Some(i);
            }
            i = i + 1;
        }
        None
    }

    /// Put `commit` in front of the list of `name`, or give `name` the list
    /// of `commit` alone.
    pub(crate) fn join(&mut self, name: FileName, commit: Commit)
        ensures
            final(self)@ == joined(old(self)@, name@, commit),
    {
        proof {
            use_type_invariant(&*self);
        }
        let ghost before = self.entries@;
        let mut entries: Vec<(FileName, Vec<Commit>)> = Vec::new();
        std::mem::swap(&mut entries, &mut self.entries);
        let found = self.find_in(&entries, &name);
        match found {
            Some(i) => {
                let (key, mut commits) = entries.remove(i);
                let ghost old_commits = commits@;
                commits.insert(0, commit);
                entries.insert(i, (key, commits));
                proof {
                    lemma_index_of(before, i as int);
                    assert(entries@ =~= before.update(i as int, (before[i as int].0, commits)));
                    lemma_map_update(before, i as int, commits);
                    assert(commits@ =~= seq![commit] + old_commits);
                }
            },
            None => {
                let mut commits: Vec<Commit> = Vec::new();
                commits.push(commit);
                entries.push((name, commits));
                proof {
                    lemma_map_push(before, (name, commits));
                    assert(commits@ =~= seq![commit]);
                }
            },
        }
        self.entries = entries;
    }

    /// The position of the entry of `name` in `entries`.
    fn find_in(&self, entries: &Vec<(FileName, Vec<Commit>)>, name: &FileName) -> (r: Option<usize>)
        ensures
            r matches Some(i) ==> i < entries@.len() && entries@[i as int].0@ == name@,
            r is None ==> !has_key(entries@, name@),
    {
        let mut i: usize = 0;
        while i < entries.len()
            invariant
                i <= entries@.len(),
                forall|j: int| 0 <= j < i ==> (#[trigger] entries@[j]).0@ != name@,
            decreases entries@.len() - i,
        {
            if same_file_name(&entries[i].0, name) {
                return Some(i);
            }
            i = i + 1;
        }
        None
    }

    /// Take the list of `name` out of the map.
    pub(crate) fn take(&mut self, name: &FileName) -> (r: Option<Vec<Commit>>)
        ensures
            final(self)@ == old(self)@.remove(name@),
            r is Some <==> old(self)@.contains_key(name@),
            r matches Some(v) ==> v@ == old(self)@[name@],
    {
        proof {
            use_type_invariant(&*self);
        }
        let ghost before = self.entries@;
        let mut entries: Vec<(FileName, Vec<Commit>)> = Vec::new();
        std::mem::swap(&mut entries, &mut self.entries);
        let found = self.find_in(&entries, name);
        let r = match found {
            Some(i) => {
                let (_, commits) = entries.remove(i);
                proof {
                    lemma_index_of(before, i as int);
                    lemma_map_remove(before, i as int);
                }
                Some(commits)
            },
            None => {
                proof {
                    assert(entries_map(before).remove(name@) =~= entries_map(before));
                }
                None
            },
        };
        self.entries = entries;
        r
    }

    /// Give `name` the list `commits`, in place of any it had.
    pub(crate) fn set(&mut self, name: FileName, commits: Vec<Commit>)
        ensures
            final(self)@ == old(self)@.insert(name@, commits@),
    {
        let ghost old_map = self@;
        let _ = self.take(&name);
        proof {
            use_type_invariant(&*self);
        }
        let ghost before = self.entries@;
        let mut entries: Vec<(FileName, Vec<Commit>)> = Vec::new();
        std::mem::swap(&mut entries, &mut self.entries);
        proof {
            assert(!has_key(before, name@)) by {
                if has_key(before, name@) {
                    let j = choose|j: int| 0 <= j < before.len() && (#[trigger] before[j]).0@ == name@;
                    lemma_index_of(before, j);
                }
            }
            lemma_map_push(before, (name, commits));
            assert(old_map.remove(name@).insert(name@, commits@) =~= old_map.insert(name@, commits@));
        }
        entries.push((name, commits));
        self.entries = entries;
    }
}

} // verus!
