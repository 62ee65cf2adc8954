//! A repository of the history model: its histories of commits, and the
//! search for a commit by its hash.
use vstd::prelude::*;

use crate::types::commit::Commit;
use crate::types::commit_history::CommitHistory;

verus! {

/// A repository: histories of commits, in the order they were added.
#[derive(Debug)]
pub struct Repo {
    histories: Vec<CommitHistory>,
}

impl View for Repo {
    type V = Seq<CommitHistory>;

    closed spec fn view(&self) -> Seq<CommitHistory> {
        self.histories@
    }
}

/// The first commit of `cs` with the hash `hash`.
pub open spec fn first_with_hash(cs: Seq<Commit>, hash: Seq<char>) -> Option<Commit>
    decreases cs.len(),
{
    if cs.len() == 0 {
        None
    } else if cs[0].hash@ == hash {
        Some(cs[0])
    } else {
        first_with_hash(cs.drop_first(), hash)
    }
}

/// The first commit with the hash `hash` in the first of the histories
/// `hs` that has one.
pub open spec fn first_in_histories(hs: Seq<CommitHistory>, hash: Seq<char>) -> Option<Commit>
    decreases hs.len(),
{
    if hs.len() == 0 {
        None
    } else {
        match first_with_hash(hs[0].commits@, hash) {
            Some(c) => Some(c),
            None => first_in_histories(hs.drop_first(), hash),
        }
    }
}

/// The first commit with a hash is found exactly when some commit has the
/// hash, and it is the commit at the least position that has it.
pub proof fn lemma_first_with_hash(cs: Seq<Commit>, hash: Seq<char>)
    ensures
        first_with_hash(cs, hash) is Some <==> exists|i: int| 0 <= i < cs.len() && (#[trigger] cs[i]).hash@ == hash,
        first_with_hash(cs, hash) matches Some(c) ==> exists|i: int|
            0 <= i < cs.len() && #[trigger] cs[i] == c && c.hash@ == hash && forall|j: int|
                0 <= j < i ==> (#[trigger] cs[j]).hash@ != hash,
    decreases cs.len(),
{
    if cs.len() > 0 {
        let rest = cs.drop_first();
        lemma_first_with_hash(rest, hash);
        if cs[0].hash@ == hash {
            assert(cs[0] == cs[0]);
        } else {
            if exists|i: int| 0 <= i < cs.len() && (#[trigger] cs[i]).hash@ == hash {
                let i = choose|i: int| 0 <= i < cs.len() && (#[trigger] cs[i]).hash@ == hash;
                assert(rest[i - 1] == cs[i]);
            }
            if exists|i: int| 0 <= i < rest.len() && (#[trigger] rest[i]).hash@ == hash {
                let i = choose|i: int| 0 <= i < rest.len() && (#[trigger] rest[i]).hash@ == hash;
                assert(cs[i + 1] == rest[i]);
            }
            if let Some(c) = first_with_hash(rest, hash) {
                let i = choose|i: int|
                    0 <= i < rest.len() && #[trigger] rest[i] == c && c.hash@ == hash && forall|j: int|
                        0 <= j < i ==> (#[trigger] rest[j]).hash@ != hash;
                assert(cs[i + 1] == c);
                assert forall|j: int| 0 <= j < i + 1 implies (#[trigger] cs[j]).hash@ != hash by {
                    if j > 0 {
                        assert(cs[j] == rest[j - 1]);
                    }
                }
            }
        }
    }
}

/// The commit found in histories is found exactly when some history holds
/// a commit with the hash; it then has the hash, and stands at the least
/// position with the hash in the first history that holds one.
pub proof fn lemma_first_in_histories(hs: Seq<CommitHistory>, hash: Seq<char>)
    ensures
        first_in_histories(hs, hash) is Some <==> exists|k: int, i: int|
            0 <= k < hs.len() && 0 <= i < hs[k].commits@.len() && (#[trigger] hs[k].commits@[i]).hash@
                == hash,
        first_in_histories(hs, hash) matches Some(c) ==> c.hash@ == hash && exists|k: int, i: int|
            0 <= k < hs.len() && 0 <= i < hs[k].commits@.len() && #[trigger] hs[k].commits@[i] == c
                && (forall|j: int| 0 <= j < i ==> (#[trigger] hs[k].commits@[j]).hash@ != hash)
                && (forall|k2: int, j: int|
                0 <= k2 < k && 0 <= j < hs[k2].commits@.len() ==> (#[trigger] hs[k2].commits@[j]).hash@
                    != hash),
    decreases hs.len(),
{
    if hs.len() > 0 {
        let rest = hs.drop_first();
        lemma_first_in_histories(rest, hash);
        lemma_first_with_hash(hs[0].commits@, hash);
        assert forall|k: int| 0 <= k < rest.len() implies #[trigger] rest[k] == hs[k + 1] by {}
        match first_with_hash(hs[0].commits@, hash) {
            Some(c) => {
                let i = choose|i: int|
                    0 <= i < hs[0].commits@.len() && #[trigger] hs[0].commits@[i] == c && c.hash@ == hash
                        && forall|j: int| 0 <= j < i ==> (#[trigger] hs[0].commits@[j]).hash@ != hash;
                assert(hs[0].commits@[i].hash@ == hash);
            },
            None => {
                if exists|k: int, i: int|
                    0 <= k < hs.len() && 0 <= i < hs[k].commits@.len() && (#[trigger] hs[k].commits@[i]).hash@
                        == hash {
                    let (k, i) = choose|k: int, i: int|
                        0 <= k < hs.len() && 0 <= i < hs[k].commits@.len()
                            && (#[trigger] hs[k].commits@[i]).hash@ == hash;
                    if k == 0 {
                        assert(hs[0].commits@[i].hash@ == hash);
                    } else {
                        assert(rest[k - 1].commits@[i].hash@ == hash);
                    }
                }
                if exists|k: int, i: int|
                    0 <= k < rest.len() && 0 <= i < rest[k].commits@.len()
                        && (#[trigger] rest[k].commits@[i]).hash@ == hash {
                    let (k, i) = choose|k: int, i: int|
                        0 <= k < rest.len() && 0 <= i < rest[k].commits@.len()
                            && (#[trigger] rest[k].commits@[i]).hash@ == hash;
                    assert(hs[k + 1].commits@[i].hash@ == hash);
                }
                if let Some(c) = first_in_histories(rest, hash) {
                    let (k, i) = choose|k: int, i: int|
                        0 <= k < rest.len() && 0 <= i < rest[k].commits@.len()
                            && #[trigger] rest[k].commits@[i] == c && (forall|j: int|
                            0 <= j < i ==> (#[trigger] rest[k].commits@[j]).hash@ != hash) && (forall|
                            k2: int,
                            j: int,
                        |
                            0 <= k2 < k && 0 <= j < rest[k2].commits@.len()
                                ==> (#[trigger] rest[k2].commits@[j]).hash@ != hash);
                    assert(hs[k + 1].commits@[i] == c);
                    assert forall|j: int| 0 <= j < i implies (#[trigger] hs[k + 1].commits@[j]).hash@ != hash by {
                        assert(hs[k + 1] == rest[k]);
                    }
                    assert forall|k2: int, j: int|
                        0 <= k2 < k + 1 && 0 <= j < hs[k2].commits@.len() implies (#[trigger] hs[k2].commits@[j]).hash@
                        != hash by {
                        if k2 > 0 {
                            assert(hs[k2] == rest[k2 - 1]);
                        } else {
                            if hs[0].commits@[j].hash@ == hash {
                                assert(exists|i: int| 0 <= i < hs[0].commits@.len() && (#[trigger] hs[0].commits@[i]).hash@ == hash);
                            }
                        }
                    }
                }
            },
        }
    }
}

/// Past commits without the hash, the first with it is the first of the
/// rest.
proof fn lemma_first_with_hash_skip(cs: Seq<Commit>, hash: Seq<char>, j: int)
    requires
        0 <= j <= cs.len(),
        forall|i: int| 0 <= i < j ==> (#[trigger] cs[i]).hash@ != hash,
    ensures
        first_with_hash(cs, hash) == first_with_hash(cs.skip(j), hash),
    decreases j,
{
    if j > 0 {
        assert forall|i: int| 0 <= i < j - 1 implies (#[trigger] cs.drop_first()[i]).hash@ != hash by {
            assert(cs.drop_first()[i] == cs[i + 1]);
        }
        lemma_first_with_hash_skip(cs.drop_first(), hash, j - 1);
        assert(cs.drop_first().skip(j - 1) =~= cs.skip(j));
    } else {
        assert(cs.skip(0) =~= cs);
    }
}

/// Past histories without a commit of the hash, the first such commit is
/// that of the rest.
proof fn lemma_first_in_histories_skip(hs: Seq<CommitHistory>, hash: Seq<char>, k: int)
    requires
        0 <= k <= hs.len(),
        forall|i: int| 0 <= i < k ==> first_with_hash((#[trigger] hs[i]).commits@, hash) is None,
    ensures
        first_in_histories(hs, hash) == first_in_histories(hs.skip(k), hash),
    decreases k,
{
    if k > 0 {
        assert forall|i: int| 0 <= i < k - 1 implies first_with_hash(
            (#[trigger] hs.drop_first()[i]).commits@,
            hash,
        ) is None by {
            assert(hs.drop_first()[i] == hs[i + 1]);
        }
        lemma_first_in_histories_skip(hs.drop_first(), hash, k - 1);
        assert(hs.drop_first().skip(k - 1) =~= hs.skip(k));
    } else {
        assert(hs.skip(0) =~= hs);
    }
}

impl Repo {
    /// A repository with no histories.
    pub fn new() -> (r: Repo)
        ensures
            r@ == Seq::<CommitHistory>::empty(),
    {
        Repo { histories: Vec::new() }
    }

    /// Add `history` after the others.
    pub fn add_commit_history(&mut self, history: CommitHistory)
        ensures
            final(self)@ == old(self)@.push(history),
    {
        self.histories.push(history);
    }

    /// The histories of the repository, in order.
    pub fn get_commit_histories(&self) -> (r: &Vec<CommitHistory>)
        ensures
            r@ == self@,
    {
        &self.histories
    }

    /// The first commit with the hash `hash`, in the first history that has
    /// one.
    pub fn get_commit(&self, hash: &String) -> (r: Option<&Commit>)
        ensures
            r is None <==> first_in_histories(self@, hash@) is None,
            r matches Some(c) ==> first_in_histories(self@, hash@) == Some(*c),
    {
        let hs = &self.histories;
        let mut k: usize = 0;
        while k < hs.len()
            invariant
                k <= hs@.len(),
                hs@ == self@,
                forall|i: int| 0 <= i < k ==> first_with_hash((#[trigger] hs@[i]).commits@, hash@) is None,
            decreases hs@.len() - k,
        {
            let cs = &hs[k].commits;
            let mut j: usize = 0;
            while j < cs.len()
                invariant
                    k < hs@.len(),
                    hs@ == self@,
                    cs@ == hs@[k as int].commits@,
                    forall|i: int| 0 <= i < k ==> first_with_hash((#[trigger] hs@[i]).commits@, hash@) is None,
                    j <= cs@.len(),
                    forall|i: int| 0 <= i < j ==> (#[trigger] cs@[i]).hash@ != hash@,
                decreases cs@.len() - j,
            {
                if cs[j].hash == *hash {
                    proof {
                        lemma_first_with_hash_skip(cs@, hash@, j as int);
                        assert(cs@.skip(j as int)[0] == cs@[j as int]);
                        lemma_first_in_histories_skip(hs@, hash@, k as int);
                        assert(hs@.skip(k as int)[0] == hs@[k as int]);
                    }
                    return Some(&cs[j]);
                }
                j = j + 1;
            }
            proof {
                lemma_first_with_hash_skip(cs@, hash@, j as int);
                assert(cs@.skip(j as int).len() == 0);
            }
            k = k + 1;
        }
        proof {
            lemma_first_in_histories_skip(hs@, hash@, k as int);
            assert(hs@.skip(k as int).len() == 0);
        }
        None
    }
}

} // verus!
