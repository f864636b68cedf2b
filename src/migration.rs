//! Storage format migrations: the registry of named migrations, and the steps of
//! the migration that moves the Merkle store to its second hash scheme.
use vstd::prelude::*;

verus! {

/// A registered migration: its name and what it does.
pub struct Migration {
    pub name: String,
    pub description: String,
}

/// The migrations this node knows, in the order they are considered.
pub fn migrations() -> (r: Vec<Migration>)
    ensures
        r@.len() == 1,
        r@[0].name@ == "Hash Migration"@,
        r@[0].description@ == "Move data from old version of merk hash scheme to new version of merk hash scheme"@,
{
    let hash = Migration {
        name: "Hash Migration".to_owned(),
        description: "Move data from old version of merk hash scheme to new version of merk hash scheme".to_owned(),
    };
    vec![hash]
}

/// Where the hash-scheme migration stands. It quiesces the live store, copies
/// every pair into a fresh store of the new format, swaps the directories, reopens
/// the store, and removes what is left over.
#[derive(Clone, Copy, Debug, PartialEq, Eq, Structural)]
pub enum MigrationStep {
    Quiesce,
    Copy,
    Swap,
    Reopen,
    Cleanup,
    Done,
    /// A step before the swap failed: the original directory is as it was.
    FailedIntact,
    /// A step after the swap failed: the migrated data is in place.
    FailedMigrated,
}

pub open spec fn spec_next_step(step: MigrationStep, succeeded: bool) -> MigrationStep {
    match step {
        MigrationStep::Quiesce => if succeeded { MigrationStep::Copy } else { MigrationStep::FailedIntact },
        MigrationStep::Copy => if succeeded { MigrationStep::Swap } else { MigrationStep::FailedIntact },
        MigrationStep::Swap => if succeeded { MigrationStep::Reopen } else { MigrationStep::FailedIntact },
        MigrationStep::Reopen => if succeeded { MigrationStep::Cleanup } else { MigrationStep::FailedMigrated },
        MigrationStep::Cleanup => if succeeded { MigrationStep::Done } else { MigrationStep::FailedMigrated },
        other => other,
    }
}

/// The new-format data is authoritative once the swap has succeeded.
pub open spec fn swapped(step: MigrationStep) -> bool {
    match step {
        MigrationStep::Reopen | MigrationStep::Cleanup | MigrationStep::Done | MigrationStep::FailedMigrated => true,
        _ => false,
    }
}

impl MigrationStep {
    /// The step after this one, given whether this one succeeded.
    pub fn next(self, succeeded: bool) -> (r: MigrationStep)
        ensures
            r == spec_next_step(self, succeeded),
    {
        match self {
            MigrationStep::Quiesce => if succeeded { MigrationStep::Copy } else { MigrationStep::FailedIntact },
            MigrationStep::Copy => if succeeded { MigrationStep::Swap } else { MigrationStep::FailedIntact },
            MigrationStep::Swap => if succeeded { MigrationStep::Reopen } else { MigrationStep::FailedIntact },
            MigrationStep::Reopen => if succeeded { MigrationStep::Cleanup } else { MigrationStep::FailedMigrated },
            MigrationStep::Cleanup => if succeeded { MigrationStep::Done } else { MigrationStep::FailedMigrated },
            other => other,
        }
    }

    /// No step follows.
    pub fn is_finished(&self) -> (r: bool)
        ensures
            r == (*self == MigrationStep::Done || *self == MigrationStep::FailedIntact || *self
                == MigrationStep::FailedMigrated),
    {
        match self {
            MigrationStep::Done | MigrationStep::FailedIntact | MigrationStep::FailedMigrated => true,
            _ => false,
        }
    }

    /// The original directory holds the migrated data.
    pub fn is_swapped(&self) -> (r: bool)
        ensures
            r == swapped(*self),
    {
        match self {
            MigrationStep::Reopen | MigrationStep::Cleanup | MigrationStep::Done | MigrationStep::FailedMigrated => true,
            _ => false,
        }
    }
}

/// A failure never undoes the swap, and success only moves forward: a failed
/// migration is intact exactly when it failed before its data was swapped in.
pub proof fn lemma_failure_semantics(step: MigrationStep)
    ensures
        step != MigrationStep::Done ==> spec_next_step(step, false) != MigrationStep::Done,
        swapped(step) ==> swapped(spec_next_step(step, false)) && swapped(spec_next_step(step, true)),
        !swapped(step) && step != MigrationStep::FailedIntact ==> spec_next_step(step, false)
            == MigrationStep::FailedIntact,
{
}

/// The store after the copy step applied each pair as a write, in order.
pub open spec fn apply_puts(base: Map<Seq<u8>, Seq<u8>>, puts: Seq<(Seq<u8>, Seq<u8>)>) -> Map<
    Seq<u8>,
    Seq<u8>,
>
    decreases puts.len(),
{
    if puts.len() == 0 {
        base
    } else {
        apply_puts(base, puts.drop_last()).insert(puts.last().0, puts.last().1)
    }
}

/// `pairs` is what iterating over `store` yields: each pair once, nothing else.
pub open spec fn enumerates(store: Map<Seq<u8>, Seq<u8>>, pairs: Seq<(Seq<u8>, Seq<u8>)>) -> bool {
    &&& forall|i: int, j: int| 0 <= i < j < pairs.len() ==> (#[trigger] pairs[i]).0 != (#[trigger] pairs[j]).0
    &&& forall|i: int| 0 <= i < pairs.len() ==> store.contains_key((#[trigger] pairs[i]).0) && store[pairs[i].0] == pairs[i].1
    &&& forall|k: Seq<u8>| store.contains_key(k) ==> exists|i: int| 0 <= i < pairs.len() && (#[trigger] pairs[i]).0 == k
}

proof fn lemma_apply_puts_shape(pairs: Seq<(Seq<u8>, Seq<u8>)>)
    requires
        forall|i: int, j: int| 0 <= i < j < pairs.len() ==> (#[trigger] pairs[i]).0 != (#[trigger] pairs[j]).0,
    ensures
        forall|k: Seq<u8>| #[trigger] apply_puts(Map::empty(), pairs).contains_key(k) <==> exists|i: int|
            0 <= i < pairs.len() && (#[trigger] pairs[i]).0 == k,
        forall|i: int| 0 <= i < pairs.len() ==> apply_puts(Map::empty(), pairs)[(#[trigger] pairs[i]).0] == pairs[i].1,
    decreases pairs.len(),
{
    if pairs.len() > 0 {
        let p = pairs.drop_last();
        assert forall|i: int, j: int| 0 <= i < j < p.len() implies (#[trigger] p[i]).0 != (#[trigger] p[j]).0 by {
            assert(p[i] == pairs[i] && p[j] == pairs[j]);
        }
        lemma_apply_puts_shape(p);
        let m = apply_puts(Map::empty(), pairs);
        assert forall|k: Seq<u8>| #[trigger] m.contains_key(k) <==> exists|i: int|
            0 <= i < pairs.len() && (#[trigger] pairs[i]).0 == k by {
            if m.contains_key(k) && k != pairs.last().0 {
                assert(apply_puts(Map::empty(), p).contains_key(k));
                let i = choose|i: int| 0 <= i < p.len() && (#[trigger] p[i]).0 == k;
                assert(pairs[i] == p[i]);
            }
            if exists|i: int| 0 <= i < pairs.len() && (#[trigger] pairs[i]).0 == k {
                let i = choose|i: int| 0 <= i < pairs.len() && (#[trigger] pairs[i]).0 == k;
                if i < pairs.len() - 1 {
                    assert(p[i] == pairs[i]);
                    assert(apply_puts(Map::empty(), p).contains_key(k));
                }
            }
        }
        assert forall|i: int| 0 <= i < pairs.len() implies m[(#[trigger] pairs[i]).0] == pairs[i].1 by {
            if i < pairs.len() - 1 {
                assert(p[i] == pairs[i]);
                assert(pairs[i].0 != pairs[pairs.len() - 1].0);
            }
        }
    }
}

/// Migration idempotence: copying the pairs of a store into an empty one rebuilds
/// that store exactly, so running the copy again on migrated data gives the same
/// data, and the same keys, as before.
pub proof fn lemma_copy_rebuilds(store: Map<Seq<u8>, Seq<u8>>, pairs: Seq<(Seq<u8>, Seq<u8>)>)
    requires
        enumerates(store, pairs),
    ensures
        apply_puts(Map::empty(), pairs) == store,
        apply_puts(Map::empty(), pairs).dom() == store.dom(),
{
    lemma_apply_puts_shape(pairs);
    let m = apply_puts(Map::empty(), pairs);
    assert forall|k: Seq<u8>| #[trigger] m.contains_key(k) <==> store.contains_key(k) by {
        if store.contains_key(k) {
            let i = choose|i: int| 0 <= i < pairs.len() && (#[trigger] pairs[i]).0 == k;
        }
    }
    assert forall|k: Seq<u8>| #[trigger] m.contains_key(k) implies m[k] == store[k] by {
        let i = choose|i: int| 0 <= i < pairs.len() && (#[trigger] pairs[i]).0 == k;
    }
    assert(m =~= store);
}

} // verus!
