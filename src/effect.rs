//! Changes to the segment files that mirror the store's segments on disk.
use vstd::prelude::*;

verus! {

/// One change to the segment files of a data directory.
pub enum Effect {
    /// Create segment `gen`, empty, if it does not exist.
    Create { gen: u64 },
    /// Append `bytes` to segment `gen`, creating it if it does not exist.
    Append { gen: u64, bytes: Vec<u8> },
    /// Delete segment `gen`.
    Delete { gen: u64 },
}

/// The segment files, by generation, after one change.
pub open spec fn apply_effect(m: Map<u64, Seq<u8>>, e: Effect) -> Map<u64, Seq<u8>> {
    match e {
        Effect::Create { gen } => if m.contains_key(gen) {
            m
        } else {
            m.insert(gen, Seq::empty())
        },
        Effect::Append { gen, bytes } => if m.contains_key(gen) {
            m.insert(gen, m[gen] + bytes@)
        } else {
            m.insert(gen, bytes@)
        },
        Effect::Delete { gen } => m.remove(gen),
    }
}

/// The segment files after the changes, in order.
pub open spec fn apply_effects(m: Map<u64, Seq<u8>>, es: Seq<Effect>) -> Map<u64, Seq<u8>>
    decreases es.len(),
{
    if es.len() == 0 {
        m
    } else {
        apply_effect(apply_effects(m, es.drop_last()), es.last())
    }
}

/// Applying one more change applies it to what the earlier ones gave.
pub proof fn lemma_apply_push(m: Map<u64, Seq<u8>>, es: Seq<Effect>, e: Effect)
    ensures
        apply_effects(m, es.push(e)) == apply_effect(apply_effects(m, es), e),
{
    assert(es.push(e).drop_last() =~= es);
}

/// Applying two runs of changes one after the other applies their
/// concatenation.
pub proof fn lemma_apply_concat(m: Map<u64, Seq<u8>>, a: Seq<Effect>, b: Seq<Effect>)
    ensures
        apply_effects(m, a + b) == apply_effects(apply_effects(m, a), b),
    decreases b.len(),
{
    if b.len() == 0 {
        assert(a + b =~= a);
    } else {
        assert((a + b).drop_last() =~= a + b.drop_last());
        lemma_apply_concat(m, a, b.drop_last());
    }
}

} // verus!
