//! Identities: 128-bit numbers drawn at random, and the search that makes
//! one fresh for a given registry when the draw collides.

use std::collections::HashMap;
use vstd::prelude::*;

verus! {

/// How many identities there are.
pub open spec fn id_space() -> int {
    u128::MAX + 1
}

/// The bits of an identity that tell its version and variant.
pub const LAYOUT_MASK: u128 = 0x0000_0000_0000_f000_c000_0000_0000_0000;

/// What those bits hold in a random (version 4, RFC 4122) identity.
pub const RANDOM_LAYOUT: u128 = 0x0000_0000_0000_4000_8000_0000_0000_0000;

/// Draws a random identity.
///
/// Calls `uuid::Uuid::new_v4` and hands back the identity as the number that
/// `Uuid::as_u128` gives for it. Believed of it: the version bits say 4 and
/// the variant bits say RFC 4122, as `new_v4` sets them on every draw.
/// Nothing is claimed of the other bits, which are random.
#[verifier::external_body]
pub(crate) fn random_id() -> (id: u128)
    ensures
        id & LAYOUT_MASK == RANDOM_LAYOUT,
{
    uuid::Uuid::new_v4().as_u128()
}

/// The `j`-th identity tried when the search starts at `start`: the
/// identities are tried in rising order, wrapping round at the top.
pub open spec fn probe(start: u128, j: nat) -> u128 {
    if start + j <= u128::MAX {
        (start + j) as u128
    } else {
        (start + j - id_space()) as u128
    }
}

/// The `j`-th try from `start` is the first one that is not taken.
pub open spec fn first_free_at(taken: Set<u128>, start: u128, j: nat) -> bool {
    &&& !taken.contains(probe(start, j))
    &&& forall|i: nat| i < j ==> taken.contains(#[trigger] probe(start, i))
}

/// `id` is the first identity at or after `start`, wrapping round, that is
/// not taken. It is `start` itself whenever `start` is free.
pub open spec fn is_first_free(taken: Set<u128>, start: u128, id: u128) -> bool {
    exists|j: nat| #[trigger] first_free_at(taken, start, j) && id == probe(start, j)
}

/// A run of tries that all hit taken identities is no longer than the number
/// of taken identities.
pub proof fn lemma_probes_fit(taken: Set<u128>, start: u128, j: nat)
    requires
        taken.finite(),
        j <= id_space(),
        forall|i: nat| i < j ==> taken.contains(#[trigger] probe(start, i)),
    ensures
        j <= taken.len(),
    decreases j,
{
    if j > 0 {
        let last = probe(start, (j - 1) as nat);
        let rest = taken.remove(last);
        assert forall|i: nat| i < j - 1 implies rest.contains(#[trigger] probe(start, i)) by {
            assert(taken.contains(probe(start, i)));
            assert(probe(start, i) != last);
        }
        lemma_probes_fit(rest, start, (j - 1) as nat);
    }
}

/// The first free identity is unique.
pub proof fn law_first_free_is_unique(taken: Set<u128>, start: u128, a: u128, b: u128)
    requires
        is_first_free(taken, start, a),
        is_first_free(taken, start, b),
    ensures
        a == b,
{
    let i = choose|i: nat| #[trigger] first_free_at(taken, start, i) && a == probe(start, i);
    let j = choose|j: nat| #[trigger] first_free_at(taken, start, j) && b == probe(start, j);
    if i < j {
        assert(taken.contains(probe(start, i)));
    }
    if j < i {
        assert(taken.contains(probe(start, j)));
    }
}

/// Finds the first identity at or after `start` that `index` does not hold.
pub fn first_free_id(index: &HashMap<u128, usize>, start: u128) -> (id: u128)
    ensures
        is_first_free(index@.dom(), start, id),
        !index@.contains_key(id),
        !index@.contains_key(start) ==> id == start,
{
    let ghost taken = index@.dom();
    let ghost mut j: nat = 0;
    let mut id: u128 = start;
    let size = index.len();
    while index.contains_key(&id)
        invariant
            taken == index@.dom(),
            taken.finite(),
            size == taken.len(),
            id == probe(start, j),
            j <= taken.len(),
            forall|i: nat| i < j ==> taken.contains(#[trigger] probe(start, i)),
        decreases taken.len() - j,
    {
        proof {
            lemma_probes_fit(taken, start, j + 1);
            j = j + 1;
        }
        id = if id == u128::MAX {
            0
        } else {
            id + 1
        };
    }
    proof {
        assert(first_free_at(taken, start, j));
        if !taken.contains(start) && j > 0 {
            assert(taken.contains(probe(start, 0)));
        }
    }
    id
}

} // verus!
