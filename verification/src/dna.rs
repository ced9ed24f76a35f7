//! Bitwise combination of two parents' payload bytes under a selector mask.

use vstd::prelude::*;

verus! {

/// For every bit position, the result takes the bit of `dna1` where the
/// selector bit is 1 and the bit of `dna2` where it is 0.
pub open spec fn combine_dna_spec(dna1: u8, dna2: u8, selector: u8) -> u8 {
    (selector & dna1) | (!selector & dna2)
}

/// Combine one byte of each parent under the selector mask.
pub fn combine_dna(dna1: u8, dna2: u8, selector: u8) -> (r: u8)
    ensures
        r == combine_dna_spec(dna1, dna2, selector),
{
    (selector & dna1) | (!selector & dna2)
}

/// A child payload: every byte combined from the parents' bytes at the
/// same position under the selector byte there.
pub open spec fn child_dna(dna1: Seq<u8>, dna2: Seq<u8>, selector: Seq<u8>) -> Seq<u8> {
    Seq::new(dna1.len(), |i: int| combine_dna_spec(dna1[i], dna2[i], selector[i]))
}

/// Bit by bit, the combined byte equals `dna1` wherever the selector bit is
/// set and `dna2` wherever it is clear.
pub proof fn lemma_combine_dna_bits(dna1: u8, dna2: u8, selector: u8, j: u8)
    requires
        j < 8,
    ensures
        (combine_dna_spec(dna1, dna2, selector) >> j) & 1 == (if (selector >> j) & 1 == 1 {
            (dna1 >> j) & 1
        } else {
            (dna2 >> j) & 1
        }),
{
    assert((((selector & dna1) | (!selector & dna2)) >> j) & 1 == (if (selector >> j) & 1 == 1 {
        (dna1 >> j) & 1
    } else {
        (dna2 >> j) & 1
    })) by (bit_vector)
        requires
            j < 8,
    ;
}

} // verus!
