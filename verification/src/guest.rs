//! The guest's side of the exchange: what the guest derives from its
//! input before it calls on the commitment scheme, and what it commits once
//! the scheme has judged every proof.

use vstd::bytes::{
    lemma_auto_spec_u128_to_from_le_bytes, spec_u128_from_le_bytes, spec_u128_to_le_bytes,
    u128_from_le_bytes,
};
use vstd::prelude::*;

verus! {

/// The binary logarithm of the inverse rate of the Reed-Solomon code.
pub const LOG_INV_RATE: usize = 1;

/// The number of test queries of the low-degree test.
pub const NUM_TEST_QUERIES: usize = 128;

/// The binary logarithm of the number of shares.
pub const LOG_NUM_SHARES: usize = 80;

/// The binary logarithm of the number of bits of a field element.
pub const LOG_SCALAR_BITS: u64 = 7;

/// The parameters with which the guest sets the commitment scheme up.
#[derive(Clone, Copy, Debug, PartialEq, Eq, Structural)]
pub struct SchemeParameters {
    pub log_inv_rate: usize,
    pub num_test_queries: usize,
    /// The number of variables of the committed polynomial, bit by bit.
    pub total_variables: usize,
    pub log_num_shares: usize,
}

/// The parameters for a polynomial of `2^packed_log_len` packed values.
pub open spec fn parameters_for(packed_log_len: u64) -> Option<SchemeParameters> {
    if packed_log_len + LOG_SCALAR_BITS > usize::MAX {
        None
    } else {
        Some(
            SchemeParameters {
                log_inv_rate: LOG_INV_RATE,
                num_test_queries: NUM_TEST_QUERIES,
                total_variables: (packed_log_len + LOG_SCALAR_BITS) as usize,
                log_num_shares: LOG_NUM_SHARES,
            },
        )
    }
}

/// The parameters with which the guest sets the commitment scheme up for
/// a polynomial of `2^packed_log_len` packed values: a packed value is a
/// field element of `2^7` bits, so the polynomial has seven variables more
/// than the packed length says. `None` where that number is beyond what the
/// machine can count.
pub fn scheme_parameters(packed_log_len: u64) -> (parameters: Option<SchemeParameters>)
    ensures
        parameters == parameters_for(packed_log_len),
{
    if packed_log_len > usize::MAX as u64 - LOG_SCALAR_BITS {
        return None;
    }
    Some(
        SchemeParameters {
            log_inv_rate: LOG_INV_RATE,
            num_test_queries: NUM_TEST_QUERIES,
            total_variables: (packed_log_len + LOG_SCALAR_BITS) as usize,
            log_num_shares: LOG_NUM_SHARES,
        },
    )
}

/// The number that a field element stands for: its sixteen bytes, least
/// significant first.
pub fn element_value(element: &[u8; 16]) -> (value: u128)
    ensures
        value == spec_u128_from_le_bytes(element@),
{
    u128_from_le_bytes(element.as_slice())
}

/// The bytes of a field element stand for the number that they were made
/// from.
pub proof fn lemma_element_value_of_bytes(value: u128)
    ensures
        spec_u128_from_le_bytes(spec_u128_to_le_bytes(value)) == value,
{
    lemma_auto_spec_u128_to_from_le_bytes();
    assert(spec_u128_to_le_bytes(value).len() == 16);
}

/// What the guest does once the commitment scheme has judged the proofs.
#[derive(Clone, Copy, Debug, PartialEq, Eq, Structural)]
pub enum Attestation {
    /// Every proof was verified: the guest commits `true`.
    Committed,
    /// The proof at this index was not verified, and is the first such:
    /// the guest fails and commits nothing.
    Rejected { proof: usize },
}

/// Decides what the guest does, from what the commitment scheme has found
/// of the proofs: for each proof in order, whether the scheme has verified
/// it. The guest commits
/// only if the scheme has verified every proof; one that it has not
/// verified fails the guest.
pub fn attest(verified: &[bool]) -> (res: Attestation)
    ensures
        res is Committed <==> forall|i: int| 0 <= i < verified@.len() ==> verified@[i],
        res matches Attestation::Rejected { proof } ==> {
            &&& proof < verified@.len()
            &&& !verified@[proof as int]
            &&& forall|j: int| 0 <= j < proof ==> verified@[j]
        },
{
    let mut i: usize = 0;
    while i < verified.len()
        invariant
            i <= verified.len(),
            forall|j: int| 0 <= j < i ==> verified@[j],
        decreases verified.len() - i,
    {
        if !verified[i] {
            return Attestation::Rejected { proof: i };
        }
        i += 1;
    }
    Attestation::Committed
}

} // verus!
