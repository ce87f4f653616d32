//! The 2-to-1 digest merge used to build and verify Merkle-authenticated
//! advice data.
//!
//! The hash itself is the VM's native hash function, computed by an outside
//! crate; this module only names its result so that the Merkle logic can be
//! verified against it.

use crate::field::Felt;
use crate::field::Word;
use crate::field::word_valid;
use crate::field::word_view;
use vstd::prelude::*;
use winter_crypto::Hasher;
use winter_crypto::hashers::Rp64_256;
use winter_math::fields::f64::BaseElement;

verus! {

/// The digest of an ordered pair of words under the VM's native hash
/// function.
pub uninterp spec fn merge_of(a: Seq<u64>, b: Seq<u64>) -> Seq<u64>;

/// Relies on `winter_crypto::hashers::Rp64_256::merge`: the Rescue Prime
/// digest of two words, a deterministic function of their eight field
/// elements alone; each element of the digest is a valid field element.
#[verifier::external_body]
pub fn merge(a: &Word, b: &Word) -> (r: Word)
    ensures
        word_view(r) == merge_of(word_view(*a), word_view(*b)),
        word_valid(r),
{
    let g = |w: &Word| <<Rp64_256 as Hasher>::Digest>::new(w.map(|x| BaseElement::new(x.as_int())));
    let d = Rp64_256::merge(&[g(a), g(b)]);
    let es = d.as_elements();
    [
        Felt::new(es[0].as_int()),
        Felt::new(es[1].as_int()),
        Felt::new(es[2].as_int()),
        Felt::new(es[3].as_int()),
    ]
}

} // verus!
