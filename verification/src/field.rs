//! The field-element primitive and the [`Word`] digest type.
//!
//! Every integer entering the system is validated against the field modulus
//! here; all downstream components may assume that every [`Felt`] they see is
//! already a valid field element.

use vstd::prelude::*;

verus! {

/// Modulus of the VM's native prime field: `2^64 - 2^32 + 1`.
pub const MODULUS: u64 = 0xffff_ffff_0000_0001;

/// An element of the VM's native prime field, stored as its canonical integer
/// representation. A `Felt` can only be constructed from an integer strictly
/// less than [`MODULUS`].
#[derive(Clone, Copy, Debug, PartialEq, Eq, Structural)]
pub struct Felt {
    value: u64,
}

impl View for Felt {
    type V = u64;

    closed spec fn view(&self) -> u64 {
        self.value
    }
}

impl Felt {
    /// Whether this value is a valid element of the field.
    pub open spec fn is_valid(self) -> bool {
        self@ < MODULUS
    }

    /// Returns the field element with canonical representation `value`.
    pub fn new(value: u64) -> (r: Felt)
        requires
            value < MODULUS,
        ensures
            r@ == value,
    {
        Felt { value }
    }

    /// Returns the canonical integer representation of this field element.
    pub fn as_int(&self) -> (r: u64)
        ensures
            r == self@,
    {
        self.value
    }
}

/// An ordered 4-tuple of field elements: the system's 256-bit digest type
/// (Merkle roots and hash outputs).
pub type Word = [Felt; 4];

/// The canonical integer representations of a word's four elements.
pub open spec fn word_view(w: Word) -> Seq<u64> {
    w@.map_values(|f: Felt| f@)
}

/// Whether all four elements of a word are valid field elements.
pub open spec fn word_valid(w: Word) -> bool {
    forall|i: int| 0 <= i < 4 ==> #[trigger] word_view(w)[i] < MODULUS
}

/// Whether two words hold the same four field elements.
pub fn word_eq(a: &Word, b: &Word) -> (r: bool)
    ensures
        r == (word_view(*a) == word_view(*b)),
{
    proof {
        assert(word_view(*a)[0] == a@[0]@ && word_view(*a)[1] == a@[1]@ && word_view(*a)[2]
            == a@[2]@ && word_view(*a)[3] == a@[3]@);
        assert(word_view(*b)[0] == b@[0]@ && word_view(*b)[1] == b@[1]@ && word_view(*b)[2]
            == b@[2]@ && word_view(*b)[3] == b@[3]@);
    }
    let r = a[0].as_int() == b[0].as_int() && a[1].as_int() == b[1].as_int() && a[2].as_int()
        == b[2].as_int() && a[3].as_int() == b[3].as_int();
    proof {
        if r {
            assert(word_view(*a) =~= word_view(*b));
        }
    }
    r
}

/// The eight little-endian bytes of `v`.
pub open spec fn u64_le_bytes(v: u64) -> Seq<u8> {
    seq![
        (v & 0xff) as u8,
        ((v >> 8) & 0xff) as u8,
        ((v >> 16) & 0xff) as u8,
        ((v >> 24) & 0xff) as u8,
        ((v >> 32) & 0xff) as u8,
        ((v >> 40) & 0xff) as u8,
        ((v >> 48) & 0xff) as u8,
        ((v >> 56) & 0xff) as u8,
    ]
}

/// The canonical 32-byte encoding of a word: the little-endian bytes of its
/// four elements, in element order.
pub open spec fn word_bytes(ws: Seq<u64>) -> Seq<u8> {
    u64_le_bytes(ws[0]) + u64_le_bytes(ws[1]) + u64_le_bytes(ws[2]) + u64_le_bytes(ws[3])
}

/// Appends the eight little-endian bytes of `v` to `out`.
fn push_le_bytes(out: &mut Vec<u8>, v: u64)
    ensures
        final(out)@ == old(out)@ + u64_le_bytes(v),
{
    let ghost prev = out@;
    out.push((v & 0xff) as u8);
    out.push(((v >> 8) & 0xff) as u8);
    out.push(((v >> 16) & 0xff) as u8);
    out.push(((v >> 24) & 0xff) as u8);
    out.push(((v >> 32) & 0xff) as u8);
    out.push(((v >> 40) & 0xff) as u8);
    out.push(((v >> 48) & 0xff) as u8);
    out.push(((v >> 56) & 0xff) as u8);
    proof {
        assert(out@ =~= prev + u64_le_bytes(v));
    }
}

/// Returns the canonical 32-byte encoding of `w`, used as the key under which
/// an advice set registers in the advice-set mapping.
pub fn word_to_bytes(w: &Word) -> (r: Vec<u8>)
    ensures
        r@ == word_bytes(word_view(*w)),
        r@.len() == 32,
{
    let mut out: Vec<u8> = Vec::new();
    push_le_bytes(&mut out, w[0].as_int());
    push_le_bytes(&mut out, w[1].as_int());
    push_le_bytes(&mut out, w[2].as_int());
    push_le_bytes(&mut out, w[3].as_int());
    proof {
        assert(out@ =~= word_bytes(word_view(*w)));
    }
    out
}

/// A 64-bit value is recovered exactly from its little-endian bytes, so the
/// byte encoding of words is injective.
proof fn lemma_u64_le_bytes_injective(a: u64, b: u64)
    requires
        u64_le_bytes(a) == u64_le_bytes(b),
    ensures
        a == b,
{
    assert(u64_le_bytes(a)[0] == u64_le_bytes(b)[0]);
    assert(u64_le_bytes(a)[1] == u64_le_bytes(b)[1]);
    assert(u64_le_bytes(a)[2] == u64_le_bytes(b)[2]);
    assert(u64_le_bytes(a)[3] == u64_le_bytes(b)[3]);
    assert(u64_le_bytes(a)[4] == u64_le_bytes(b)[4]);
    assert(u64_le_bytes(a)[5] == u64_le_bytes(b)[5]);
    assert(u64_le_bytes(a)[6] == u64_le_bytes(b)[6]);
    assert(u64_le_bytes(a)[7] == u64_le_bytes(b)[7]);
    assert((a & 0xff) as u8 == (b & 0xff) as u8 && ((a >> 8) & 0xff) as u8 == ((b >> 8)
        & 0xff) as u8 && ((a >> 16) & 0xff) as u8 == ((b >> 16) & 0xff) as u8 && ((a >> 24)
        & 0xff) as u8 == ((b >> 24) & 0xff) as u8 && ((a >> 32) & 0xff) as u8 == ((b >> 32)
        & 0xff) as u8 && ((a >> 40) & 0xff) as u8 == ((b >> 40) & 0xff) as u8 && ((a >> 48)
        & 0xff) as u8 == ((b >> 48) & 0xff) as u8 && ((a >> 56) & 0xff) as u8 == ((b >> 56)
        & 0xff) as u8 ==> a == b) by (bit_vector);
}

/// Two words with the same 32-byte encoding hold the same elements: keying a
/// mapping by root encodings is the same as keying it by roots.
pub proof fn lemma_word_bytes_injective(a: Seq<u64>, b: Seq<u64>)
    requires
        a.len() == 4,
        b.len() == 4,
        word_bytes(a) == word_bytes(b),
    ensures
        a == b,
{
    assert forall|k: int| 0 <= k < 4 implies a[k] == b[k] by {
        assert forall|j: int| 0 <= j < 8 implies u64_le_bytes(a[k])[j] == u64_le_bytes(
            b[k],
        )[j] by {
            assert(word_bytes(a)[8 * k + j] == u64_le_bytes(a[k])[j]);
            assert(word_bytes(b)[8 * k + j] == u64_le_bytes(b[k])[j]);
        }
        assert(u64_le_bytes(a[k]) =~= u64_le_bytes(b[k]));
        lemma_u64_le_bytes_injective(a[k], b[k]);
    }
    assert(a =~= b);
}

} // verus!
