//! Field elements of the Stark prime field, held as 32 big-endian bytes, and
//! the hash functions over them.

use vstd::prelude::*;
use vstd::arithmetic::power2::{lemma2_to64, lemma_pow2_adds, lemma_pow2_strictly_increases, pow2};

verus! {

broadcast use vstd::array::group_array_axioms;

/// The Stark field prime, `2^251 + 17 * 2^192 + 1`.
pub open spec fn field_prime() -> nat {
    pow2(251) + 17 * pow2(192) + 1
}

/// The number that a byte string denotes when read big-endian.
pub open spec fn be_value(b: Seq<u8>) -> nat
    decreases b.len(),
{
    if b.len() == 0 {
        0
    } else {
        be_value(b.drop_last()) * 256 + b.last() as nat
    }
}

/// Whether 32 big-endian bytes denote an element of the field.
pub open spec fn in_field(b: Seq<u8>) -> bool {
    b.len() == 32 && be_value(b) < field_prime()
}

/// The Pedersen hash of two field elements, as starknet-crypto computes it.
pub uninterp spec fn pedersen_of(a: Seq<u8>, b: Seq<u8>) -> Seq<u8>;

/// The Poseidon hash of two field elements, as starknet-crypto computes it.
pub uninterp spec fn poseidon_pair_of(a: Seq<u8>, b: Seq<u8>) -> Seq<u8>;

/// The Poseidon hash of a sequence of field elements, as starknet-crypto
/// computes it.
pub uninterp spec fn poseidon_many_of(s: Seq<Seq<u8>>) -> Seq<u8>;

/// A field element: its 32 big-endian bytes, always below the field prime.
#[derive(Clone, Copy, Debug)]
pub struct Felt {
    bytes: [u8; 32],
}

impl Felt {
    /// The bytes always denote an element of the field.
    #[verifier::type_invariant]
    spec fn canonical(&self) -> bool {
        be_value(self.bytes@) < field_prime()
    }
}

impl View for Felt {
    type V = Seq<u8>;

    closed spec fn view(&self) -> Seq<u8> {
        self.bytes@
    }
}

impl PartialEq for Felt {
    fn eq(&self, o: &Felt) -> (r: bool) {
        felt_eq(self, o)
    }
}

impl vstd::std_specs::cmp::PartialEqSpecImpl for Felt {
    open spec fn obeys_eq_spec() -> bool {
        true
    }

    open spec fn eq_spec(&self, o: &Felt) -> bool {
        self@ == o@
    }
}

impl Eq for Felt {
}

/// Whether two field elements are equal.
pub fn felt_eq(a: &Felt, b: &Felt) -> (r: bool)
    ensures
        r == (a@ == b@),
{
    let mut i: usize = 0;
    while i < 32
        invariant
            0 <= i <= 32,
            a@.len() == 32,
            b@.len() == 32,
            forall|j: int| 0 <= j < i ==> a@[j] == b@[j],
        decreases 32 - i,
    {
        if a.bytes[i] != b.bytes[i] {
            return false;
        }
        i += 1;
    }
    assert(a@ =~= b@);
    true
}

impl Felt {
    /// The field element zero.
    pub fn zero() -> (r: Felt)
        ensures
            r@ == zero_bytes(),
    {
        proof {
            lemma_be_value_zeros(32);
            lemma_pow2_strictly_increases(8, 251);
        }
        let bytes = [0u8; 32];
        assert(bytes@ =~= zero_bytes());
        Felt { bytes }
    }

    /// Whether this is the field element zero.
    pub fn is_zero(&self) -> (r: bool)
        ensures
            r == (self@ == zero_bytes()),
    {
        let z = Felt::zero();
        felt_eq(self, &z)
    }

    /// The element whose big-endian bytes are `bytes`, or `None` where they
    /// denote a number at or above the field prime.
    pub fn from_bytes_be(bytes: [u8; 32]) -> (r: Option<Felt>)
        ensures
            r.is_some() == in_field(bytes@),
            r matches Some(f) ==> f@ == bytes@,
    {
        if field_accepts(&bytes) {
            Some(Felt { bytes })
        } else {
            None
        }
    }

    /// The element whose big-endian bytes are `bytes`, which start with a
    /// zero byte and so always denote one.
    pub fn from_bytes_with_leading_zero(bytes: [u8; 32]) -> (r: Felt)
        requires
            bytes[0] == 0,
        ensures
            r@ == bytes@,
    {
        proof {
            lemma_leading_zero_in_field(bytes@);
        }
        Felt { bytes }
    }

    /// The element's 32 big-endian bytes.
    pub fn to_bytes_be(&self) -> (r: [u8; 32])
        ensures
            r@ == self@,
    {
        self.bytes
    }

    /// The bytes of the element as a vector.
    pub fn to_vec(&self) -> (r: Vec<u8>)
        ensures
            r@ == self@,
    {
        let mut v: Vec<u8> = Vec::new();
        let mut i: usize = 0;
        while i < 32
            invariant
                0 <= i <= 32,
                self@.len() == 32,
                v@ == self@.subrange(0, i as int),
            decreases 32 - i,
        {
            v.push(self.bytes[i]);
            i += 1;
            assert(v@ =~= self@.subrange(0, i as int));
        }
        assert(self@.subrange(0, 32) =~= self@);
        v
    }

    /// The element whose value is `n`.
    pub fn from_u8(n: u8) -> (r: Felt)
        ensures
            be_value(r@) == n as nat,
            r@ == Seq::new(31, |i: int| 0u8).push(n),
    {
        let mut bytes = [0u8; 32];
        bytes[31] = n;
        assert(bytes@ =~= Seq::new(31, |i: int| 0u8).push(n));
        proof {
            lemma_be_value_zeros(31);
            assert(bytes@.drop_last() =~= Seq::new(31, |i: int| 0u8));
            lemma2_to64();
            lemma_pow2_strictly_increases(8, 251);
            assert(be_value(bytes@) == n as nat);
        }
        Felt { bytes }
    }

}

/// The 32 bytes of the field element zero.
pub open spec fn zero_bytes() -> Seq<u8> {
    Seq::new(32, |i: int| 0u8)
}

/// `be_value` of a run of zero bytes is zero.
pub proof fn lemma_be_value_zeros(n: nat)
    ensures
        be_value(Seq::new(n, |i: int| 0u8)) == 0,
    decreases n,
{
    if n > 0 {
        assert(Seq::new(n, |i: int| 0u8).drop_last() =~= Seq::new((n - 1) as nat, |i: int| 0u8));
        lemma_be_value_zeros((n - 1) as nat);
    }
}

/// Relies on starknet_ff::FieldElement::from_bytes_be, which accepts exactly
/// the byte arrays that denote a number below the field prime.
#[verifier::external_body]
fn field_accepts(bytes: &[u8; 32]) -> (r: bool)
    ensures
        r == in_field(bytes@),
{
    starknet_ff::FieldElement::from_bytes_be(bytes).is_ok()
}

/// Relies on starknet_crypto::pedersen_hash: a field element that depends on
/// its two arguments alone.
#[verifier::external_body]
fn ff_pedersen(a: &Felt, b: &Felt) -> (r: Felt)
    requires
        in_field(a@),
        in_field(b@),
    ensures
        r@ == pedersen_of(a@, b@),
        in_field(r@),
{
    let x = starknet_ff::FieldElement::from_bytes_be(&a.bytes).unwrap();
    let y = starknet_ff::FieldElement::from_bytes_be(&b.bytes).unwrap();
    Felt { bytes: starknet_crypto::pedersen_hash(&x, &y).to_bytes_be() }
}

/// Relies on starknet_crypto::poseidon_hash: a field element that depends on
/// its two arguments alone.
#[verifier::external_body]
fn ff_poseidon_pair(a: &Felt, b: &Felt) -> (r: Felt)
    requires
        in_field(a@),
        in_field(b@),
    ensures
        r@ == poseidon_pair_of(a@, b@),
        in_field(r@),
{
    let x = starknet_ff::FieldElement::from_bytes_be(&a.bytes).unwrap();
    let y = starknet_ff::FieldElement::from_bytes_be(&b.bytes).unwrap();
    Felt { bytes: starknet_crypto::poseidon_hash(x, y).to_bytes_be() }
}

/// The views of a sequence of field elements.
pub open spec fn felt_views(s: Seq<Felt>) -> Seq<Seq<u8>> {
    s.map_values(|f: Felt| f@)
}

/// Relies on starknet_crypto::poseidon_hash_many: a field element that depends
/// on the sequence of its arguments alone.
#[verifier::external_body]
fn ff_poseidon_many(s: &Vec<Felt>) -> (r: Felt)
    requires
        forall|i: int| 0 <= i < s@.len() ==> in_field(#[trigger] s@[i]@),
    ensures
        r@ == poseidon_many_of(felt_views(s@)),
        in_field(r@),
{
    let v: Vec<starknet_ff::FieldElement> =
        s.iter().map(|f| starknet_ff::FieldElement::from_bytes_be(&f.bytes).unwrap()).collect();
    Felt { bytes: starknet_crypto::poseidon_hash_many(&v).to_bytes_be() }
}

/// The Pedersen hash of `a` and `b`.
pub fn pedersen(a: &Felt, b: &Felt) -> (r: Felt)
    ensures
        r@ == pedersen_of(a@, b@),
{
    proof {
        use_type_invariant(a);
        use_type_invariant(b);
    }
    ff_pedersen(a, b)
}

/// The Poseidon hash of `a` and `b`.
pub fn poseidon_pair(a: &Felt, b: &Felt) -> (r: Felt)
    ensures
        r@ == poseidon_pair_of(a@, b@),
{
    proof {
        use_type_invariant(a);
        use_type_invariant(b);
    }
    ff_poseidon_pair(a, b)
}

/// The Poseidon hash of the sequence `s`.
pub fn poseidon_many(s: &Vec<Felt>) -> (r: Felt)
    ensures
        r@ == poseidon_many_of(felt_views(s@)),
{
    let mut i: usize = 0;
    while i < s.len()
        invariant
            0 <= i <= s@.len(),
            forall|j: int| 0 <= j < i ==> in_field(#[trigger] s@[j]@),
        decreases s@.len() - i,
    {
        let f = &s[i];
        proof {
            use_type_invariant(f);
        }
        i += 1;
    }
    ff_poseidon_many(s)
}

/// A byte string of length `n` denotes a number below `2^(8n)`.
pub proof fn lemma_be_value_bound(t: Seq<u8>)
    ensures
        be_value(t) < pow2(8 * t.len()),
    decreases t.len(),
{
    if t.len() == 0 {
        lemma2_to64();
    } else {
        let n = t.len();
        lemma_be_value_bound(t.drop_last());
        lemma_pow2_adds((8 * (n - 1)) as nat, 8);
        lemma2_to64();
        let p = pow2((8 * (n - 1)) as nat);
        let v = be_value(t.drop_last());
        assert(v * 256 + (t.last() as nat) < p * 256) by (nonlinear_arith)
            requires
                v < p,
                t.last() < 256,
        ;
    }
}

/// A leading zero byte does not change the number denoted.
pub proof fn lemma_be_value_leading_zero(t: Seq<u8>)
    ensures
        be_value(seq![0u8] + t) == be_value(t),
    decreases t.len(),
{
    let z = seq![0u8] + t;
    if t.len() == 0 {
        assert(z.drop_last() =~= Seq::<u8>::empty());
        assert(z.last() == 0);
        assert(be_value(Seq::<u8>::empty()) == 0);
    } else {
        assert(z.drop_last() =~= seq![0u8] + t.drop_last());
        assert(z.last() == t.last());
        lemma_be_value_leading_zero(t.drop_last());
    }
}

/// 32 bytes with a leading zero denote an element of the field.
pub proof fn lemma_leading_zero_in_field(b: Seq<u8>)
    requires
        b.len() == 32,
        b[0] == 0,
    ensures
        in_field(b),
{
    let t = b.subrange(1, 32);
    assert(b =~= seq![0u8] + t);
    lemma_be_value_leading_zero(t);
    lemma_be_value_bound(t);
    lemma_pow2_strictly_increases(248, 251);
}

} // verus!
