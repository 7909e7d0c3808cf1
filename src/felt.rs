//! Field elements held as their canonical 32-byte big-endian encoding.

use vstd::prelude::*;

verus! {

/// The prime that the field is taken over: 2^251 + 17 * 2^192 + 1.
pub open spec fn modulus() -> nat {
    8 * pow256(31) + 17 * pow256(24) + 1
}

pub open spec fn pow256(n: nat) -> nat
    decreases n,
{
    if n == 0 {
        1
    } else {
        256 * pow256((n - 1) as nat)
    }
}

/// The unsigned integer that a big-endian byte sequence encodes.
pub open spec fn be_nat(s: Seq<u8>) -> nat
    decreases s.len(),
{
    if s.len() == 0 {
        0
    } else {
        s[0] as nat * pow256((s.len() - 1) as nat) + be_nat(s.subrange(1, s.len() as int))
    }
}

/// The `len` bytes that encode `n` in big-endian order.
pub open spec fn be_bytes(n: nat, len: nat) -> Seq<u8> {
    Seq::new(len, |i: int| ((n / pow256((len - 1 - i) as nat)) % 256) as u8)
}

/// An element of the field, as the 32 bytes of its big-endian encoding.
#[derive(Clone, Copy, Debug, PartialEq, Eq)]
pub struct Felt {
    pub bytes: [u8; 32],
}

impl View for Felt {
    type V = Seq<u8>;

    open spec fn view(&self) -> Seq<u8> {
        self.bytes@
    }
}

impl Felt {
    /// The integer that the element stands for.
    pub open spec fn value(&self) -> nat {
        be_nat(self@)
    }

    /// The encoding is canonical: the integer lies below the modulus.
    pub open spec fn wf(&self) -> bool {
        self.value() < modulus()
    }

    /// Whether `self` is smaller than `other` as unsigned integers.
    pub fn lt(&self, other: &Felt) -> (r: bool)
        ensures
            r == (self.value() < other.value()),
    {
        let mut i: usize = 0;
        while i < 32
            invariant
                0 <= i <= 32,
                self@.len() == 32,
                other@.len() == 32,
                forall|j: int| 0 <= j < i ==> self@[j] == other@[j],
            decreases 32 - i,
        {
            if self.bytes[i] != other.bytes[i] {
                proof {
                    if self@[i as int] < other@[i as int] {
                        lemma_first_difference(self@, other@, i as int);
                    } else {
                        lemma_first_difference(other@, self@, i as int);
                    }
                }
                return self.bytes[i] < other.bytes[i];
            }
            i += 1;
        }
        proof {
            assert(self@ =~= other@);
        }
        false
    }
}

/// A big-endian number of `s.len()` bytes is below `256^len`.
pub proof fn lemma_be_nat_bound(s: Seq<u8>)
    ensures
        be_nat(s) < pow256(s.len()),
    decreases s.len(),
{
    if s.len() > 0 {
        let rest = s.subrange(1, s.len() as int);
        lemma_be_nat_bound(rest);
        let p = pow256((s.len() - 1) as nat);
        let r = be_nat(rest);
        let d = s[0] as nat;
        assert(d * p + r < 256 * p) by (nonlinear_arith)
            requires
                d < 256,
                r < p,
        ;
    }
}

/// Two byte sequences of one length that agree up to `i` and differ there
/// compare as their bytes at `i` do.
pub proof fn lemma_first_difference(s: Seq<u8>, t: Seq<u8>, i: int)
    requires
        s.len() == t.len(),
        0 <= i < s.len(),
        forall|j: int| 0 <= j < i ==> s[j] == t[j],
        s[i] < t[i],
    ensures
        be_nat(s) < be_nat(t),
    decreases i,
{
    let rs = s.subrange(1, s.len() as int);
    let rt = t.subrange(1, t.len() as int);
    let p = pow256((s.len() - 1) as nat);
    if i == 0 {
        lemma_be_nat_bound(rs);
        let a = s[0] as nat;
        let b = t[0] as nat;
        let x = be_nat(rs);
        let y = be_nat(rt);
        assert(a * p + x < b * p + y) by (nonlinear_arith)
            requires
                a < b,
                x < p,
        ;
    } else {
        assert forall|j: int| 0 <= j < i - 1 implies rs[j] == rt[j] by {
            assert(s[j + 1] == t[j + 1]);
        }
        lemma_first_difference(rs, rt, i - 1);
        assert(s[0] == t[0]);
    }
}

} // verus!
