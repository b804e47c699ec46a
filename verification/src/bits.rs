//! MSB-first bit streams: the readers and writers that the symbol codec
//! serializes to, together with the mathematical model of a bit sequence.

use vstd::prelude::*;
use vstd::arithmetic::power2::{pow2, lemma_pow2_unfold, lemma_pow2_pos, lemma2_to64};
use vstd::arithmetic::div_mod::lemma_fundamental_div_mod_converse;

verus! {

/// The value of a bit sequence read most-significant bit first.
pub open spec fn bits_value(s: Seq<bool>) -> nat
    decreases s.len(),
{
    if s.len() == 0 {
        0
    } else {
        2 * bits_value(s.drop_last()) + (if s.last() { 1nat } else { 0nat })
    }
}

/// The `w`-bit MSB-first representation of `p` (meaningful when `p < 2^w`).
pub open spec fn bits_of(p: nat, w: nat) -> Seq<bool>
    decreases w,
{
    if w == 0 {
        Seq::empty()
    } else {
        bits_of(p / 2, (w - 1) as nat).push(p % 2 == 1)
    }
}

pub proof fn lemma_bits_of_len(p: nat, w: nat)
    ensures
        bits_of(p, w).len() == w,
    decreases w,
{
    if w > 0 {
        lemma_bits_of_len(p / 2, (w - 1) as nat);
    }
}

/// Reading back the `w`-bit representation of `p` yields `p`.
pub proof fn lemma_bits_value_of(p: nat, w: nat)
    requires
        p < pow2(w),
    ensures
        bits_value(bits_of(p, w)) == p,
    decreases w,
{
    if w == 0 {
        assert(pow2(0) == 1) by {
            lemma2_to64();
        }
    } else {
        lemma_pow2_unfold(w);
        lemma_bits_value_of(p / 2, (w - 1) as nat);
        lemma_bits_of_len(p / 2, (w - 1) as nat);
        let inner = bits_of(p / 2, (w - 1) as nat);
        assert(inner.push(p % 2 == 1).drop_last() =~= inner);
    }
}

/// Each bit of the representation, by index: bit `i` (MSB first) is the
/// parity of `p / 2^(w-1-i)`.
pub proof fn lemma_bits_of_index(p: nat, w: nat, i: int)
    requires
        0 <= i < w,
    ensures
        bits_of(p, w)[i] == ((p / pow2((w - 1 - i) as nat)) % 2 == 1),
    decreases w,
{
    lemma_bits_of_len(p / 2, (w - 1) as nat);
    if i == w - 1 {
        assert(pow2(0) == 1) by {
            lemma2_to64();
        }
        assert(p / 1 == p);
        assert(bits_of(p, w)[i] == (p % 2 == 1));
    } else {
        lemma_bits_of_index(p / 2, (w - 1) as nat, i);
        let e = (w - 2 - i) as nat;
        lemma_pow2_unfold((e + 1) as nat);
        assert((p / 2) / pow2(e) == p / pow2((e + 1) as nat)) by {
            lemma_pow2_pos(e);
            vstd::arithmetic::div_mod::lemma_div_denominator(p as int, 2, pow2(e) as int);
        }
    }
}

/// Concatenation of bit fields: the representation of `a * 2^w2 + b` splits
/// into the representation of `a` followed by that of `b`.
pub proof fn lemma_bits_of_split(a: nat, b: nat, w1: nat, w2: nat)
    requires
        b < pow2(w2),
    ensures
        bits_of(a * pow2(w2) + b, w1 + w2) == bits_of(a, w1) + bits_of(b, w2),
    decreases w2,
{
    if w2 == 0 {
        assert(pow2(0) == 1) by {
            lemma2_to64();
        }
        assert(a * 1 == a);
        assert(bits_of(a, w1) + bits_of(b, 0) =~= bits_of(a, w1));
    } else {
        lemma_pow2_unfold(w2);
        let p = a * pow2(w2) + b;
        let half = a * pow2((w2 - 1) as nat) + b / 2;
        assert(p == half * 2 + b % 2) by {
            assert(a * pow2(w2) == (a * pow2((w2 - 1) as nat)) * 2) by (nonlinear_arith)
                requires
                    pow2(w2) == 2 * pow2((w2 - 1) as nat),
            ;
        }
        lemma_fundamental_div_mod_converse(p as int, 2, half as int, (b % 2) as int);
        assert(p / 2 == half && p % 2 == b % 2);
        lemma_bits_of_split(a, b / 2, w1, (w2 - 1) as nat);
        let x = bits_of(a, w1);
        let y = bits_of(b / 2, (w2 - 1) as nat);
        assert((x + y).push(b % 2 == 1) =~= x + y.push(b % 2 == 1));
        assert(bits_of(b, w2) == y.push(b % 2 == 1));
    }
}

/// A bit value is bounded by the width of the sequence it was read from.
pub proof fn lemma_bits_value_bound(s: Seq<bool>)
    ensures
        bits_value(s) < pow2(s.len()),
    decreases s.len(),
{
    if s.len() == 0 {
        assert(pow2(0) == 1) by {
            lemma2_to64();
        }
    } else {
        lemma_bits_value_bound(s.drop_last());
        lemma_pow2_unfold(s.len());
    }
}

/// `2^k` as an executable value.
pub fn pow2_exec(k: usize) -> (r: usize)
    requires
        k <= 31,
    ensures
        r as nat == pow2(k as nat),
{
    proof {
        lemma2_to64();
    }
    let mut r: usize = 1;
    let mut i: usize = 0;
    while i < k
        invariant
            i <= k <= 31,
            r as nat == pow2(i as nat),
        decreases k - i,
    {
        proof {
            lemma2_to64();
            lemma_pow2_unfold((i + 1) as nat);
            if i + 1 < 31 {
                vstd::arithmetic::power2::lemma_pow2_strictly_increases((i + 1) as nat, 31);
            }
            assert(pow2((i + 1) as nat) <= 0x80000000);
        }
        r = r * 2;
        i = i + 1;
    }
    r
}

/// An append-only MSB-first bit stream under construction.
pub struct BitWriter {
    bits: Vec<bool>,
}

impl BitWriter {
    /// The bits written so far, in order.
    pub closed spec fn bits(&self) -> Seq<bool> {
        self.bits@
    }

    pub fn new() -> (r: Self)
        ensures
            r.bits() == Seq::<bool>::empty(),
    {
        BitWriter { bits: Vec::new() }
    }

    /// Appends the `w`-bit MSB-first representation of `p`.
    pub fn push_bits(&mut self, w: usize, p: usize)
        requires
            w <= 31,
            (p as nat) < pow2(w as nat),
            old(self).bits().len() + w <= usize::MAX,
        ensures
            final(self).bits() == old(self).bits() + bits_of(p as nat, w as nat),
    {
        proof {
            lemma_bits_of_len(p as nat, w as nat);
        }
        let ghost target = bits_of(p as nat, w as nat);
        let ghost start = self.bits@;
        let mut k: usize = 0;
        while k < w
            invariant
                k <= w <= 31,
                (p as nat) < pow2(w as nat),
                target == bits_of(p as nat, w as nat),
                target.len() == w,
                self.bits@ == start + target.take(k as int),
            decreases w - k,
        {
            let d = pow2_exec(w - 1 - k);
            proof {
                lemma_pow2_pos((w - 1 - k) as nat);
                lemma_bits_of_index(p as nat, w as nat, k as int);
            }
            let bit = (p / d) % 2 == 1;
            self.bits.push(bit);
            proof {
                assert(target.take(k + 1) =~= target.take(k as int).push(target[k as int]));
            }
            k = k + 1;
        }
        proof {
            assert(target.take(w as int) =~= target);
        }
    }

    /// Hands the finished stream over, ready for a reader.
    pub fn into_bits(self) -> (r: Vec<bool>)
        ensures
            r@ == self.bits(),
    {
        self.bits
    }
}

/// An MSB-first bit stream being consumed; the position only advances.
pub struct BitReader {
    bits: Vec<bool>,
    pos: usize,
}

impl BitReader {
    pub closed spec fn wf(&self) -> bool {
        self.pos <= self.bits@.len()
    }

    /// The bits not yet consumed, in order.
    pub closed spec fn remaining(&self) -> Seq<bool> {
        self.bits@.skip(self.pos as int)
    }

    pub fn new(bits: Vec<bool>) -> (r: Self)
        ensures
            r.wf(),
            r.remaining() == bits@,
    {
        let r = BitReader { bits, pos: 0 };
        proof {
            assert(r.remaining() =~= r.bits@);
        }
        r
    }

    /// Reads the next `n` bits, MSB first.
    pub fn next(&mut self, n: usize) -> (r: usize)
        requires
            old(self).wf(),
            n <= 31,
            n <= old(self).remaining().len(),
        ensures
            final(self).wf(),
            r as nat == bits_value(old(self).remaining().take(n as int)),
            final(self).remaining() == old(self).remaining().skip(n as int),
    {
        let ghost rem = self.remaining();
        let total = self.bits.len();
        let mut acc: usize = 0;
        let mut k: usize = 0;
        proof {
            lemma2_to64();
            assert(pow2(0) == 1);
        }
        while k < n
            invariant
                k <= n <= 31,
                self.bits@ == old(self).bits@,
                self.bits@.len() == total,
                self.pos == old(self).pos + k,
                old(self).wf(),
                n <= rem.len(),
                rem == old(self).remaining(),
                acc as nat == bits_value(rem.take(k as int)),
                (acc as nat) < pow2(k as nat),
            decreases n - k,
        {
            proof {
                lemma2_to64();
                if k < 30 {
                    vstd::arithmetic::power2::lemma_pow2_strictly_increases(k as nat, 30);
                }
                assert(pow2(k as nat) <= 0x40000000);
                assert(rem[k as int] == self.bits@[self.pos as int]);
            }
            let bit = self.bits[self.pos];
            proof {
                let t = rem.take(k + 1);
                assert(t.drop_last() =~= rem.take(k as int));
                assert(t.last() == rem[k as int]);
                lemma_bits_value_bound(t);
                lemma_pow2_unfold((k + 1) as nat);
            }
            acc = acc * 2 + (if bit { 1 } else { 0 });
            self.pos = self.pos + 1;
            k = k + 1;
        }
        proof {
            assert(final(self).remaining() =~= rem.skip(n as int));
        }
        acc
    }
}

} // verus!
