//! Unsigned 256-bit values: token amounts and XOR distances.

use vstd::prelude::*;

verus! {

/// 2 to the power of 128.
pub open spec fn two128() -> nat {
    0x1_0000_0000_0000_0000_0000_0000_0000_0000nat
}

/// 256 to the power of `n`.
pub open spec fn pow256(n: nat) -> nat
    decreases n,
{
    if n == 0 {
        1
    } else {
        pow256((n - 1) as nat) * 256
    }
}

/// The number that `bytes` spells in base 256, most significant byte first.
pub open spec fn be_value(bytes: Seq<u8>) -> nat
    decreases bytes.len(),
{
    if bytes.len() == 0 {
        0
    } else {
        be_value(bytes.drop_last()) * 256 + bytes.last() as nat
    }
}

/// An unsigned integer of 256 bits, in two halves.
#[derive(Clone, Copy, Debug, PartialEq, Eq, Structural)]
pub struct U256 {
    pub hi: u128,
    pub lo: u128,
}

/// A token amount in atto units.
pub type Amount = U256;

impl U256 {
    /// The number that the two halves spell.
    pub open spec fn value(self) -> nat {
        (self.hi as nat) * two128() + self.lo as nat
    }

    /// Zero.
    pub fn zero() -> (r: U256)
        ensures
            r.value() == 0,
            r == (U256 { hi: 0, lo: 0 }),
    {
        U256 { hi: 0, lo: 0 }
    }

    /// A value that fits one half.
    pub fn from_u128(v: u128) -> (r: U256)
        ensures
            r.value() == v,
    {
        U256 { hi: 0, lo: v }
    }

    pub fn is_zero(&self) -> (r: bool)
        ensures
            r == (self.value() == 0),
    {
        self.hi == 0 && self.lo == 0
    }

    pub fn less_than(&self, other: &U256) -> (r: bool)
        ensures
            r == (self.value() < other.value()),
    {
        self.hi < other.hi || (self.hi == other.hi && self.lo < other.lo)
    }

    /// The sum, modulo 2 to the power of 256.
    pub fn wrapping_sum(&self, other: &U256) -> (r: U256)
        ensures
            r.value() == (self.value() + other.value()) % (two128() * two128()),
    {
        let lo: u128 = self.lo.wrapping_add(other.lo);
        let carry: u128 = if lo < self.lo {
            1
        } else {
            0
        };
        let partial: u128 = self.hi.wrapping_add(other.hi);
        let hi: u128 = partial.wrapping_add(carry);
        let r = U256 { hi, lo };
        proof {
            let total = self.value() + other.value();
            let wide = self.hi as nat + other.hi as nat + carry as nat;
            assert(total == wide * two128() + lo as nat);
            if wide >= two128() {
                assert(hi as nat == wide - two128());
                assert(total - two128() * two128() == r.value());
            } else {
                assert(hi as nat == wide);
                assert(total == r.value());
            }
            vstd::arithmetic::div_mod::lemma_fundamental_div_mod_converse(
                total as int,
                (two128() * two128()) as int,
                if wide >= two128() {
                    1int
                } else {
                    0int
                },
                r.value() as int,
            );
        }
        r
    }

    /// The product with `n`, modulo 2 to the power of 256.
    pub fn wrapping_times(&self, n: u64) -> (r: U256)
        ensures
            r.value() == (self.value() * n as nat) % (two128() * two128()),
    {
        let ghost modulus: int = (two128() * two128()) as int;
        let mut acc = U256::zero();
        let mut base: U256 = *self;
        let mut rest: u64 = n;
        while rest > 0
            invariant
                modulus == two128() * two128(),
                (acc.value() + base.value() * rest as nat) as int % modulus == (self.value()
                    * n as nat) as int % modulus,
            decreases rest,
        {
            let ghost a = acc.value() as int;
            let ghost b = base.value() as int;
            let odd = rest % 2 == 1;
            let half: u64 = rest / 2;
            if odd {
                acc = acc.wrapping_sum(&base);
            }
            base = base.wrapping_sum(&base);
            proof {
                let bit: int = if odd {
                    1
                } else {
                    0
                };
                let a2: int = a + bit * b;
                assert(bit * b == (if odd { b } else { 0 })) by (nonlinear_arith)
                    requires
                        bit == (if odd { 1int } else { 0int }),
                ;
                vstd::arithmetic::div_mod::lemma_small_mod(a as nat, modulus as nat);
                assert(acc.value() as int == a2 % modulus);
                assert(base.value() as int == (2 * b) % modulus);
                assert(a + b * rest == a2 + (2 * b) * half) by (nonlinear_arith)
                    requires
                        rest == 2 * half + bit,
                        a2 == a + bit * b,
                ;
                lemma_mod_linear(a2, 2 * b, half as int, modulus);
            }
            rest = half;
        }
        proof {
            assert(base.value() * 0nat == 0) by (nonlinear_arith);
            vstd::arithmetic::div_mod::lemma_small_mod(acc.value(), two128() * two128());
        }
        acc
    }

    /// The value in 32 bytes, most significant byte first.
    pub fn to_be_bytes(&self) -> (r: [u8; 32])
        ensures
            be_value(r@) == self.value(),
    {
        let mut out: [u8; 32] = [0u8; 32];
        put_half(&mut out, 0, self.hi);
        let ghost top = out@.subrange(0, 16);
        put_half(&mut out, 16, self.lo);
        proof {
            assert(out@.subrange(0, 16) =~= top);
            assert(out@.subrange(0, 16) + out@.subrange(16, 32) =~= out@);
            lemma_be_value_concat(out@.subrange(0, 16), out@.subrange(16, 32));
            lemma_pow256_16();
        }
        out
    }

    /// The number that 32 bytes spell, most significant byte first.
    pub fn from_be_bytes(bytes: &[u8; 32]) -> (r: U256)
        ensures
            r.value() == be_value(bytes@),
    {
        let hi: u128 = be_half(bytes, 0);
        let lo: u128 = be_half(bytes, 16);
        proof {
            let all = bytes@;
            assert(all.subrange(0, 16) + all.subrange(16, 32) =~= all);
            lemma_be_value_concat(all.subrange(0, 16), all.subrange(16, 32));
            lemma_pow256_16();
        }
        U256 { hi, lo }
    }
}

/// Writes `v` into the 16 bytes from `from` on.
fn put_half(out: &mut [u8; 32], from: usize, v: u128)
    requires
        from <= 16,
    ensures
        be_value(final(out)@.subrange(from as int, from + 16)) == v,
        forall|k: int|
            0 <= k < 32 && !(from <= k < from + 16) ==> final(out)@[k] == old(out)@[k],
{
    let mut rest: u128 = v;
    let mut j: usize = 0;
    let ghost end = from + 16;
    assert(out@.subrange(end, end) =~= Seq::<u8>::empty());
    assert(rest * pow256(0) == rest) by (nonlinear_arith)
        requires
            pow256(0) == 1,
    ;
    proof {
        lemma_pow256_16();
    }
    while j < 16
        invariant
            j <= 16,
            from <= 16,
            end == from + 16,
            be_value(out@.subrange(end - j, end)) + rest * pow256(j as nat) == v,
            forall|k: int| 0 <= k < 32 && !(from <= k < end) ==> out@[k] == old(out)@[k],
        decreases 16 - j,
    {
        let b: u8 = (rest % 256) as u8;
        let ghost low = out@.subrange(end - j, end);
        let ghost before = rest as int;
        out[from + 15 - j] = b;
        rest = rest / 256;
        proof {
            let head = seq![b];
            let wider = out@.subrange(end - j - 1, end);
            assert(wider =~= head + low);
            lemma_be_value_concat(head, low);
            assert(head.drop_last() =~= Seq::<u8>::empty());
            assert(be_value(head.drop_last()) == 0);
            assert(be_value(head) == b);
            let p = pow256(j as nat) as int;
            let q = rest as int;
            assert(before == q * 256 + b);
            assert(b * p + q * (p * 256) == (q * 256 + b) * p) by (nonlinear_arith);
        }
        j = j + 1;
    }
    proof {
        if rest > 0 {
            assert(rest * pow256(16) >= pow256(16)) by (nonlinear_arith)
                requires
                    rest >= 1,
            ;
            lemma_be_value_bound(out@.subrange(end - 16, end));
        }
        assert(rest == 0);
        assert(rest * pow256(16) == 0) by (nonlinear_arith)
            requires
                rest == 0,
        ;
    }
}

/// The number that the 16 bytes from `from` on spell.
fn be_half(bytes: &[u8; 32], from: usize) -> (r: u128)
    requires
        from <= 16,
    ensures
        r == be_value(bytes@.subrange(from as int, from + 16)),
{
    let mut acc: u128 = 0;
    let mut i: usize = 0;
    while i < 16
        invariant
            i <= 16,
            from <= 16,
            acc == be_value(bytes@.subrange(from as int, from + i)),
        decreases 16 - i,
    {
        proof {
            let part = bytes@.subrange(from as int, from + i);
            lemma_be_value_bound(part);
            lemma_pow256_monotonic((i + 1) as nat, 16);
            lemma_pow256_16();
            assert(bytes@.subrange(from as int, from + i + 1).drop_last() =~= part);
        }
        acc = acc * 256 + bytes[from + i] as u128;
        i = i + 1;
    }
    acc
}

/// A byte string spells less than 256 to the power of its length.
pub proof fn lemma_be_value_bound(bytes: Seq<u8>)
    ensures
        be_value(bytes) < pow256(bytes.len()),
    decreases bytes.len(),
{
    if bytes.len() > 0 {
        lemma_be_value_bound(bytes.drop_last());
    }
}

proof fn lemma_pow256_monotonic(a: nat, b: nat)
    requires
        a <= b,
    ensures
        pow256(a) <= pow256(b),
        0 < pow256(a),
    decreases b,
{
    if a < b {
        lemma_pow256_monotonic(a, (b - 1) as nat);
    } else if a > 0 {
        lemma_pow256_monotonic((a - 1) as nat, (a - 1) as nat);
    }
}

proof fn lemma_pow256_16()
    ensures
        pow256(16) == two128(),
{
    reveal_with_fuel(pow256, 17);
}

/// Concatenation shifts the left part by the length of the right part.
pub proof fn lemma_be_value_concat(a: Seq<u8>, b: Seq<u8>)
    ensures
        be_value(a + b) == be_value(a) * pow256(b.len()) + be_value(b),
    decreases b.len(),
{
    if b.len() == 0 {
        assert(a + b =~= a);
        assert(be_value(a) * pow256(0) == be_value(a)) by (nonlinear_arith)
            requires
                pow256(0) == 1,
        ;
    } else {
        assert((a + b).drop_last() =~= a + b.drop_last());
        lemma_be_value_concat(a, b.drop_last());
        let x = be_value(a);
        let p = pow256((b.len() - 1) as nat);
        assert(pow256(b.len()) == p * 256);
        assert((x * p) * 256 == x * (p * 256)) by (nonlinear_arith);
    }
}

proof fn lemma_mod_linear(a: int, b: int, k: int, modulus: int)
    requires
        modulus > 0,
    ensures
        (a % modulus + (b % modulus) * k) % modulus == (a + b * k) % modulus,
{
    vstd::arithmetic::div_mod::lemma_mul_mod_noop_left(b, k, modulus);
    vstd::arithmetic::div_mod::lemma_add_mod_noop(a, b * k, modulus);
    vstd::arithmetic::div_mod::lemma_add_mod_noop(a % modulus, (b % modulus) * k, modulus);
    vstd::arithmetic::div_mod::lemma_mod_twice(a, modulus);
}

} // verus!
