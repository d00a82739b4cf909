//! Arbitrary-precision natural numbers.
//!
//! The spam score of a text is an exact rational number whose numerator and
//! denominator are products of one factor per scored token, so they outgrow
//! any fixed-width integer.  [`BigNat`] stores such a number as little-endian
//! 64-bit limbs and supports exactly the operations the scorer needs:
//! building from a machine word, multiplying by a machine word, adding, and
//! comparing.

use vstd::prelude::*;
use vstd::arithmetic::div_mod::lemma_fundamental_div_mod;
use vstd::arithmetic::div_mod::lemma_mod_bound;
use vstd::arithmetic::mul::lemma_mul_inequality;

verus! {

/// The radix of one limb.
pub open spec fn base() -> nat {
    0x1_0000_0000_0000_0000
}

/// `base()` to the power `i`.
pub open spec fn base_pow(i: nat) -> nat
    decreases i,
{
    if i == 0 {
        1
    } else {
        base() * base_pow((i - 1) as nat)
    }
}

/// The natural number stood for by little-endian limbs.
pub open spec fn nat_of(s: Seq<u64>) -> nat
    decreases s.len(),
{
    if s.len() == 0 {
        0
    } else {
        (s[0] as nat + base() * nat_of(s.drop_first())) as nat
    }
}

/// A limb sequence is canonical when it carries no leading zero, so that
/// every natural number has exactly one canonical representation.
pub open spec fn canonical(s: Seq<u64>) -> bool {
    s.len() == 0 || s[s.len() - 1] != 0
}

/// Result of a three-way comparison.
#[derive(Clone, Copy, PartialEq, Eq, Structural, Debug)]
pub enum Rel {
    Less,
    Equal,
    Greater,
}

/// An arbitrary-precision natural number.
#[derive(Debug)]
pub struct BigNat {
    limbs: Vec<u64>,
}

pub proof fn lemma_base_pow_pos(i: nat)
    ensures
        base_pow(i) >= 1,
    decreases i,
{
    if i > 0 {
        lemma_base_pow_pos((i - 1) as nat);
    }
}

pub proof fn lemma_base_pow_mono(i: nat, j: nat)
    requires
        i <= j,
    ensures
        base_pow(i) <= base_pow(j),
    decreases j,
{
    if i < j {
        lemma_base_pow_mono(i, (j - 1) as nat);
        lemma_base_pow_pos((j - 1) as nat);
    }
}

/// Appending a limb adds its value scaled by the radix power of the old
/// length.
pub proof fn lemma_nat_of_push(s: Seq<u64>, x: u64)
    ensures
        nat_of(s.push(x)) == nat_of(s) + x * base_pow(s.len()),
    decreases s.len(),
{
    if s.len() == 0 {
        assert(s.push(x).len() == 1);
        assert(s.push(x)[0] == x);
        assert(s.push(x).drop_first() =~= Seq::<u64>::empty());
        assert(nat_of(Seq::<u64>::empty()) == 0);
        assert(nat_of(s.push(x).drop_first()) == 0);
        assert(base_pow(0) == 1);
        assert(nat_of(s.push(x)) == x as nat + base() * 0);
    } else {
        assert(s.push(x).drop_first() =~= s.drop_first().push(x));
        lemma_nat_of_push(s.drop_first(), x);
        let n = (s.len() - 1) as nat;
        assert(base() * (nat_of(s.drop_first()) + x * base_pow(n)) == base() * nat_of(
            s.drop_first(),
        ) + x * (base() * base_pow(n))) by (nonlinear_arith);
    }
}

/// A limb sequence is bounded by the radix power of its length.
pub proof fn lemma_nat_of_bound(s: Seq<u64>)
    ensures
        nat_of(s) < base_pow(s.len()),
    decreases s.len(),
{
    if s.len() > 0 {
        lemma_nat_of_bound(s.drop_first());
        let r = nat_of(s.drop_first());
        let n = (s.len() - 1) as nat;
        assert(base() * (r + 1) <= base() * base_pow(n)) by (nonlinear_arith)
            requires
                r + 1 <= base_pow(n),
        ;
    }
}

/// A non-empty limb sequence splits into its leading limb and the rest.
pub proof fn lemma_nat_of_last(s: Seq<u64>)
    requires
        s.len() > 0,
    ensures
        nat_of(s) == nat_of(s.drop_last()) + s.last() * base_pow((s.len() - 1) as nat),
{
    assert(s =~= s.drop_last().push(s.last()));
    lemma_nat_of_push(s.drop_last(), s.last());
}

/// The value of a limb sequence splits at any cut point.
pub proof fn lemma_nat_of_split(s: Seq<u64>, i: int)
    requires
        0 <= i <= s.len(),
    ensures
        nat_of(s) == nat_of(s.take(i)) + base_pow(i as nat) * nat_of(s.skip(i)),
    decreases i,
{
    if i == 0 {
        assert(s.take(0) =~= Seq::<u64>::empty());
        assert(s.skip(0) =~= s);
        assert(nat_of(Seq::<u64>::empty()) == 0);
        assert(base_pow(0) == 1);
        assert(1 * nat_of(s) == nat_of(s));
    } else {
        lemma_nat_of_split(s, i - 1);
        assert(s.take(i) =~= s.take(i - 1).push(s[i - 1]));
        lemma_nat_of_push(s.take(i - 1), s[i - 1]);
        assert(s.skip(i - 1).len() > 0);
        assert(s.skip(i - 1)[0] == s[i - 1]);
        assert(s.skip(i - 1).drop_first() =~= s.skip(i));
        let p = base_pow((i - 1) as nat);
        let rest = nat_of(s.skip(i));
        assert(nat_of(s.skip(i - 1)) == s[i - 1] as nat + base() * rest);
        assert(p * (s[i - 1] as nat + base() * rest) == s[i - 1] * p + (base() * p) * rest)
            by (nonlinear_arith);
        assert(base() * p == base_pow(i as nat));
    }
}

/// Two equally long limb sequences that agree above position `i` are ordered
/// as their limbs at `i` when those differ.
proof fn lemma_limb_orders(a: Seq<u64>, b: Seq<u64>, i: int)
    requires
        a.len() == b.len(),
        0 <= i < a.len(),
        forall|j: int| i < j < a.len() ==> a[j] == b[j],
        a[i] > b[i],
    ensures
        nat_of(a) > nat_of(b),
{
    lemma_nat_of_split(a, i);
    lemma_nat_of_split(b, i);
    assert(a.skip(i).drop_first() =~= b.skip(i).drop_first());
    let rest = nat_of(a.skip(i).drop_first());
    assert(nat_of(a.skip(i)) == a[i] as nat + base() * rest);
    assert(nat_of(b.skip(i)) == b[i] as nat + base() * rest);
    lemma_nat_of_bound(a.take(i));
    lemma_nat_of_bound(b.take(i));
    let p = base_pow(i as nat);
    assert(nat_of(a.skip(i)) >= nat_of(b.skip(i)) + 1);
    assert(p * nat_of(a.skip(i)) >= p * nat_of(b.skip(i)) + p) by (nonlinear_arith)
        requires
            nat_of(a.skip(i)) >= nat_of(b.skip(i)) + 1,
            p >= 0,
    ;
}

/// Strips leading zero limbs; the value is unchanged.
fn trim(v: Vec<u64>) -> (r: Vec<u64>)
    ensures
        nat_of(r@) == nat_of(v@),
        canonical(r@),
{
    let mut v = v;
    let ghost orig: nat = nat_of(v@);
    while v.len() > 0 && v[v.len() - 1] == 0
        invariant
            nat_of(v@) == orig,
        decreases v.len(),
    {
        proof {
            lemma_nat_of_last(v@);
        }
        let ghost pre = v@;
        v.pop();
        proof {
            assert(v@ =~= pre.drop_last());
        }
    }
    v
}

impl View for BigNat {
    type V = nat;

    closed spec fn view(&self) -> nat {
        nat_of(self.limbs@)
    }
}

impl BigNat {
    #[verifier::type_invariant]
    spec fn wf(self) -> bool {
        canonical(self.limbs@)
    }

    /// The number `x`.
    pub fn from_u64(x: u64) -> (r: Self)
        ensures
            r@ == x,
    {
        if x == 0 {
            let limbs: Vec<u64> = Vec::new();
            proof {
                assert(nat_of(limbs@) == 0);
            }
            BigNat { limbs }
        } else {
            let mut limbs: Vec<u64> = Vec::new();
            limbs.push(x);
            proof {
                assert(limbs@.len() == 1);
                assert(limbs@[0] == x);
                assert(limbs@.drop_first() =~= Seq::<u64>::empty());
                assert(nat_of(Seq::<u64>::empty()) == 0);
            }
            BigNat { limbs }
        }
    }

    /// The product of this number and a machine word.
    pub fn mul_u64(&self, f: u64) -> (r: Self)
        ensures
            r@ == self@ * f,
    {
        let n = self.limbs.len();
        let mut out: Vec<u64> = Vec::new();
        let mut carry: u64 = 0;
        let mut i: usize = 0;
        proof {
            assert(self.limbs@.take(0) =~= Seq::<u64>::empty());
            assert(nat_of(Seq::<u64>::empty()) == 0);
        }
        while i < n
            invariant
                0 <= i <= n,
                n == self.limbs@.len(),
                out@.len() == i,
                nat_of(out@) + carry * base_pow(i as nat) == nat_of(self.limbs@.take(i as int))
                    * f,
            decreases n - i,
        {
            let limb: u64 = self.limbs[i];
            proof {
                assert((limb as int) * (f as int) + (carry as int) < 0x1_0000_0000_0000_0000_0000_0000_0000_0000int)
                    by (nonlinear_arith)
                    requires
                        limb < 0x1_0000_0000_0000_0000,
                        f < 0x1_0000_0000_0000_0000,
                        carry < 0x1_0000_0000_0000_0000,
                ;
            }
            let prod: u128 = (limb as u128) * (f as u128) + (carry as u128);
            let lo: u64 = (prod % 0x1_0000_0000_0000_0000u128) as u64;
            let hi: u64 = (prod / 0x1_0000_0000_0000_0000u128) as u64;
            proof {
                lemma_fundamental_div_mod(prod as int, base() as int);
                lemma_mod_bound(prod as int, base() as int);
                let bq = base() as int;
                let q = prod as int / bq;
                let m = prod as int % bq;
                assert(q < bq) by (nonlinear_arith)
                    requires
                        prod < 0x1_0000_0000_0000_0000_0000_0000_0000_0000int,
                        prod as int == bq * q + m,
                        bq == 0x1_0000_0000_0000_0000int,
                        0 <= m,
                ;
                assert(lo == m);
                assert(hi == q);
                assert(limb as int * f + carry == lo + base() * hi);
                lemma_nat_of_push(out@, lo);
                assert(self.limbs@.take(i as int + 1) =~= self.limbs@.take(i as int).push(limb));
                lemma_nat_of_push(self.limbs@.take(i as int), limb);
                let pv = nat_of(self.limbs@.take(i as int)) as int;
                let ov = nat_of(out@) as int;
                let p = base_pow(i as nat) as int;
                let b = base() as int;
                // prod == lo + base * hi, so advancing one limb keeps the sum.
                assert((pv + limb * p) * f == pv * f + (limb * (f as int)) * p) by (nonlinear_arith);
                assert((limb * (f as int)) * p == (lo + b * hi - carry) * p) by (nonlinear_arith)
                    requires
                        limb as int * f == lo + b * hi - carry,
                ;
                assert((lo + b * hi - carry) * p == lo * p + hi * (b * p) - carry * p)
                    by (nonlinear_arith);
                assert(ov + carry * p == pv * f);
                assert(b * p == base_pow((i + 1) as nat));
                assert(ov + lo * p + hi * base_pow((i + 1) as nat) == nat_of(
                    self.limbs@.take(i as int + 1),
                ) * f);
            }
            out.push(lo);
            carry = hi;
            i = i + 1;
        }
        proof {
            assert(self.limbs@.take(n as int) =~= self.limbs@);
        }
        if carry > 0 {
            proof {
                lemma_nat_of_push(out@, carry);
            }
            out.push(carry);
        }
        let limbs = trim(out);
        BigNat { limbs }
    }

    /// The sum of this number and another.
    pub fn add(&self, other: &Self) -> (r: Self)
        ensures
            r@ == self@ + other@,
    {
        let a = &self.limbs;
        let b = &other.limbs;
        let alen = a.len();
        let blen = b.len();
        let n = if alen < blen {
            blen
        } else {
            alen
        };
        let mut out: Vec<u64> = Vec::new();
        let mut carry: u64 = 0;
        let mut i: usize = 0;
        proof {
            assert(a@.take(0) =~= Seq::<u64>::empty());
            assert(b@.take(0) =~= Seq::<u64>::empty());
            assert(nat_of(Seq::<u64>::empty()) == 0);
        }
        while i < n
            invariant
                0 <= i <= n,
                alen == a@.len(),
                blen == b@.len(),
                alen <= n,
                blen <= n,
                out@.len() == i,
                carry <= 1,
                nat_of(out@) + carry * base_pow(i as nat) == prefix_val(a@, i as int) + prefix_val(
                    b@,
                    i as int,
                ),
            decreases n - i,
        {
            let ai: u64 = if i < alen {
                a[i]
            } else {
                0
            };
            let bi: u64 = if i < blen {
                b[i]
            } else {
                0
            };
            let sum: u128 = (ai as u128) + (bi as u128) + (carry as u128);
            let lo: u64 = (sum % 0x1_0000_0000_0000_0000u128) as u64;
            let hi: u64 = (sum / 0x1_0000_0000_0000_0000u128) as u64;
            proof {
                lemma_fundamental_div_mod(sum as int, base() as int);
                lemma_mod_bound(sum as int, base() as int);
                assert(sum < 2 * base());
                if sum as int / base() as int >= 2 {
                    assert(sum >= base() * 2 + sum as int % base() as int);
                }
                assert(0 <= sum as int / base() as int <= 1);
                assert(lo == sum as int % base() as int);
                assert(hi == sum as int / base() as int);
                assert(ai as int + bi + carry == lo + base() * hi);
                lemma_nat_of_push(out@, lo);
                lemma_prefix_val_step(a@, i as int);
                lemma_prefix_val_step(b@, i as int);
                let p = base_pow(i as nat) as int;
                let bs = base() as int;
                assert((ai as int + bi + carry) * p == ai * p + bi * p + carry * p)
                    by (nonlinear_arith);
                assert((lo + bs * hi) * p == lo * p + hi * (bs * p)) by (nonlinear_arith);
                assert(bs * p == base_pow((i + 1) as nat));
                assert(nat_of(out@) + lo * p + hi * base_pow((i + 1) as nat) == prefix_val(
                    a@,
                    i as int + 1,
                ) + prefix_val(b@, i as int + 1));
            }
            out.push(lo);
            carry = hi;
            i = i + 1;
        }
        proof {
            assert(a@.take(alen as int) =~= a@);
            assert(b@.take(blen as int) =~= b@);
            assert(prefix_val(a@, n as int) == nat_of(a@));
            assert(prefix_val(b@, n as int) == nat_of(b@));
        }
        if carry > 0 {
            proof {
                lemma_nat_of_push(out@, carry);
            }
            out.push(carry);
        }
        let limbs = trim(out);
        BigNat { limbs }
    }

    /// Three-way comparison of the stood-for numbers.
    pub fn cmp(&self, other: &Self) -> (r: Rel)
        ensures
            (r == Rel::Less <==> self@ < other@),
            (r == Rel::Equal <==> self@ == other@),
            (r == Rel::Greater <==> self@ > other@),
    {
        proof {
            use_type_invariant(self);
            use_type_invariant(other);
        }
        let a = &self.limbs;
        let b = &other.limbs;
        if a.len() < b.len() {
            proof {
                lemma_shorter_is_smaller(a@, b@);
            }
            return Rel::Less;
        }
        if b.len() < a.len() {
            proof {
                lemma_shorter_is_smaller(b@, a@);
            }
            return Rel::Greater;
        }
        let n = a.len();
        let mut i: usize = n;
        while i > 0
            invariant
                0 <= i <= n,
                n == a@.len(),
                n == b@.len(),
                a@ == self.limbs@,
                b@ == other.limbs@,
                forall|j: int| i <= j < n ==> a@[j] == b@[j],
            decreases i,
        {
            i = i - 1;
            let ai: u64 = a[i];
            let bi: u64 = b[i];
            if ai > bi {
                proof {
                    lemma_limb_orders(a@, b@, i as int);
                }
                return Rel::Greater;
            }
            if ai < bi {
                proof {
                    lemma_limb_orders(b@, a@, i as int);
                }
                return Rel::Less;
            }
        }
        proof {
            assert(a@ =~= b@);
        }
        Rel::Equal
    }
}

/// The value of the first `i` limbs, or of the whole sequence when it is
/// shorter than `i`.
pub open spec fn prefix_val(s: Seq<u64>, i: int) -> nat {
    if i <= s.len() {
        nat_of(s.take(i))
    } else {
        nat_of(s)
    }
}

proof fn lemma_prefix_val_step(s: Seq<u64>, i: int)
    requires
        0 <= i,
    ensures
        prefix_val(s, i + 1) == prefix_val(s, i) + (if i < s.len() {
            s[i] as nat
        } else {
            0
        }) * base_pow(i as nat),
{
    if i < s.len() {
        assert(s.take(i + 1) =~= s.take(i).push(s[i]));
        lemma_nat_of_push(s.take(i), s[i]);
    } else if i == s.len() {
        assert(s.take(i) =~= s);
        assert(0 * base_pow(i as nat) == 0);
    } else {
        assert(0 * base_pow(i as nat) == 0);
    }
}

/// A canonical limb sequence strictly shorter than another canonical one
/// stands for a strictly smaller number.
proof fn lemma_shorter_is_smaller(a: Seq<u64>, b: Seq<u64>)
    requires
        canonical(a),
        canonical(b),
        a.len() < b.len(),
    ensures
        nat_of(a) < nat_of(b),
{
    lemma_nat_of_bound(a);
    lemma_nat_of_last(b);
    lemma_base_pow_pos((b.len() - 1) as nat);
    lemma_mul_inequality(1, b.last() as int, base_pow((b.len() - 1) as nat) as int);
    assert(1 * base_pow((b.len() - 1) as nat) == base_pow((b.len() - 1) as nat));
    lemma_base_pow_mono(a.len(), (b.len() - 1) as nat);
}

} // verus!
