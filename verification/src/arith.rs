//! Arithmetic on 32-byte big-endian numbers: the value of a byte string,
//! division and saturating multiplication by a 64-bit scalar. Difficulty
//! targets are such numbers, and retargeting scales them.

use vstd::prelude::*;

verus! {

/// The value of a byte string read as one big-endian number.
pub open spec fn be_val(s: Seq<u8>) -> nat
    decreases s.len(),
{
    if s.len() == 0 {
        0
    } else {
        (be_val(s.drop_last()) * 256 + s.last()) as nat
    }
}

/// 256 raised to the power `n`.
pub open spec fn pow256(n: nat) -> nat
    decreases n,
{
    if n == 0 {
        1
    } else {
        256 * pow256((n - 1) as nat)
    }
}

pub proof fn lemma_pow256_pos(n: nat)
    ensures
        pow256(n) >= 1,
    decreases n,
{
    if n > 0 {
        lemma_pow256_pos((n - 1) as nat);
    }
}

pub proof fn lemma_be_val_bound(s: Seq<u8>)
    ensures
        be_val(s) < pow256(s.len()),
    decreases s.len(),
{
    if s.len() == 0 {
    } else {
        let d = s.drop_last();
        lemma_be_val_bound(d);
        assert(be_val(d) * 256 <= (pow256(d.len()) - 1) * 256) by (nonlinear_arith)
            requires
                be_val(d) <= pow256(d.len()) - 1,
        ;
    }
}

/// Extending a prefix by one byte multiplies its value by 256 and adds the byte.
pub proof fn lemma_be_val_take_succ(s: Seq<u8>, i: int)
    requires
        0 <= i < s.len(),
    ensures
        be_val(s.take(i + 1)) == be_val(s.take(i)) * 256 + s[i],
{
    assert(s.take(i + 1).drop_last() =~= s.take(i));
    assert(s.take(i + 1).last() == s[i]);
}

/// Peeling the first byte: its place value is 256 to the rest's length.
pub proof fn lemma_be_val_front(x: u8, t: Seq<u8>)
    ensures
        be_val(seq![x] + t) == x * pow256(t.len()) + be_val(t),
    decreases t.len(),
{
    let u = seq![x] + t;
    if t.len() == 0 {
        assert(u =~= seq![x]);
        assert(u.len() == 1);
        assert(u.last() == x);
        assert(u.drop_last() =~= Seq::<u8>::empty());
        assert(be_val(u.drop_last()) == 0);
        assert(be_val(u) == x);
        assert(pow256(0) == 1);
    } else {
        let td = t.drop_last();
        assert(u.drop_last() =~= seq![x] + td);
        lemma_be_val_front(x, td);
        assert(u.last() == t.last());
        assert(be_val(u) == (x * pow256(td.len()) + be_val(td)) * 256 + t.last());
        assert((x * pow256(td.len()) + be_val(td)) * 256 == x * (256 * pow256(td.len()))
            + be_val(td) * 256) by (nonlinear_arith);
        assert(pow256(t.len()) == 256 * pow256(td.len()));
    }
}

/// A byte string's value splits at any cut into prefix and suffix values.
pub proof fn lemma_be_val_split(s: Seq<u8>, i: int)
    requires
        0 <= i <= s.len(),
    ensures
        be_val(s) == be_val(s.take(i)) * pow256((s.len() - i) as nat) + be_val(s.skip(i)),
    decreases s.len() - i,
{
    if i == s.len() {
        assert(s.take(i) =~= s);
        assert(s.skip(i) =~= Seq::<u8>::empty());
        assert(pow256(0) == 1);
        assert(be_val(s) * 1 == be_val(s));
    } else {
        lemma_be_val_split(s, i + 1);
        lemma_be_val_take_succ(s, i);
        assert(s.skip(i) =~= seq![s[i]] + s.skip(i + 1));
        lemma_be_val_front(s[i], s.skip(i + 1));
        let p = pow256((s.len() - i - 1) as nat);
        assert(pow256((s.len() - i) as nat) == 256 * p);
        assert((be_val(s.take(i)) * 256 + s[i]) * p == be_val(s.take(i)) * (256 * p) + s[i] * p)
            by (nonlinear_arith);
    }
}

/// If two equally long byte strings agree up to position `k` and differ there,
/// the one with the smaller byte at `k` has the smaller value.
pub proof fn lemma_be_val_prefix_lt(a: Seq<u8>, b: Seq<u8>, k: int)
    requires
        a.len() == b.len(),
        0 <= k < a.len(),
        a.take(k) == b.take(k),
        a[k] < b[k],
    ensures
        be_val(a) < be_val(b),
{
    let n = a.len() as int;
    let p = pow256((n - k - 1) as nat);
    lemma_be_val_split(a, k + 1);
    lemma_be_val_split(b, k + 1);
    lemma_be_val_take_succ(a, k);
    lemma_be_val_take_succ(b, k);
    lemma_be_val_bound(a.skip(k + 1));
    lemma_pow256_pos((n - k - 1) as nat);
    let c = be_val(a.take(k));
    assert(be_val(a) == (c * 256 + a[k]) * p + be_val(a.skip(k + 1)));
    assert(be_val(b) == (c * 256 + b[k]) * p + be_val(b.skip(k + 1)));
    assert((c * 256 + a[k]) * p + be_val(a.skip(k + 1)) < (c * 256 + b[k]) * p) by (nonlinear_arith)
        requires
            a[k] < b[k],
            p >= 1,
            be_val(a.skip(k + 1)) < p,
    ;
}

/// A string of `0xFF` bytes has the largest value of its length.
pub proof fn lemma_be_val_all_ff(s: Seq<u8>)
    requires
        forall|i: int| 0 <= i < s.len() ==> s[i] == 0xFFu8,
    ensures
        be_val(s) == pow256(s.len()) - 1,
    decreases s.len(),
{
    if s.len() == 0 {
    } else {
        lemma_be_val_all_ff(s.drop_last());
        lemma_pow256_pos((s.len() - 1) as nat);
        assert((pow256((s.len() - 1) as nat) - 1) * 256 + 255 == 256 * pow256(
            (s.len() - 1) as nat,
        ) - 1) by (nonlinear_arith);
    }
}

/// Quotient of a 32-byte big-endian number by a nonzero 64-bit divisor,
/// computed by byte-wise long division.
pub fn div256(a: &[u8; 32], d: u64) -> (q: [u8; 32])
    requires
        d >= 1,
    ensures
        be_val(q@) == be_val(a@) / (d as nat),
{
    let mut q: [u8; 32] = [0u8; 32];
    let mut rem: u64 = 0;
    let ghost av = a@;
    proof {
        assert(av.take(0) =~= Seq::<u8>::empty());
        assert(q@.take(0) =~= Seq::<u8>::empty());
        assert(be_val(Seq::<u8>::empty()) == 0);
        assert(be_val(av.take(0)) == be_val(q@.take(0)) * d + 0);
    }
    for i in 0..32usize
        invariant
            d >= 1,
            rem < d,
            av == a@,
            av.len() == 32,
            q@.len() == 32,
            be_val(av.take(i as int)) == be_val(q@.take(i as int)) * d + rem,
    {
        let cur: u128 = (rem as u128) * 256 + (a[i] as u128);
        assert(cur < (d as u128) * 256) by (nonlinear_arith)
            requires
                rem < d,
                cur == (rem as u128) * 256 + (a[i as int] as u128),
                a[i as int] < 256,
        ;
        let qi: u128 = cur / (d as u128);
        let r2: u128 = cur % (d as u128);
        assert(qi < 256 && r2 < d && cur == qi * (d as u128) + r2) by (nonlinear_arith)
            requires
                d >= 1,
                cur < (d as u128) * 256,
                qi == cur / (d as u128),
                r2 == cur % (d as u128),
        ;
        let ghost qold = q@;
        let ghost rem_old = rem;
        q[i] = qi as u8;
        rem = r2 as u64;
        proof {
            lemma_be_val_take_succ(av, i as int);
            lemma_be_val_take_succ(q@, i as int);
            assert(q@.take(i as int) =~= qold.take(i as int));
            assert(q@[i as int] == qi as u8);
            let qv = be_val(qold.take(i as int));
            let ai = a[i as int];
            assert((qv * d + rem_old) * 256 + ai == (qv * 256 + qi) * d + r2) by (nonlinear_arith)
                requires
                    cur == (rem_old as u128) * 256 + (ai as u128),
                    cur == qi * (d as u128) + r2,
            ;
            assert(be_val(av.take(i + 1)) == (qv * d + rem_old) * 256 + ai);
            assert(be_val(q@.take(i + 1)) == qv * 256 + qi);
            assert((qv * 256 + qi) * d + r2 == be_val(q@.take(i + 1)) * d + r2);
        }
    }
    proof {
        assert(av.take(32) =~= av);
        assert(q@.take(32) =~= q@);
        vstd::arithmetic::div_mod::lemma_fundamental_div_mod_converse(
            be_val(av) as int,
            d as int,
            be_val(q@) as int,
            rem as int,
        );
    }
    q
}

/// Product of a 32-byte big-endian number and a 64-bit scalar, saturating at
/// the largest 32-byte value.
pub fn mul256_saturating(a: &[u8; 32], m: u64) -> (r: [u8; 32])
    ensures
        be_val(a@) * m < pow256(32) ==> be_val(r@) == be_val(a@) * m,
        be_val(a@) * m >= pow256(32) ==> be_val(r@) == pow256(32) - 1,
{
    let mut r: [u8; 32] = [0u8; 32];
    let mut carry: u64 = 0;
    let ghost av = a@;
    proof {
        assert(av.skip(32) =~= Seq::<u8>::empty());
        assert(r@.skip(32) =~= Seq::<u8>::empty());
        assert(be_val(Seq::<u8>::empty()) == 0);
        assert(pow256(0) == 1);
        assert(be_val(av.skip(32)) == 0);
        assert(be_val(r@.skip(32)) == 0);
        assert(be_val(av.skip(32)) * m == 0) by (nonlinear_arith)
            requires
                be_val(av.skip(32)) == 0,
        ;
        assert(be_val(av.skip(32 - 0)) * m == be_val(r@.skip(32 - 0)) + 0 * pow256(0));
    }
    let mut j: usize = 0;
    while j < 32
        invariant
            j <= 32,
            av == a@,
            av.len() == 32,
            r@.len() == 32,
            carry <= m,
            be_val(av.skip(32 - j)) * m == be_val(r@.skip(32 - j)) + carry * pow256(j as nat),
        decreases 32 - j,
    {
        let i: usize = 31 - j;
        assert((a[i as int] as u128) * (m as u128) + (carry as u128) < 0x20000000000000000000u128)
            by (nonlinear_arith)
            requires
                a[i as int] <= 255,
                (m as u128) <= 0xFFFFFFFFFFFFFFFFu128,
                carry <= m,
        ;
        let cur: u128 = (a[i] as u128) * (m as u128) + (carry as u128);
        assert(cur < 256 * ((m as u128) + 1)) by (nonlinear_arith)
            requires
                cur == (a[i as int] as u128) * (m as u128) + (carry as u128),
                a[i as int] < 256,
                carry <= m,
        ;
        let lo: u8 = (cur % 256) as u8;
        let hi: u128 = cur / 256;
        assert(hi <= m && cur == hi * 256 + lo) by (nonlinear_arith)
            requires
                cur < 256 * ((m as u128) + 1),
                lo == cur % 256,
                hi == cur / 256,
        ;
        let ghost rold = r@;
        r[i] = lo;
        let ghost carry_old = carry;
        carry = hi as u64;
        proof {
            assert(r@.skip(i + 1) =~= rold.skip(i + 1));
            assert(av.skip(i as int) =~= seq![av[i as int]] + av.skip(i + 1));
            assert(r@.skip(i as int) =~= seq![lo] + r@.skip(i + 1));
            lemma_be_val_front(av[i as int], av.skip(i + 1));
            lemma_be_val_front(lo, r@.skip(i + 1));
            let p = pow256(j as nat);
            let sa = be_val(av.skip(i + 1));
            let sr = be_val(r@.skip(i + 1));
            assert(pow256((j + 1) as nat) == 256 * p);
            assert((av[i as int] * p + sa) * m == av[i as int] * (m as nat) * p + sa * m)
                by (nonlinear_arith);
            assert(av[i as int] * (m as nat) * p + sa * m == (cur - carry_old) * p + sr
                + carry_old * p) by (nonlinear_arith)
                requires
                    sa * m == sr + carry_old * p,
                    cur == (av[i as int] as u128) * (m as u128) + (carry_old as u128),
            ;
            assert((cur - carry_old) * p + sr + carry_old * p == cur * p + sr) by (nonlinear_arith);
            assert(cur * p + sr == lo * p + sr + carry * (256 * p)) by (nonlinear_arith)
                requires
                    cur == carry * 256 + lo,
            ;
            assert(be_val(av.skip(i as int)) * m == av[i as int] * pow256((32 - i - 1) as nat) * m
                + sa * m) by (nonlinear_arith)
                requires
                    be_val(av.skip(i as int)) == av[i as int] * pow256((32 - i - 1) as nat) + sa,
            ;
            assert(pow256((32 - i - 1) as nat) == p);
        }
        j = j + 1;
    }
    proof {
        assert(av.skip(0) =~= av);
        assert(r@.skip(0) =~= r@);
        lemma_be_val_bound(r@);
        lemma_pow256_pos(32);
    }
    if carry > 0 {
        let sat: [u8; 32] = [0xFFu8; 32];
        proof {
            lemma_be_val_all_ff(sat@);
            assert(be_val(av) * m >= pow256(32)) by (nonlinear_arith)
                requires
                    be_val(av) * m == be_val(r@) + (carry as nat) * pow256(32),
                    carry >= 1,
                    be_val(r@) >= 0,
                    pow256(32) >= 1,
            ;
        }
        sat
    } else {
        r
    }
}


/// 10 raised to the power `n`.
pub open spec fn pow10(n: nat) -> nat
    decreases n,
{
    if n == 0 {
        1
    } else {
        10 * pow10((n - 1) as nat)
    }
}

pub proof fn lemma_pow10_pos(n: nat)
    ensures
        pow10(n) >= 1,
    decreases n,
{
    if n > 0 {
        lemma_pow10_pos((n - 1) as nat);
    }
}

pub proof fn lemma_pow10_mono(a: nat, b: nat)
    requires
        a <= b,
    ensures
        pow10(a) <= pow10(b),
    decreases b,
{
    if a < b {
        lemma_pow10_mono(a, (b - 1) as nat);
        lemma_pow10_pos((b - 1) as nat);
    }
}

/// Computes a power of ten that fits a 64-bit value.
pub fn pow10_u64(p: u32) -> (r: u64)
    requires
        pow10(p as nat) <= u64::MAX,
    ensures
        r == pow10(p as nat),
{
    let mut r: u64 = 1;
    let mut i: u32 = 0;
    while i < p
        invariant
            i <= p,
            r == pow10(i as nat),
            pow10(p as nat) <= u64::MAX,
        decreases p - i,
    {
        proof {
            lemma_pow10_mono((i + 1) as nat, p as nat);
        }
        r = r * 10;
        i = i + 1;
    }
    r
}


/// 2 raised to the power `n`.
pub open spec fn pow2(n: nat) -> nat
    decreases n,
{
    if n == 0 {
        1
    } else {
        2 * pow2((n - 1) as nat)
    }
}

pub proof fn lemma_pow2_pos(n: nat)
    ensures
        pow2(n) >= 1,
    decreases n,
{
    if n > 0 {
        lemma_pow2_pos((n - 1) as nat);
    }
}

pub proof fn lemma_pow2_mono(a: nat, b: nat)
    requires
        a <= b,
    ensures
        pow2(a) <= pow2(b),
    decreases b,
{
    if a < b {
        lemma_pow2_mono(a, (b - 1) as nat);
        lemma_pow2_pos((b - 1) as nat);
    }
}

/// Equal values of equally long byte strings force equal bytes: the
/// big-endian reading is injective at a fixed length.
pub proof fn lemma_be_val_injective(a: Seq<u8>, b: Seq<u8>)
    requires
        a.len() == b.len(),
        be_val(a) == be_val(b),
    ensures
        a == b,
    decreases a.len(),
{
    if a.len() == 0 {
        assert(a =~= b);
    } else if a[0] != b[0] {
        assert(a.take(0) =~= b.take(0));
        if a[0] < b[0] {
            lemma_be_val_prefix_lt(a, b, 0);
        } else {
            lemma_be_val_prefix_lt(b, a, 0);
        }
    } else {
        let at = a.skip(1);
        let bt = b.skip(1);
        assert(a =~= seq![a[0]] + at);
        assert(b =~= seq![b[0]] + bt);
        lemma_be_val_front(a[0], at);
        lemma_be_val_front(b[0], bt);
        lemma_be_val_injective(at, bt);
        assert(a =~= b);
    }
}

} // verus!


