//! Numbers held as little-endian digit vectors in an arbitrary base, and the
//! one operation base conversion needs: multiply by a small number and add.

use vstd::prelude::*;

verus! {

/// `base` to the power `n`.
pub open spec fn power(base: nat, n: nat) -> nat
    decreases n,
{
    if n == 0 {
        1
    } else {
        base * power(base, (n - 1) as nat)
    }
}

/// The number little-endian digits spell: the first digit is the lowest.
pub open spec fn limbs_value(s: Seq<u8>, base: nat) -> nat
    decreases s.len(),
{
    if s.len() == 0 {
        0
    } else {
        s[0] as nat + base * limbs_value(s.skip(1), base)
    }
}

/// Whether every digit is below the base and the highest is not zero, so
/// that the digits are the one way to write their number.
pub open spec fn canonical(s: Seq<u8>, base: nat) -> bool {
    (forall|i: int| 0 <= i < s.len() ==> (#[trigger] s[i] as nat) < base) && (s.len() == 0 || s.last() != 0)
}

/// The little-endian digits of `n`: none at all for zero.
pub open spec fn digits_of(n: nat, base: nat) -> Seq<u8>
    recommends
        base >= 2,
    decreases n,
{
    if n == 0 || base < 2 {
        Seq::empty()
    } else {
        proof {
            vstd::arithmetic::div_mod::lemma_div_decreases(n as int, base as int);
        }
        seq![(n % base) as u8] + digits_of(n / base, base)
    }
}

pub proof fn lemma_power_pos(base: nat, n: nat)
    requires
        base >= 1,
    ensures
        power(base, n) >= 1,
    decreases n,
{
    if n > 0 {
        lemma_power_pos(base, (n - 1) as nat);
        assert(base * power(base, (n - 1) as nat) >= 1) by (nonlinear_arith)
            requires
                base >= 1,
                power(base, (n - 1) as nat) >= 1,
        ;
    }
}

/// Appending a digit at the top adds it times the base to the length.
pub proof fn lemma_limbs_push(s: Seq<u8>, x: u8, base: nat)
    ensures
        limbs_value(s.push(x), base) == limbs_value(s, base) + x as nat * power(base, s.len()),
    decreases s.len(),
{
    if s.len() == 0 {
        assert(s.push(x).skip(1) == Seq::<u8>::empty());
        assert(limbs_value(Seq::<u8>::empty(), base) == 0);
        assert(s.push(x)[0] == x);
        assert(power(base, 0) == 1);
        assert(limbs_value(s.push(x), base) == x as nat + base * limbs_value(s.push(x).skip(1), base));
        assert(base * 0 == 0) by (nonlinear_arith);
    } else {
        assert(s.push(x).skip(1) == s.skip(1).push(x));
        assert(s.push(x)[0] == s[0]);
        lemma_limbs_push(s.skip(1), x, base);
        let p = power(base, (s.len() - 1) as nat);
        assert(power(base, s.len()) == base * p);
        assert(base * (limbs_value(s.skip(1), base) + x as nat * p) == base * limbs_value(s.skip(1), base) + x as nat * (base * p)) by (nonlinear_arith);
    }
}

/// Digits below the base spell a number below the base to their count.
pub proof fn lemma_limbs_bound(s: Seq<u8>, base: nat)
    requires
        forall|i: int| 0 <= i < s.len() ==> (#[trigger] s[i] as nat) < base,
    ensures
        limbs_value(s, base) < power(base, s.len()),
    decreases s.len(),
{
    if s.len() > 0 {
        let t = s.skip(1);
        assert forall|i: int| 0 <= i < t.len() implies (#[trigger] t[i] as nat) < base by {
            assert(t[i] == s[i + 1]);
        }
        lemma_limbs_bound(t, base);
        let v = limbs_value(t, base);
        let p = power(base, t.len());
        assert(s[0] as nat + base * v < base * p) by (nonlinear_arith)
            requires
                (s[0] as nat) < base,
                v < p,
        ;
    }
}

/// A top digit that is not zero makes the number at least the base to one
/// less than the count.
pub proof fn lemma_limbs_lower(s: Seq<u8>, base: nat)
    requires
        s.len() > 0,
        s.last() != 0,
        base >= 1,
    ensures
        limbs_value(s, base) >= power(base, (s.len() - 1) as nat),
    decreases s.len(),
{
    if s.len() == 1 {
        assert(s.skip(1) == Seq::<u8>::empty());
    } else {
        let t = s.skip(1);
        assert(t.last() == s.last());
        lemma_limbs_lower(t, base);
        let v = limbs_value(t, base);
        let p = power(base, (t.len() - 1) as nat);
        assert(s[0] as nat + base * v >= base * p) by (nonlinear_arith)
            requires
                v >= p,
        ;
    }
}

/// Canonical digits are the digits of their number.
pub proof fn lemma_canonical_unique(s: Seq<u8>, base: nat)
    requires
        base >= 2,
        canonical(s, base),
    ensures
        s == digits_of(limbs_value(s, base), base),
    decreases s.len(),
{
    let n = limbs_value(s, base);
    if s.len() == 0 {
    } else {
        let t = s.skip(1);
        lemma_limbs_lower(s, base);
        lemma_power_pos(base, (s.len() - 1) as nat);
        assert(canonical(t, base)) by {
            assert forall|i: int| 0 <= i < t.len() implies (#[trigger] t[i] as nat) < base by {
                assert(t[i] == s[i + 1]);
            }
            if t.len() > 0 {
                assert(t.last() == s.last());
            }
        }
        lemma_canonical_unique(t, base);
        let v = limbs_value(t, base);
        assert(n % base == s[0] as nat && n / base == v) by {
            assert((s[0] as nat) < base);
            assert(n == v * base + s[0] as nat) by (nonlinear_arith)
                requires
                    n == s[0] as nat + base * v,
            ;
            vstd::arithmetic::div_mod::lemma_fundamental_div_mod_converse(n as int, base as int, v as int, s[0] as int);
        }
        assert(s == seq![s[0]] + t);
    }
}

/// The state of one multiply-and-add: digits `done` already replaced,
/// digits from `k` on still old, and `carry` owed at position `k`.
pub open spec fn step_total(done: Seq<u8>, carry: nat, old: Seq<u8>, k: int, base: nat, mult: nat) -> nat {
    limbs_value(done.take(k), base) + power(base, k as nat) * (carry + mult * limbs_value(old.skip(k), base))
}

pub proof fn lemma_step(done: Seq<u8>, carry: nat, old: Seq<u8>, k: int, base: nat, mult: nat, digit: u8, next_carry: nat)
    requires
        0 <= k < old.len(),
        done.len() == old.len(),
        base >= 1,
        carry + mult * (old[k] as nat) == digit as nat + base * next_carry,
    ensures
        step_total(done, carry, old, k, base, mult) == step_total(done.update(k, digit), next_carry, old, k + 1, base, mult),
{
    let new = done.update(k, digit);
    assert(new.take(k + 1) == done.take(k).push(digit));
    lemma_limbs_push(done.take(k), digit, base);
    assert(old.skip(k).skip(1) == old.skip(k + 1));
    let p = power(base, k as nat);
    let r = limbs_value(old.skip(k + 1), base);
    let a = old[k] as nat;
    assert(p * (carry + mult * (a + base * r)) == digit as nat * p + (base * p) * (next_carry + mult * r)) by (nonlinear_arith)
        requires
            carry + mult * a == digit as nat + base * next_carry,
    ;
}

/// Multiplies little-endian digits in base `base` by `mult` and adds
/// `add`, in place, growing the vector as the carry needs.
pub fn multiply_add(digits: &mut Vec<u8>, base: u32, mult: u32, add: u32)
    requires
        (base == 58 && mult == 256) || (base == 256 && mult == 58),
        add < mult,
        canonical(old(digits)@, base as nat),
        old(digits)@.len() == 0 ==> add > 0,
    ensures
        canonical(final(digits)@, base as nat),
        final(digits)@.len() > 0,
        limbs_value(final(digits)@, base as nat) == (mult as nat) * limbs_value(old(digits)@, base as nat) + add as nat,
{
    let ghost old_digits = digits@;
    let ghost b = base as nat;
    let ghost m = mult as nat;
    let mut carry: u32 = add;
    let mut k: usize = 0;
    let len = digits.len();
    proof {
        assert(old_digits.skip(0) == old_digits);
        assert(digits@.take(0) == Seq::<u8>::empty());
        assert(power(b, 0) == 1);
        assert(limbs_value(Seq::<u8>::empty(), b) == 0);
        let v = limbs_value(old_digits, b);
        assert(1 * (add as nat + m * v) == m * v + add as nat);
    }
    while k < len
        invariant
            (base == 58 && mult == 256) || (base == 256 && mult == 58),
            b == base as nat,
            m == mult as nat,
            len == old_digits.len(),
            digits@.len() == len,
            k <= len,
            carry < mult,
            forall|j: int| k <= j < len ==> digits@[j] == old_digits[j],
            forall|j: int| 0 <= j < k ==> (#[trigger] digits@[j] as nat) < b,
            canonical(old_digits, b),
            step_total(digits@, carry as nat, old_digits, k as int, b, m) == m * limbs_value(old_digits, b) + add as nat,
        decreases len - k,
    {
        let d = digits[k] as u32;
        assert(d < base);
        let total: u32 = carry + (d * mult);
        let digit = (total % base) as u8;
        let next = total / base;
        proof {
            assert(total < base * mult) by (nonlinear_arith)
                requires
                    carry < mult,
                    d < base,
                    total == carry + d * mult,
            ;
            assert(next < mult) by (nonlinear_arith)
                requires
                    total < base * mult,
                    next == total / base,
                    base > 0,
            ;
            assert(total as nat == digit as nat + b * next as nat) by (nonlinear_arith)
                requires
                    base > 0,
                    digit == total % base,
                    next == total / base,
                    b == base as nat,
            ;
            assert(d as nat == old_digits[k as int] as nat);
            lemma_step(digits@, carry as nat, old_digits, k as int, b, m, digit, next as nat);
        }
        digits.set(k, digit);
        carry = next;
        k = k + 1;
    }
    proof {
        assert(old_digits.skip(len as int) == Seq::<u8>::empty());
        assert(digits@.take(len as int) == digits@);
    }
    let ghost middle = digits@;
    let mut count: usize = len;
    while carry > 0
        invariant
            (base == 58 && mult == 256) || (base == 256 && mult == 58),
            b == base as nat,
            m == mult as nat,
            digits@.len() == count,
            count >= len,
            count == len ==> digits@ == middle,
            count > len ==> digits@.last() != 0 || carry > 0,
            carry < mult,
            forall|j: int| 0 <= j < count ==> (#[trigger] digits@[j] as nat) < b,
            limbs_value(digits@, b) + power(b, count as nat) * carry as nat == m * limbs_value(old_digits, b) + add as nat,
        decreases carry,
    {
        let digit = (carry % base) as u8;
        let next = carry / base;
        proof {
            lemma_limbs_push(digits@, digit, b);
            let p = power(b, count as nat);
            assert(p * carry as nat == digit as nat * p + (b * p) * next as nat) by (nonlinear_arith)
                requires
                    base > 0,
                    digit == carry % base,
                    next == carry / base,
                    b == base as nat,
            ;
            assert(next < carry) by (nonlinear_arith)
                requires
                    base >= 2,
                    next == carry / base,
                    carry > 0,
            ;
            assert(next == 0 ==> digit != 0) by (nonlinear_arith)
                requires
                    carry > 0,
                    base > 0,
                    digit == carry % base,
                    next == carry / base,
            ;
        }
        digits.push(digit);
        carry = next;
        count = digits.len();
    }
    proof {
        let lo = limbs_value(old_digits, b);
        if len > 0 {
            lemma_limbs_lower(old_digits, b);
            lemma_power_pos(b, (len - 1) as nat);
        }
        assert(m * lo + add as nat > 0) by (nonlinear_arith)
            requires
                m >= 1,
                lo > 0 || add > 0,
        ;
        if count == 0 {
            assert(limbs_value(digits@, b) == 0);
            assert(power(b, 0) == 1);
        }
        if count == len {
            // No digit was added: the old top digit survives, because the
            // number grew at least as much as the old one was.
            if len > 0 && digits@.last() == 0 {
                lemma_limbs_lower(old_digits, b);
                let top = digits@.drop_last();
                assert forall|i: int| 0 <= i < top.len() implies (#[trigger] top[i] as nat) < b by {
                    assert(top[i] == digits@[i]);
                }
                lemma_limbs_bound(top, b);
                lemma_limbs_push(top, 0u8, b);
                assert(top.push(0u8) == digits@);
                let lo = limbs_value(old_digits, b);
                assert(m * lo + add as nat >= lo) by (nonlinear_arith)
                    requires
                        m >= 1,
                ;
                assert(false);
            }
            if len == 0 {
                assert(limbs_value(digits@, b) == 0);
                assert(false);
            }
        }
    }
}

} // verus!
