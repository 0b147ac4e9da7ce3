//! Decimal notation for non-negative integers, as ASCII byte strings:
//! the plaintext form in which a candidate index is sealed inside a
//! vote token, and the parser that recovers it.

use vstd::prelude::*;

verus! {

/// The decimal digit string of a non-negative integer, as ASCII bytes,
/// without sign or leading zeros (`0` itself is the single digit `0`).
pub open spec fn dec_digits(n: int) -> Seq<u8>
    recommends
        n >= 0,
    decreases n,
{
    if n < 10 {
        seq![(48 + if n >= 0 { n } else { 0 }) as u8]
    } else {
        dec_digits(n / 10).push((48 + n % 10) as u8)
    }
}

/// True when every byte is an ASCII decimal digit.
pub open spec fn all_digits(s: Seq<u8>) -> bool {
    forall|i: int| 0 <= i < s.len() ==> 48 <= #[trigger] s[i] <= 57
}

/// The integer denoted by a digit string (most significant digit first).
pub open spec fn dec_val(s: Seq<u8>) -> int
    recommends
        all_digits(s),
    decreases s.len(),
{
    if s.len() == 0 {
        0
    } else {
        dec_val(s.drop_last()) * 10 + (s.last() - 48)
    }
}

/// The candidate number a sealed plaintext denotes: the value of a
/// non-empty string of decimal digits, provided it fits in an `i64`;
/// `None` for every other byte string. Leading zeros are accepted.
pub open spec fn parse_vote(s: Seq<u8>) -> Option<i64> {
    if s.len() > 0 && all_digits(s) && dec_val(s) <= i64::MAX {
        Some(dec_val(s) as i64)
    } else {
        None
    }
}

pub proof fn lemma_dec_digits_facts(n: int)
    requires
        n >= 0,
    ensures
        dec_digits(n).len() >= 1,
        all_digits(dec_digits(n)),
        dec_val(dec_digits(n)) == n,
    decreases n,
{
    if n < 10 {
        let s = dec_digits(n);
        assert(s.len() == 1);
        assert(s.drop_last() =~= Seq::<u8>::empty());
        assert(dec_val(s.drop_last()) == 0);
        assert(s.last() == (48 + n) as u8);
        assert(dec_val(s) == n);
    } else {
        lemma_dec_digits_facts(n / 10);
        let s = dec_digits(n);
        assert(s.drop_last() =~= dec_digits(n / 10));
        assert(s.last() == (48 + n % 10) as u8);
        assert(dec_val(s) == (n / 10) * 10 + n % 10);
        assert((n / 10) * 10 + n % 10 == n) by (nonlinear_arith);
        assert forall|i: int| 0 <= i < s.len() implies 48 <= #[trigger] s[i] <= 57 by {
            if i < s.len() - 1 {
                assert(s[i] == dec_digits(n / 10)[i]);
            }
        }
    }
}

pub open spec fn pow10(k: nat) -> int
    decreases k,
{
    if k == 0 {
        1
    } else {
        10 * pow10((k - 1) as nat)
    }
}

proof fn lemma_pow10_pos(k: nat)
    ensures
        pow10(k) >= 1,
    decreases k,
{
    if k > 0 {
        lemma_pow10_pos((k - 1) as nat);
        assert(10 * pow10((k - 1) as nat) >= pow10((k - 1) as nat)) by (nonlinear_arith)
            requires
                pow10((k - 1) as nat) >= 1,
        ;
    }
}

proof fn lemma_dec_digits_len_rec(n: int, k: nat)
    requires
        n >= 0,
        k >= 1,
        n < pow10(k),
    ensures
        dec_digits(n).len() <= k,
    decreases k,
{
    if n >= 10 {
        assert(pow10(k) == 10 * pow10((k - 1) as nat));
        lemma_pow10_pos((k - 1) as nat);
        if k == 1 {
            reveal_with_fuel(pow10, 2);
            assert(pow10(1nat) == 10);
            assert(false);
        }
        assert(n / 10 < pow10((k - 1) as nat)) by (nonlinear_arith)
            requires
                n >= 0,
                n < 10 * pow10((k - 1) as nat),
                pow10((k - 1) as nat) >= 1,
        ;
        lemma_dec_digits_len_rec(n / 10, (k - 1) as nat);
    }
}

/// The decimal digit string of an `i64` value has at most 19 digits.
pub proof fn lemma_dec_digits_len(n: int)
    requires
        0 <= n <= i64::MAX,
    ensures
        dec_digits(n).len() <= 19,
{
    reveal_with_fuel(pow10, 21);
    assert(pow10(19nat) == 10_000_000_000_000_000_000);
    lemma_dec_digits_len_rec(n, 19nat);
}

pub proof fn lemma_dec_val_nonneg(s: Seq<u8>)
    requires
        all_digits(s),
    ensures
        dec_val(s) >= 0,
    decreases s.len(),
{
    if s.len() > 0 {
        lemma_dec_val_nonneg(s.drop_last());
        assert(dec_val(s.drop_last()) * 10 >= 0) by (nonlinear_arith)
            requires
                dec_val(s.drop_last()) >= 0,
        ;
    }
}

/// The value of a digit string is at least the value of any prefix.
pub proof fn lemma_dec_val_prefix_le(s: Seq<u8>, j: int)
    requires
        all_digits(s),
        0 <= j <= s.len(),
    ensures
        dec_val(s.take(j)) <= dec_val(s),
    decreases s.len() - j,
{
    if j < s.len() {
        let t = s.take(j + 1);
        assert(t.drop_last() =~= s.take(j));
        lemma_dec_val_nonneg(s.take(j));
        assert(dec_val(s.take(j)) * 10 >= dec_val(s.take(j))) by (nonlinear_arith)
            requires
                dec_val(s.take(j)) >= 0,
        ;
        assert(dec_val(t) >= dec_val(s.take(j)));
        lemma_dec_val_prefix_le(s, j + 1);
    } else {
        assert(s.take(j) =~= s);
    }
}

/// Writes the decimal digit string of a non-negative integer.
pub fn format_dec(n: i64) -> (r: Vec<u8>)
    requires
        n >= 0,
    ensures
        r@ == dec_digits(n as int),
{
    let mut r = Vec::new();
    push_dec(n, &mut r);
    proof {
        assert(r@ =~= dec_digits(n as int));
    }
    r
}

fn push_dec(n: i64, out: &mut Vec<u8>)
    requires
        n >= 0,
    ensures
        final(out)@ == old(out)@ + dec_digits(n as int),
    decreases n,
{
    if n < 10 {
        out.push(48 + n as u8);
        proof {
            assert(final(out)@ =~= old(out)@ + dec_digits(n as int));
        }
    } else {
        push_dec(n / 10, out);
        out.push(48 + (n % 10) as u8);
        proof {
            assert(final(out)@ =~= old(out)@ + dec_digits(n as int));
        }
    }
}

/// Parses a byte string as the decimal notation of a candidate number;
/// `Some` exactly on the strings `parse_vote` accepts.
pub fn parse_dec(s: &[u8]) -> (r: Option<i64>)
    ensures
        r == parse_vote(s@),
{
    broadcast use vstd::slice::axiom_spec_len;

    let n = s.len();
    if n == 0 {
        return None;
    }
    let mut acc: i64 = 0;
    let mut i: usize = 0;
    while i < n
        invariant
            n == s@.len(),
            0 < n,
            i <= n,
            all_digits(s@.take(i as int)),
            acc == dec_val(s@.take(i as int)),
            0 <= acc <= i64::MAX,
        decreases n - i,
    {
        let b = s[i];
        if b < 48 || b > 57 {
            proof {
                assert(!all_digits(s@));
            }
            return None;
        }
        let d = b - 48;
        proof {
            let t = s@.take(i + 1);
            assert(t.drop_last() =~= s@.take(i as int));
            assert(t.last() == s@[i as int]);
        }
        if acc > (i64::MAX - d as i64) / 10 {
            proof {
                let t = s@.take(i + 1);
                assert(dec_val(t) == acc * 10 + d);
                assert(acc * 10 + d > i64::MAX) by (nonlinear_arith)
                    requires
                        acc > (i64::MAX - d as i64) / 10,
                        0 <= d <= 9,
                        acc >= 0,
                ;
                if all_digits(s@) {
                    lemma_dec_val_prefix_le(s@, i + 1);
                    assert(dec_val(s@) > i64::MAX);
                }
            }
            return None;
        }
        proof {
            assert(acc * 10 + d <= i64::MAX) by (nonlinear_arith)
                requires
                    acc <= (i64::MAX - d as i64) / 10,
                    0 <= d <= 9,
                    acc >= 0,
            ;
        }
        acc = acc * 10 + d as i64;
        proof {
            assert(acc == dec_val(s@.take(i + 1)));
            assert forall|k: int| 0 <= k < i + 1 implies 48 <= #[trigger] s@.take(i + 1)[k] <= 57 by {
                if k < i {
                    assert(s@.take(i + 1)[k] == s@.take(i as int)[k]);
                }
            }
        }
        i = i + 1;
    }
    proof {
        assert(s@.take(n as int) =~= s@);
    }
    Some(acc)
}

} // verus!
