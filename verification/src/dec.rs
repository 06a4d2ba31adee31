//! Decimal numerals on bytes.
//!
//! The sidecar metadata format and the HTTP `Range` header both spell
//! unsigned integers as ASCII decimal numerals. This module gives the
//! canonical spelling of a number (most significant digit first, no leading
//! zero), the value of a spelling, the lemmas tying the two together, and
//! the executable writer and strict reader used by the codecs.

use vstd::prelude::*;

verus! {

pub open spec fn is_digit(b: u8) -> bool {
    48 <= b <= 57
}

pub open spec fn digit_val(b: u8) -> int {
    b as int - 48
}

/// Canonical decimal spelling of `n`, most significant digit first.
pub open spec fn spec_dec_digits(n: int) -> Seq<u8>
    recommends
        n >= 0,
    decreases n,
{
    if n < 10 {
        seq![(48 + n) as u8]
    } else {
        spec_dec_digits(n / 10).push((48 + n % 10) as u8)
    }
}

/// Value of a digit string, most significant digit first.
pub open spec fn spec_dec_value(s: Seq<u8>) -> int
    decreases s.len(),
{
    if s.len() == 0 {
        0
    } else {
        spec_dec_value(s.drop_last()) * 10 + digit_val(s.last())
    }
}

pub open spec fn all_digits(s: Seq<u8>) -> bool {
    forall|i: int| 0 <= i < s.len() ==> is_digit(#[trigger] s[i])
}

/// A digit string is canonical when it is non-empty and spells no leading
/// zero (a lone zero stands for the number zero).
pub open spec fn canonical_digits(s: Seq<u8>) -> bool {
    &&& all_digits(s)
    &&& s.len() >= 1
    &&& (s[0] == 48 ==> s.len() == 1)
}

/// The canonical spelling of `n` is a canonical digit string, and starts
/// with a zero digit only for zero itself.
pub proof fn lemma_dec_digits_canonical(n: int)
    requires
        n >= 0,
    ensures
        canonical_digits(spec_dec_digits(n)),
        spec_dec_digits(n)[0] == 48 ==> n == 0,
    decreases n,
{
    if n >= 10 {
        lemma_dec_digits_canonical(n / 10);
    }
}

/// The canonical spelling of `n` spells `n`.
pub proof fn lemma_dec_value_of_digits(n: int)
    requires
        n >= 0,
    ensures
        spec_dec_value(spec_dec_digits(n)) == n,
    decreases n,
{
    if n < 10 {
        let s1 = spec_dec_digits(n);
        assert(s1 =~= seq![(48 + n) as u8]);
        assert(s1.drop_last() =~= Seq::<u8>::empty());
        assert(spec_dec_value(s1) == spec_dec_value(s1.drop_last()) * 10 + digit_val(s1.last()));
        assert(spec_dec_value(Seq::<u8>::empty()) == 0);
    } else {
        lemma_dec_value_of_digits(n / 10);
        let s = spec_dec_digits(n);
        assert(s.drop_last() =~= spec_dec_digits(n / 10));
        vstd::arithmetic::div_mod::lemma_fundamental_div_mod(n, 10);
    }
}

/// The value of a digit string is not negative.
pub proof fn lemma_dec_value_nonneg(s: Seq<u8>)
    requires
        all_digits(s),
    ensures
        spec_dec_value(s) >= 0,
    decreases s.len(),
{
    if s.len() > 0 {
        assert(all_digits(s.drop_last())) by {
            assert(forall|i: int|
                0 <= i < s.len() - 1 ==> s.drop_last()[i] == #[trigger] s[i]);
        }
        lemma_dec_value_nonneg(s.drop_last());
        assert(spec_dec_value(s.drop_last()) * 10 >= 0) by (nonlinear_arith)
            requires
                spec_dec_value(s.drop_last()) >= 0,
        ;
    }
}

/// A digit string with no leading zero spells at least one.
pub proof fn lemma_dec_value_no_leading_zero_ge_one(s: Seq<u8>)
    requires
        all_digits(s),
        s.len() >= 1,
        s[0] != 48,
    ensures
        spec_dec_value(s) >= 1,
    decreases s.len(),
{
    if s.len() == 1 {
    } else {
        assert(all_digits(s.drop_last()) && s.drop_last()[0] == s[0]) by {
            assert(forall|i: int|
                0 <= i < s.len() - 1 ==> s.drop_last()[i] == #[trigger] s[i]);
        }
        lemma_dec_value_no_leading_zero_ge_one(s.drop_last());
        assert(spec_dec_value(s.drop_last()) * 10 >= 10) by (nonlinear_arith)
            requires
                spec_dec_value(s.drop_last()) >= 1,
        ;
    }
}

/// A canonical digit string is the canonical spelling of its value: the
/// spelling of a number is unique.
pub proof fn lemma_canonical_digits_unique(s: Seq<u8>)
    requires
        canonical_digits(s),
    ensures
        s =~= spec_dec_digits(spec_dec_value(s)),
    decreases s.len(),
{
    let v = spec_dec_value(s);
    lemma_dec_value_nonneg(s);
    if s.len() == 1 {
        assert(s.drop_last() =~= Seq::<u8>::empty());
        assert(spec_dec_value(Seq::<u8>::empty()) == 0);
        assert(s.last() == s[0]);
        assert(v == digit_val(s[0]));
        assert(spec_dec_digits(v) =~= seq![(48 + v) as u8]);
    } else {
        let s0 = s.drop_last();
        assert(all_digits(s0) && s0[0] == s[0] && s0.len() == s.len() - 1) by {
            assert(forall|i: int| 0 <= i < s.len() - 1 ==> s0[i] == #[trigger] s[i]);
        }
        assert(s[0] != 48);
        lemma_dec_value_no_leading_zero_ge_one(s0);
        let v0 = spec_dec_value(s0);
        assert(v == v0 * 10 + digit_val(s.last()));
        assert(v >= 10) by (nonlinear_arith)
            requires
                v0 >= 1,
                v == v0 * 10 + digit_val(s.last()),
                digit_val(s.last()) >= 0,
        ;
        assert(v / 10 == v0 && v % 10 == digit_val(s.last())) by {
            vstd::arithmetic::div_mod::lemma_fundamental_div_mod_converse(
                v,
                10,
                v0,
                digit_val(s.last()),
            );
        }
        lemma_canonical_digits_unique(s0);
        assert(spec_dec_digits(v) =~= spec_dec_digits(v / 10).push((48 + v % 10) as u8));
        assert(s =~= s0.push(s.last()));
    }
}

/// Appending digits to a digit string never shrinks its value.
pub proof fn lemma_dec_value_prefix_le(s: Seq<u8>, k: int)
    requires
        all_digits(s),
        0 <= k <= s.len(),
    ensures
        spec_dec_value(s.subrange(0, k)) <= spec_dec_value(s),
    decreases s.len() - k,
{
    if k == s.len() {
        assert(s.subrange(0, k) =~= s);
    } else {
        lemma_dec_value_prefix_le(s, k + 1);
        let p = s.subrange(0, k);
        let q = s.subrange(0, k + 1);
        assert(q.drop_last() =~= p);
        assert(all_digits(p)) by {
            assert(forall|i: int| 0 <= i < k ==> p[i] == #[trigger] s[i]);
        }
        lemma_dec_value_nonneg(p);
        assert(spec_dec_value(p) * 10 >= spec_dec_value(p)) by (nonlinear_arith)
            requires
                spec_dec_value(p) >= 0,
        ;
        assert(all_digits(q)) by {
            assert(forall|i: int| 0 <= i < k + 1 ==> q[i] == #[trigger] s[i]);
        }
    }
}

/// End of the run of digits that starts at `pos`.
pub open spec fn digit_run_end(s: Seq<u8>, pos: int) -> int
    decreases s.len() - pos,
{
    if pos < 0 || pos >= s.len() || !is_digit(s[pos]) {
        pos
    } else {
        digit_run_end(s, pos + 1)
    }
}

pub proof fn lemma_digit_run_end_bounds(s: Seq<u8>, pos: int)
    requires
        0 <= pos <= s.len(),
    ensures
        pos <= digit_run_end(s, pos) <= s.len(),
        forall|i: int| pos <= i < digit_run_end(s, pos) ==> is_digit(#[trigger] s[i]),
        digit_run_end(s, pos) < s.len() ==> !is_digit(s[digit_run_end(s, pos)]),
    decreases s.len() - pos,
{
    if pos < s.len() && is_digit(s[pos]) {
        lemma_digit_run_end_bounds(s, pos + 1);
    }
}

/// Where a run of digits is followed by a non-digit (or by the end), the run
/// end is exactly its end.
pub proof fn lemma_digit_run_end_at(s: Seq<u8>, pos: int, e: int)
    requires
        0 <= pos <= e <= s.len(),
        forall|i: int| pos <= i < e ==> is_digit(#[trigger] s[i]),
        e < s.len() ==> !is_digit(s[e]),
    ensures
        digit_run_end(s, pos) == e,
    decreases e - pos,
{
    if pos < e {
        lemma_digit_run_end_at(s, pos + 1, e);
    }
}

/// Write the canonical decimal spelling of `n` onto `out`.
pub fn push_dec_u64(out: &mut Vec<u8>, n: u64)
    ensures
        final(out)@ =~= old(out)@ + spec_dec_digits(n as int),
    decreases n,
{
    if n < 10 {
        out.push(48 + n as u8);
    } else {
        push_dec_u64(out, n / 10);
        out.push(48 + (n % 10) as u8);
    }
}

/// Decimal spelling of a signed number: a minus sign before the magnitude
/// when it is negative.
pub open spec fn spec_dec_digits_i64(n: int) -> Seq<u8> {
    if n >= 0 {
        spec_dec_digits(n)
    } else {
        seq![45u8] + spec_dec_digits(-n)
    }
}

/// Write the decimal spelling of a signed number onto `out`.
pub fn push_dec_i64(out: &mut Vec<u8>, n: i64)
    ensures
        final(out)@ =~= old(out)@ + spec_dec_digits_i64(n as int),
{
    if n >= 0 {
        push_dec_u64(out, n as u64);
    } else {
        out.push(45);
        let mag: u64 = ((-(n + 1)) as u64) + 1;
        assert(mag as int == -(n as int));
        push_dec_u64(out, mag);
    }
}

/// Strict decimal read at `pos`: consumes the whole digit run, and accepts
/// it only when it is canonical (no leading zero) and its value fits in
/// `u64`. Returns the value and the position just past the run.
pub fn parse_dec_at(s: &[u8], pos: usize) -> (r: Option<(u64, usize)>)
    requires
        pos <= s@.len(),
    ensures
        ({
            let e = digit_run_end(s@, pos as int);
            let run = s@.subrange(pos as int, e);
            match r {
                Some((v, q)) => {
                    &&& q == e
                    &&& canonical_digits(run)
                    &&& v as int == spec_dec_value(run)
                    &&& run =~= spec_dec_digits(v as int)
                },
                None => !(canonical_digits(run) && spec_dec_value(run) <= u64::MAX as int),
            }
        }),
{
    let ghost e = digit_run_end(s@, pos as int);
    proof {
        lemma_digit_run_end_bounds(s@, pos as int);
    }
    let len = s.len();
    // Find the end of the digit run.
    let mut q: usize = pos;
    while q < len && s[q] >= 48 && s[q] <= 57
        invariant
            pos <= q <= len,
            len == s@.len(),
            digit_run_end(s@, pos as int) == digit_run_end(s@, q as int),
            forall|i: int| pos <= i < q ==> is_digit(#[trigger] s@[i]),
        decreases len - q,
    {
        q = q + 1;
    }
    proof {
        lemma_digit_run_end_at(s@, q as int, q as int);
        assert(e == q as int);
    }
    if q == pos {
        // No digits at all.
        return None;
    }
    if s[pos] == 48 && q - pos > 1 {
        // A leading zero is not canonical.
        proof {
            assert(s@.subrange(pos as int, e)[0] == 48);
        }
        return None;
    }
    let ghost run = s@.subrange(pos as int, e);
    assert(canonical_digits(run)) by {
        assert(forall|i: int| 0 <= i < run.len() ==> run[i] == #[trigger] s@[pos + i]);
    }
    // Accumulate the value, watching for overflow.
    let mut v: u64 = 0;
    let mut k: usize = pos;
    while k < q
        invariant
            pos <= k <= q <= len,
            len == s@.len(),
            e == q as int,
            e == digit_run_end(s@, pos as int),
            run =~= s@.subrange(pos as int, e),
            canonical_digits(run),
            forall|i: int| pos <= i < q ==> is_digit(#[trigger] s@[i]),
            v as int == spec_dec_value(s@.subrange(pos as int, k as int)),
        decreases q - k,
    {
        let d = s[k];
        proof {
            let p = s@.subrange(pos as int, k as int);
            let pn = s@.subrange(pos as int, k as int + 1);
            assert(pn.drop_last() =~= p);
            assert(pn.last() == s@[k as int]);
            assert(all_digits(p)) by {
                assert(forall|i: int| 0 <= i < p.len() ==> p[i] == #[trigger] s@[pos + i]);
            }
            lemma_dec_value_nonneg(p);
        }
        if v > (u64::MAX - (d - 48) as u64) / 10 {
            // The run spells a value beyond u64.
            proof {
                let pn = s@.subrange(pos as int, k as int + 1);
                assert(spec_dec_value(pn) == v as int * 10 + digit_val(s@[k as int]));
                assert(spec_dec_value(pn) > u64::MAX as int) by (nonlinear_arith)
                    requires
                        spec_dec_value(pn) == v as int * 10 + digit_val(s@[k as int]),
                        v as int > (u64::MAX as int - digit_val(s@[k as int])) / 10,
                        0 <= digit_val(s@[k as int]) <= 9,
                        v as int >= 0,
                ;
                assert(all_digits(run));
                lemma_dec_value_prefix_le(run, k as int + 1 - pos as int);
                assert(run.subrange(0, k as int + 1 - pos as int) =~= pn);
                assert(spec_dec_value(run) >= spec_dec_value(pn));
                assert(spec_dec_value(run) > u64::MAX as int);
            }
            return None;
        }
        v = v * 10 + (d - 48) as u64;
        k = k + 1;
        proof {
            let pn = s@.subrange(pos as int, k as int);
            assert(v as int == spec_dec_value(pn));
        }
    }
    proof {
        assert(s@.subrange(pos as int, k as int) =~= run);
        lemma_canonical_digits_unique(run);
    }
    Some((v, q))
}

} // verus!
