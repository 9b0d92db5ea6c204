//! Decimal rendering and parsing of `i64` values, used by the referral token
//! codec and by the interaction-event tokenizer.
//!
//! The spec side fixes what a decimal byte string means (`dval`), what the
//! canonical rendering of an integer is (`dec_of_int`), and which byte strings
//! parse as an `i64` (`spec_parse_i64`, mirroring the grammar of
//! `i64::from_str`: an optional single `+`/`-` sign, then one or more ASCII
//! digits, rejected when the value falls outside the `i64` range).

use vstd::prelude::*;

verus! {

/// ASCII codes used by the decimal grammar.
pub const B_MINUS: u8 = 45;

/// ASCII `+`.
pub const B_PLUS: u8 = 43;

/// ASCII `0`.
pub const B_ZERO: u8 = 48;

pub open spec fn is_digit(b: u8) -> bool {
    48 <= b <= 57
}

/// A non-empty, all-digit byte string.
pub open spec fn digits_ok(s: Seq<u8>) -> bool {
    s.len() > 0 && forall|i: int| 0 <= i < s.len() ==> is_digit(#[trigger] s[i])
}

/// Value of a digit string, most significant digit first.
pub open spec fn dval(s: Seq<u8>) -> int
    decreases s.len(),
{
    if s.len() == 0 {
        0
    } else {
        dval(s.drop_last()) * 10 + (s.last() - 48)
    }
}


pub proof fn lemma_dval_empty()
    ensures
        dval(Seq::<u8>::empty()) == 0,
{
}

pub proof fn lemma_dval_singleton(b: u8)
    ensures
        dval(seq![b]) == b - 48,
{
    assert(seq![b].drop_last() =~= Seq::<u8>::empty());
    lemma_dval_empty();
}

/// Canonical digit string of a non-negative integer (no sign, no leading zeros).
pub open spec fn dec_digits(n: nat) -> Seq<u8>
    decreases n,
{
    if n < 10 {
        seq![(48 + n) as u8]
    } else {
        dec_digits(n / 10).push((48 + n % 10) as u8)
    }
}

/// Canonical decimal rendering of an integer, `-` prefixed when negative.
pub open spec fn dec_of_int(v: int) -> Seq<u8> {
    if v < 0 {
        seq![B_MINUS] + dec_digits((-v) as nat)
    } else {
        dec_digits(v as nat)
    }
}

/// What `i64::from_str` accepts, and the value it returns.
pub open spec fn spec_parse_i64(s: Seq<u8>) -> Option<i64> {
    let neg = s.len() > 0 && s[0] == B_MINUS;
    let signed = s.len() > 0 && (s[0] == B_MINUS || s[0] == B_PLUS);
    let ds = if signed {
        s.drop_first()
    } else {
        s
    };
    if digits_ok(ds) {
        let v = if neg {
            -dval(ds)
        } else {
            dval(ds)
        };
        if i64::MIN <= v <= i64::MAX {
            Some(v as i64)
        } else {
            None
        }
    } else {
        None
    }
}

/// Powers of ten, for range arguments.
pub open spec fn pow10(n: nat) -> int
    decreases n,
{
    if n == 0 {
        1
    } else {
        10 * pow10((n - 1) as nat)
    }
}

pub proof fn lemma_pow10_19()
    ensures
        pow10(19) == 10_000_000_000_000_000_000,
{
    reveal_with_fuel(pow10, 20);
}

pub proof fn lemma_dval_nonneg(s: Seq<u8>)
    requires
        forall|i: int| 0 <= i < s.len() ==> is_digit(#[trigger] s[i]),
    ensures
        dval(s) >= 0,
    decreases s.len(),
{
    if s.len() > 0 {
        lemma_dval_nonneg(s.drop_last());
    }
}

/// A digit string that does not start with `0` is at least `pow10(len - 1)`.
pub proof fn lemma_dval_lower(s: Seq<u8>)
    requires
        digits_ok(s),
        s[0] != B_ZERO,
    ensures
        dval(s) >= pow10((s.len() - 1) as nat),
    decreases s.len(),
{
    if s.len() == 1 {
        assert(s.drop_last() =~= Seq::<u8>::empty());
        lemma_dval_empty();
    } else {
        lemma_dval_lower(s.drop_last());
        lemma_pow10_pos((s.len() - 2) as nat);
    }
}

/// Leading zeros do not change the value.
pub proof fn lemma_dval_drop_leading_zero(s: Seq<u8>)
    requires
        s.len() > 0,
        s[0] == B_ZERO,
    ensures
        dval(s) == dval(s.drop_first()),
    decreases s.len(),
{
    if s.len() == 1 {
        assert(s.drop_first() =~= Seq::<u8>::empty());
        assert(s.drop_last() =~= Seq::<u8>::empty());
        lemma_dval_empty();
    } else {
        assert(s.drop_last()[0] == s[0]);
        lemma_dval_drop_leading_zero(s.drop_last());
        assert(s.drop_last().drop_first() =~= s.drop_first().drop_last());
        assert(s.drop_first().last() == s.last());
    }
}

/// The canonical digit string is made of digits and evaluates back to `n`.
pub proof fn lemma_dec_digits_val(n: nat)
    ensures
        digits_ok(dec_digits(n)),
        dval(dec_digits(n)) == n,
        is_digit(dec_digits(n)[0]),
        n > 0 ==> dec_digits(n)[0] != B_ZERO,
        dec_digits(n)[0] != B_MINUS,
        dec_digits(n)[0] != B_PLUS,
    decreases n,
{
    if n < 10 {
        let d = dec_digits(n);
        assert(d =~= seq![(48 + n) as u8]);
        lemma_dval_singleton((48 + n) as u8);
        assert((48 + n) as u8 == 48 + n);
        assert(dval(d) == n);
    } else {
        lemma_dec_digits_val(n / 10);
        let d = dec_digits(n);
        assert(d.drop_last() =~= dec_digits(n / 10));
        assert(d.last() == (48 + n % 10) as u8);
        assert((48 + n % 10) as u8 == 48 + n % 10);
        assert(dval(d) == (n / 10) * 10 + n % 10);
        assert((n / 10) * 10 + n % 10 == n) by (nonlinear_arith);
        assert(d[0] == dec_digits(n / 10)[0]);
        assert forall|i: int| 0 <= i < d.len() implies is_digit(#[trigger] d[i]) by {
            if i < d.len() - 1 {
                assert(d[i] == dec_digits(n / 10)[i]);
            }
        }
    }
}

/// Parsing the canonical rendering of any `i64` gives back the value.
pub proof fn lemma_parse_dec_of_int(v: i64)
    ensures
        spec_parse_i64(dec_of_int(v as int)) == Some(v),
{
    if v < 0 {
        let m = (-(v as int)) as nat;
        lemma_dec_digits_val(m);
        let s = dec_of_int(v as int);
        assert(s[0] == B_MINUS);
        assert(s.drop_first() =~= dec_digits(m));
    } else {
        lemma_dec_digits_val(v as nat);
    }
}

/// Appends the canonical digits of `n` to `out`.
fn push_dec_digits(n: u64, out: &mut Vec<u8>)
    ensures
        final(out)@ == old(out)@ + dec_digits(n as nat),
    decreases n,
{
    if n < 10 {
        out.push(48 + n as u8);
        assert(out@ =~= old(out)@ + dec_digits(n as nat));
    } else {
        push_dec_digits(n / 10, out);
        out.push(48 + (n % 10) as u8);
        assert(out@ =~= old(out)@ + dec_digits(n as nat));
    }
}

/// Appends the canonical decimal rendering of `v` to `out`.
pub fn push_dec_i64(v: i64, out: &mut Vec<u8>)
    ensures
        final(out)@ == old(out)@ + dec_of_int(v as int),
{
    if v < 0 {
        out.push(B_MINUS);
        let ghost mid = out@;
        // i64::MIN has no i64-representable negation; widen first.
        let m: u64 = (-(v as i128)) as u64;
        assert(m as nat == (-(v as int)) as nat);
        push_dec_digits(m, out);
        assert(out@ =~= old(out)@ + dec_of_int(v as int));
    } else {
        push_dec_digits(v as u64, out);
    }
}

/// Parses a byte string as an `i64`, exactly as `spec_parse_i64` says.
#[verifier::loop_isolation(false)]
pub fn parse_i64_bytes(s: &Vec<u8>) -> (r: Option<i64>)
    ensures
        r == spec_parse_i64(s@),
{
    if s.len() == 0 {
        return None;
    }
    let first = s[0];
    let neg = first == B_MINUS;
    let signed = neg || first == B_PLUS;
    let start: usize = if signed {
        1
    } else {
        0
    };
    let ghost ds = if signed {
        s@.drop_first()
    } else {
        s@
    };
    assert(ds =~= s@.subrange(start as int, s@.len() as int));
    // every byte from `start` on must be a digit
    let mut i: usize = start;
    while i < s.len()
        invariant
            start <= i <= s@.len(),
            ds == s@.subrange(start as int, s@.len() as int),
            forall|j: int| start <= j < i ==> is_digit(#[trigger] s@[j]),
        decreases s@.len() - i,
    {
        let b = s[i];
        if b < 48 || b > 57 {
            assert(ds[i - start] == s@[i as int]);
            assert(!digits_ok(ds));
            return None;
        }
        i += 1;
    }
    if s.len() == start {
        assert(!digits_ok(ds));
        return None;
    }
    assert forall|j: int| 0 <= j < ds.len() implies is_digit(#[trigger] ds[j]) by {
        assert(ds[j] == s@[j + start]);
    }
    assert(digits_ok(ds));
    // skip leading zeros
    let mut z: usize = start;
    while z < s.len() && s[z] == B_ZERO
        invariant
            start <= z <= s@.len(),
            ds == s@.subrange(start as int, s@.len() as int),
            digits_ok(ds),
            dval(ds) == dval(s@.subrange(z as int, s@.len() as int)),
        decreases s@.len() - z,
    {
        proof {
            let cur = s@.subrange(z as int, s@.len() as int);
            lemma_dval_drop_leading_zero(cur);
            assert(cur.drop_first() =~= s@.subrange(z as int + 1, s@.len() as int));
        }
        z += 1;
    }
    let ghost t = s@.subrange(z as int, s@.len() as int);
    let len_t: usize = s.len() - z;
    proof {
        lemma_pow10_19();
        assert forall|j: int| 0 <= j < t.len() implies is_digit(#[trigger] t[j]) by {
            assert(t[j] == s@[j + z]);
        }
        lemma_dval_nonneg(t);
    }
    if len_t > 19 {
        // at least 20 significant digits: out of the i64 range either way
        proof {
            assert(t[0] == s@[z as int]);
            assert(t[0] != B_ZERO);
            lemma_dval_lower(t);
            lemma_pow10_monotonic(19, (t.len() - 1) as nat);
        }
        return None;
    }
    let mut acc: u64 = 0;
    let mut k: usize = z;
    while k < s.len()
        invariant
            z <= k <= s@.len(),
            t == s@.subrange(z as int, s@.len() as int),
            s@.len() - z <= 19,
            digits_ok(ds),
            forall|j: int| z <= j < s@.len() ==> is_digit(#[trigger] s@[j]),
            acc as int == dval(s@.subrange(z as int, k as int)),
            acc < pow10((k - z) as nat),
            pow10(19) == 10_000_000_000_000_000_000,
        decreases s@.len() - k,
    {
        proof {
            lemma_pow10_monotonic((k - z + 1) as nat, 19);
            let pre = s@.subrange(z as int, k as int + 1);
            assert(pre.drop_last() =~= s@.subrange(z as int, k as int));
            lemma_dval_nonneg(pre.drop_last());
        }
        let b = s[k];
        acc = acc * 10 + (b - 48) as u64;
        k += 1;
    }
    assert(acc as int == dval(t));
    assert(dval(ds) == dval(t));
    if neg {
        if acc > 9_223_372_036_854_775_808u64 {
            return None;
        }
        if acc == 9_223_372_036_854_775_808u64 {
            return Some(i64::MIN);
        }
        Some(-(acc as i64))
    } else {
        if acc > 9_223_372_036_854_775_807u64 {
            return None;
        }
        Some(acc as i64)
    }
}

pub proof fn lemma_pow10_monotonic(a: nat, b: nat)
    requires
        a <= b,
    ensures
        pow10(a) <= pow10(b),
    decreases b,
{
    if a < b {
        lemma_pow10_monotonic(a, (b - 1) as nat);
        lemma_pow10_pos((b - 1) as nat);
    }
}

pub proof fn lemma_pow10_pos(n: nat)
    ensures
        pow10(n) >= 1,
    decreases n,
{
    if n > 0 {
        lemma_pow10_pos((n - 1) as nat);
    }
}

} // verus!
