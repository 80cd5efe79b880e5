//! Canonical decimal encoding of unsigned integers, and its parser.
//!
//! Values, record checksums and SST ids all appear on disk as decimal
//! numerals without leading zeros; round-trip lemmas here back the proofs
//! about the record formats.

use vstd::prelude::*;

verus! {

pub open spec fn is_digit(b: u8) -> bool {
    48 <= b <= 57
}

/// Canonical decimal digits of `n`, most significant first.
pub open spec fn dec_spec(n: nat) -> Seq<u8>
    decreases n,
{
    if n < 10 {
        seq![(48 + n) as u8]
    } else {
        dec_spec(n / 10).push((48 + n % 10) as u8)
    }
}

/// Numeric value of a digit string (most significant first).
pub open spec fn dec_val(s: Seq<u8>) -> int
    decreases s.len(),
{
    if s.len() == 0 {
        0
    } else {
        dec_val(s.drop_last()) * 10 + (s.last() - 48)
    }
}

pub open spec fn all_digits(s: Seq<u8>) -> bool {
    forall|i: int| 0 <= i < s.len() ==> is_digit(#[trigger] s[i])
}

pub open spec fn pow10(k: nat) -> int
    decreases k,
{
    if k == 0 {
        1
    } else {
        10 * pow10((k - 1) as nat)
    }
}

pub proof fn lemma_dec_spec_digits(n: nat)
    ensures
        dec_spec(n).len() >= 1,
        all_digits(dec_spec(n)),
        n > 0 ==> dec_spec(n)[0] != 48,
        n == 0 ==> dec_spec(n) =~= seq![48u8],
    decreases n,
{
    if n >= 10 {
        lemma_dec_spec_digits(n / 10);
        assert(dec_spec(n) == dec_spec(n / 10).push((48 + n % 10) as u8));
        assert forall|i: int| 0 <= i < dec_spec(n).len() implies is_digit(
            #[trigger] dec_spec(n)[i],
        ) by {
            if i < dec_spec(n / 10).len() {
                assert(dec_spec(n)[i] == dec_spec(n / 10)[i]);
            }
        }
    }
}

pub proof fn lemma_dec_val_single(d: u8)
    ensures
        dec_val(seq![d]) == d - 48,
{
    assert(seq![d].drop_last() =~= Seq::<u8>::empty());
    assert(dec_val(Seq::<u8>::empty()) == 0);
    assert(seq![d].last() == d);
}

pub proof fn lemma_dec_val_round(n: nat)
    ensures
        dec_val(dec_spec(n)) == n,
    decreases n,
{
    if n < 10 {
        assert(dec_spec(n) == seq![(48 + n) as u8]);
        lemma_dec_val_single((48 + n) as u8);
        assert(((48 + n) as u8) == 48 + n);
    } else {
        lemma_dec_val_round(n / 10);
        assert(dec_spec(n).drop_last() =~= dec_spec(n / 10));
        assert(dec_val(dec_spec(n)) == dec_val(dec_spec(n / 10)) * 10 + n % 10);
    }
}

pub proof fn lemma_dec_val_upper(s: Seq<u8>)
    requires
        all_digits(s),
    ensures
        0 <= dec_val(s) < pow10(s.len()),
    decreases s.len(),
{
    if s.len() > 0 {
        assert(all_digits(s.drop_last())) by {
            assert(forall|i: int|
                0 <= i < s.drop_last().len() ==> #[trigger] s.drop_last()[i] == s[i]);
        }
        lemma_dec_val_upper(s.drop_last());
        assert(is_digit(s.last()));
    }
}

pub proof fn lemma_dec_val_lower(s: Seq<u8>)
    requires
        all_digits(s),
        s.len() >= 1,
        s[0] != 48,
    ensures
        dec_val(s) >= pow10((s.len() - 1) as nat),
    decreases s.len(),
{
    if s.len() == 1 {
        assert(is_digit(s[0]));
        assert(s =~= seq![s[0]]);
        lemma_dec_val_single(s[0]);
    } else {
        assert(all_digits(s.drop_last())) by {
            assert(forall|i: int|
                0 <= i < s.drop_last().len() ==> #[trigger] s.drop_last()[i] == s[i]);
        }
        assert(s.drop_last()[0] == s[0]);
        lemma_dec_val_lower(s.drop_last());
        assert(is_digit(s.last()));
    }
}

/// A canonical digit string is recovered exactly from its value.
pub proof fn lemma_dec_canonical(s: Seq<u8>)
    requires
        all_digits(s),
        s.len() >= 1,
        s.len() > 1 ==> s[0] != 48,
    ensures
        dec_val(s) >= 0,
        dec_spec(dec_val(s) as nat) =~= s,
    decreases s.len(),
{
    lemma_dec_val_upper(s);
    if s.len() == 1 {
        assert(s =~= seq![s[0]]);
        lemma_dec_val_single(s[0]);
        assert(dec_val(s) == s[0] - 48);
        assert(dec_spec((s[0] - 48) as nat) =~= seq![s[0]]);
    } else {
        let hd = s.drop_last();
        assert(all_digits(hd)) by {
            assert(forall|i: int| 0 <= i < hd.len() ==> #[trigger] hd[i] == s[i]);
        }
        assert(hd[0] == s[0]);
        lemma_dec_canonical(hd);
        lemma_dec_val_lower(hd);
        assert(pow10((hd.len() - 1) as nat) >= 1) by {
            lemma_pow10_pos((hd.len() - 1) as nat);
        }
        let v = dec_val(s);
        let hv = dec_val(hd);
        assert(v == hv * 10 + (s.last() - 48));
        assert(hv >= 1);
        assert(v >= 10);
        assert(v / 10 == hv && v % 10 == s.last() - 48) by {
            assert(0 <= s.last() - 48 < 10);
        }
        assert(dec_spec(v as nat) == dec_spec(hv as nat).push((48 + v as nat % 10) as u8));
    }
}

pub proof fn lemma_pow10_pos(k: nat)
    ensures
        pow10(k) >= 1,
    decreases k,
{
    if k > 0 {
        lemma_pow10_pos((k - 1) as nat);
    }
}

/// End of the run of digits starting at `i`.
pub open spec fn digit_run_end(s: Seq<u8>, i: nat) -> nat
    decreases s.len() - i,
{
    if i < s.len() && is_digit(s[i as int]) {
        digit_run_end(s, i + 1)
    } else {
        i
    }
}

pub proof fn lemma_digit_run_end(s: Seq<u8>, i: nat, j: nat)
    requires
        i <= j <= s.len(),
        forall|m: int| i <= m < j ==> is_digit(#[trigger] s[m]),
        j == s.len() || !is_digit(s[j as int]),
    ensures
        digit_run_end(s, i) == j,
    decreases j - i,
{
    if i < j {
        lemma_digit_run_end(s, i + 1, j);
    }
}

pub proof fn lemma_digit_run_skip(s: Seq<u8>, i: nat, j: nat)
    requires
        i <= j <= s.len(),
        forall|m: int| i <= m < j ==> is_digit(#[trigger] s[m]),
    ensures
        digit_run_end(s, i) == digit_run_end(s, j),
    decreases j - i,
{
    if i < j {
        lemma_digit_run_skip(s, i + 1, j);
    }
}

pub proof fn lemma_digit_run_props(s: Seq<u8>, i: nat)
    requires
        i <= s.len(),
    ensures
        i <= digit_run_end(s, i) <= s.len(),
        forall|m: int| i <= m < digit_run_end(s, i) ==> is_digit(#[trigger] s[m]),
        digit_run_end(s, i) == s.len() || !is_digit(s[digit_run_end(s, i) as int]),
    decreases s.len() - i,
{
    if i < s.len() && is_digit(s[i as int]) {
        lemma_digit_run_props(s, i + 1);
    }
}

/// Result of parsing a canonical decimal numeral at position `i`:
/// the value (at most `max`) and the position just past the digits.
pub open spec fn parse_dec_spec(s: Seq<u8>, i: nat, max: u64) -> Option<(u64, nat)> {
    let j = digit_run_end(s, i);
    if j == i {
        None
    } else if s[i as int] == 48 && j > i + 1 {
        None
    } else if dec_val(s.subrange(i as int, j as int)) > max {
        None
    } else {
        Some((dec_val(s.subrange(i as int, j as int)) as u64, j))
    }
}

pub proof fn lemma_parse_dec_sound(s: Seq<u8>, i: nat, max: u64, v: u64, j: nat)
    requires
        i <= s.len(),
        parse_dec_spec(s, i, max) == Some((v, j)),
    ensures
        i < j <= s.len(),
        s.subrange(i as int, j as int) =~= dec_spec(v as nat),
        v <= max,
        j == s.len() || !is_digit(s[j as int]),
{
    lemma_digit_run_props(s, i);
    let r = s.subrange(i as int, j as int);
    assert(all_digits(r)) by {
        assert(forall|m: int| 0 <= m < r.len() ==> #[trigger] r[m] == s[i + m]);
    }
    assert(r[0] == s[i as int]);
    lemma_dec_canonical(r);
}

/// Parsing succeeds on a canonical numeral followed by a non-digit.
pub proof fn lemma_parse_dec_complete(s: Seq<u8>, i: nat, max: u64, n: u64)
    requires
        n <= max,
        i + dec_spec(n as nat).len() <= s.len(),
        s.subrange(i as int, i + dec_spec(n as nat).len() as int) == dec_spec(n as nat),
        i + dec_spec(n as nat).len() == s.len() || !is_digit(
            s[i + dec_spec(n as nat).len() as int],
        ),
    ensures
        parse_dec_spec(s, i, max) == Some((n, (i + dec_spec(n as nat).len()) as nat)),
{
    let d = dec_spec(n as nat);
    let j = (i + d.len()) as nat;
    lemma_dec_spec_digits(n as nat);
    assert(forall|m: int| i <= m < j ==> #[trigger] s[m] == d[m - i]);
    lemma_digit_run_end(s, i, j);
    lemma_dec_val_round(n as nat);
    assert(s.subrange(i as int, j as int) == d);
    assert(s[i as int] == d[0]);
    if n >= 10 {
        assert(d[0] != 48);
    } else {
        assert(d.len() == 1);
    }
}

/// Parse a canonical decimal numeral bounded by `max` at position `i`.
pub fn parse_dec(s: &Vec<u8>, i: usize, max: u64) -> (r: Option<(u64, usize)>)
    requires
        i <= s@.len(),
        max <= 1_000_000_000_000_000_000,
    ensures
        match r {
            Some((v, j)) => parse_dec_spec(s@, i as nat, max) == Some((v, j as nat)),
            None => parse_dec_spec(s@, i as nat, max) is None,
        },
{
    proof {
        lemma_digit_run_props(s@, i as nat);
    }
    let ghost jj = digit_run_end(s@, i as nat);
    // find the end of the digit run
    let mut j: usize = i;
    while j < s.len() && 48 <= s[j] && s[j] <= 57
        invariant
            i <= j <= s@.len(),
            jj == digit_run_end(s@, i as nat),
            forall|m: int| i <= m < j ==> is_digit(#[trigger] s@[m]),
        decreases s@.len() - j,
    {
        j = j + 1;
    }
    proof {
        lemma_digit_run_skip(s@, i as nat, j as nat);
        assert(jj == j);
    }
    if j == i {
        return None;
    }
    if s[i] == 48 && j > i + 1 {
        return None;
    }
    if j - i > 19 {
        // a canonical numeral this long exceeds any permitted bound
        proof {
            let r = s@.subrange(i as int, j as int);
            assert(all_digits(r)) by {
                assert(forall|m: int| 0 <= m < r.len() ==> #[trigger] r[m] == s@[i + m]);
            }
            assert(r[0] == s@[i as int]);
            assert(r[0] != 48);
            lemma_dec_val_lower(r);
            lemma_pow10_mono(19, (r.len() - 1) as nat);
            reveal_with_fuel(pow10, 21);
            assert(pow10(19) == 10_000_000_000_000_000_000);
        }
        return None;
    }
    // accumulate the value, rejecting once it exceeds max
    let mut acc: u64 = 0;
    let mut t: usize = i;
    while t < j
        invariant
            i <= t <= j <= s@.len(),
            jj == digit_run_end(s@, i as nat),
            jj == j,
            forall|m: int| i <= m < j ==> is_digit(#[trigger] s@[m]),
            max <= 1_000_000_000_000_000_000,
            acc == dec_val(s@.subrange(i as int, t as int)),
            acc <= max,
        decreases j - t,
    {
        let d: u8 = s[t] - 48;
        proof {
            assert(s@.subrange(i as int, t as int + 1).drop_last() =~= s@.subrange(
                i as int,
                t as int,
            ));
            assert(s@.subrange(i as int, t as int + 1).last() == s@[t as int]);
        }
        let next: u64 = acc * 10 + (d as u64);
        if next > max {
            proof {
                lemma_dec_val_shift(s@, i as int, t as int + 1, j as int);
            }
            return None;
        }
        acc = next;
        t = t + 1;
    }
    Some((acc, j))
}

pub proof fn lemma_pow10_mono(a: nat, b: nat)
    requires
        a <= b,
    ensures
        pow10(a) <= pow10(b),
    decreases b,
{
    if a < b {
        lemma_pow10_mono(a, (b - 1) as nat);
        lemma_pow10_pos((b - 1) as nat);
    }
}

/// If a prefix of the digit run already exceeds a bound, the full run does too.
pub proof fn lemma_dec_val_shift(s: Seq<u8>, i: int, t: int, j: int)
    requires
        0 <= i <= t <= j <= s.len(),
        forall|m: int| i <= m < j ==> is_digit(#[trigger] s[m]),
    ensures
        dec_val(s.subrange(i, t)) <= dec_val(s.subrange(i, j)),
    decreases j - t,
{
    if t < j {
        lemma_dec_val_shift(s, i, t + 1, j);
        assert(s.subrange(i, t + 1).drop_last() =~= s.subrange(i, t));
        assert(s.subrange(i, t + 1).last() == s[t]);
        assert(is_digit(s[t]));
        let a = dec_val(s.subrange(i, t));
        assert(a >= 0) by {
            assert(all_digits(s.subrange(i, t))) by {
                assert(forall|m: int|
                    0 <= m < t - i ==> #[trigger] s.subrange(i, t)[m] == s[i + m]);
            }
            lemma_dec_val_upper(s.subrange(i, t));
        }
        assert(dec_val(s.subrange(i, t + 1)) == a * 10 + (s[t] - 48));
    }
}

/// Render `n` as canonical decimal digits.
pub fn u64_to_dec(n: u64) -> (v: Vec<u8>)
    ensures
        v@ == dec_spec(n as nat),
    decreases n,
{
    if n < 10 {
        let mut v: Vec<u8> = Vec::new();
        v.push(48 + (n as u8));
        proof {
            assert(v@ =~= dec_spec(n as nat));
        }
        v
    } else {
        let mut v = u64_to_dec(n / 10);
        v.push(48 + ((n % 10) as u8));
        proof {
            assert(v@ =~= dec_spec(n as nat));
        }
        v
    }
}

} // verus!
