use vstd::prelude::*;

verus! {

/// Success scores are fixed-point decimals with six fractional digits
/// ("micros"): the score 1.0 is stored as `SCORE_ONE` micros.
pub const SCORE_ONE: i64 = 1_000_000;

/// Largest magnitude, in micros, that a parsed score may have (one billion
/// in ordinary units). Decimal text whose value lies outside this range is
/// rejected by `Score::parse_decimal`.
pub const SCORE_LIMIT: i64 = 1_000_000_000_000_000;

/// A success score: a decimal number held in micros (millionths).
#[derive(Clone, Copy, Debug, PartialEq, Eq, Structural)]
pub struct Score {
    pub micros: i64,
}

/// True when a byte is an ASCII decimal digit.
pub open spec fn is_digit(b: u8) -> bool {
    48 <= b <= 57
}

/// True when every byte of `s` is an ASCII decimal digit.
pub open spec fn all_digits(s: Seq<u8>) -> bool {
    forall|i: int| 0 <= i < s.len() ==> is_digit(#[trigger] s[i])
}

/// The non-negative integer written by a sequence of ASCII digits
/// (most significant first); 0 for the empty sequence.
pub open spec fn digits_val(s: Seq<u8>) -> int
    decreases s.len(),
{
    if s.len() == 0 {
        0
    } else {
        digits_val(s.drop_last()) * 10 + (s.last() - 48)
    }
}

/// Ten to the power `n`.
pub open spec fn pow10(n: nat) -> int
    decreases n,
{
    if n == 0 {
        1
    } else {
        10 * pow10((n - 1) as nat)
    }
}

/// The integer part of `digits * 10^(p - digits.len())`, where `digits` is
/// read as a decimal fraction scaled so that its first `p` positions lie
/// before the point: positions past the end of `digits` read as zeros, and
/// positions past `p` are cut off (truncation toward zero).
pub open spec fn shifted_val(ds: Seq<u8>, p: int) -> int {
    if p <= 0 {
        0
    } else if p <= ds.len() {
        digits_val(ds.take(p))
    } else {
        digits_val(ds) * pow10((p - ds.len()) as nat)
    }
}

/// The index just after the run of ASCII digits that starts at `i`.
pub open spec fn scan_digits(s: Seq<u8>, i: int) -> int
    decreases s.len() - i,
{
    if 0 <= i < s.len() && is_digit(s[i]) {
        scan_digits(s, i + 1)
    } else {
        i
    }
}

/// The shape of decimal text `s`: `None` when `s` does not match the
/// grammar `sign? digits ('.' digits?)? exp?` or `sign? '.' digits exp?`
/// with `exp = ('e'|'E') sign? digits`; otherwise the sign, the digit
/// string (integer digits then fraction digits), and the position of the
/// micros point: `count of integer digits + exponent + 6`.
#[verifier::opaque]
pub open spec fn dec_grammar(s: Seq<u8>) -> Option<(bool, Seq<u8>, int)> {
    let neg = s.len() > 0 && s[0] == 45;
    let has_sign = s.len() > 0 && (s[0] == 43 || s[0] == 45);
    let i1: int = if has_sign { 1 } else { 0 };
    let i2 = scan_digits(s, i1);
    let has_dot = i2 < s.len() && s[i2] == 46;
    let fstart: int = if has_dot { i2 + 1 } else { i2 };
    let i3 = scan_digits(s, fstart);
    if i2 == i1 && i3 == fstart {
        None
    } else {
        let has_exp = i3 < s.len() && (s[i3] == 101 || s[i3] == 69);
        let e_neg = has_exp && i3 + 1 < s.len() && s[i3 + 1] == 45;
        let e_sign = has_exp && i3 + 1 < s.len() && (s[i3 + 1] == 43 || s[i3 + 1] == 45);
        let estart: int = if e_sign { i3 + 2 } else { i3 + 1 };
        let i4: int = if has_exp { scan_digits(s, estart) } else { i3 };
        if has_exp && i4 == estart {
            None
        } else if i4 != s.len() {
            None
        } else {
            let e: int = if has_exp {
                if e_neg { -digits_val(s.subrange(estart, i4)) } else { digits_val(s.subrange(estart, i4)) }
            } else { 0 };
            let ds = s.subrange(i1, i2) + s.subrange(fstart, i3);
            Some((neg, ds, (i2 - i1) + e + 6))
        }
    }
}

/// The micros value written by decimal text `s`, or `None` when `s` is not
/// a decimal number or its value lies outside `SCORE_LIMIT`. The value is
/// truncated toward zero at the sixth fractional digit.
pub open spec fn spec_parse_decimal(s: Seq<u8>) -> Option<int> {
    match dec_grammar(s) {
        None => None,
        Some((neg, ds, p)) => {
            let m: int = if neg { -shifted_val(ds, p) } else { shifted_val(ds, p) };
            if -(SCORE_LIMIT as int) <= m <= SCORE_LIMIT as int { Some(m) } else { None }
        },
    }
}

proof fn lemma_dv_nonneg(s: Seq<u8>)
    requires all_digits(s),
    ensures digits_val(s) >= 0,
    decreases s.len(),
{
    if s.len() > 0 {
        assert(is_digit(s[s.len() - 1]));
        lemma_dv_nonneg(s.drop_last());
    }
}

pub(crate) proof fn lemma_dv_take_succ(s: Seq<u8>, k: int)
    requires 0 <= k < s.len(),
    ensures digits_val(s.take(k + 1)) == digits_val(s.take(k)) * 10 + (s[k] - 48),
{
    assert(s.take(k + 1).drop_last() =~= s.take(k));
    assert(s.take(k + 1).last() == s[k]);
}

pub(crate) proof fn lemma_dv_prefix_le_pub(s: Seq<u8>, a: int, b: int)
    requires all_digits(s), 0 <= a <= b <= s.len(),
    ensures digits_val(s.take(a)) <= digits_val(s.take(b)),
    decreases b - a,
{
    if a < b {
        lemma_dv_prefix_le_pub(s, a, b - 1);
        lemma_dv_take_succ(s, b - 1);
        assert(all_digits(s.take(b - 1))) by {
            assert(forall|i: int| 0 <= i < b - 1 ==> s.take(b - 1)[i] == s[i]);
        }
        lemma_dv_nonneg(s.take(b - 1));
        assert(is_digit(s[b - 1]));
    }
}

proof fn lemma_pow10_pos(n: nat)
    ensures pow10(n) >= 1,
    decreases n,
{
    if n > 0 {
        lemma_pow10_pos((n - 1) as nat);
    }
}

proof fn lemma_pow10_mono(a: nat, b: nat)
    requires a <= b,
    ensures pow10(a) <= pow10(b),
    decreases b - a,
{
    if a < b {
        lemma_pow10_mono(a, (b - 1) as nat);
        lemma_pow10_pos((b - 1) as nat);
    }
}

proof fn lemma_dv_zero_iff(s: Seq<u8>)
    requires all_digits(s),
    ensures digits_val(s) == 0 <==> (forall|i: int| 0 <= i < s.len() ==> s[i] == 48),
    decreases s.len(),
{
    if s.len() > 0 {
        assert(all_digits(s.drop_last())) by {
            assert(forall|i: int| 0 <= i < s.len() - 1 ==> s.drop_last()[i] == s[i]);
        }
        lemma_dv_zero_iff(s.drop_last());
        lemma_dv_nonneg(s.drop_last());
        assert(is_digit(s.last()));
        if digits_val(s) == 0 {
            assert(digits_val(s.drop_last()) == 0 && s.last() == 48);
            assert(forall|i: int| 0 <= i < s.len() - 1 ==> s[i] == s.drop_last()[i]);
        } else {
            if forall|i: int| 0 <= i < s.len() ==> s[i] == 48 {
                assert(forall|i: int| 0 <= i < s.len() - 1 ==> s.drop_last()[i] == s[i]);
                assert(digits_val(s.drop_last()) == 0);
                assert(s.last() == 48);
                assert(false);
            }
        }
    }
}

/// When every digit of `s` within the scanned runs is a digit, the scanned
/// run really is one: bounds and digit content of `scan_digits`.
pub(crate) proof fn lemma_scan_digits_bounds(s: Seq<u8>, i: int)
    requires 0 <= i <= s.len(),
    ensures
        i <= scan_digits(s, i) <= s.len(),
        forall|k: int| i <= k < scan_digits(s, i) ==> is_digit(#[trigger] s[k]),
        scan_digits(s, i) == s.len() || !is_digit(s[scan_digits(s, i)]),
    decreases s.len() - i,
{
    if i < s.len() && is_digit(s[i]) {
        lemma_scan_digits_bounds(s, i + 1);
    }
}

/// The exclusive end of the run of ASCII digits starting at `i`.
pub(crate) fn scan_run(s: &[u8], i: usize) -> (r: usize)
    requires i <= s@.len(),
    ensures
        r as int == scan_digits(s@, i as int),
        i <= r <= s@.len(),
{
    let n = s.len();
    let mut j = i;
    while j < n && 48 <= s[j] && s[j] <= 57
        invariant
            i <= j <= n,
            n == s@.len(),
            scan_digits(s@, i as int) == scan_digits(s@, j as int),
        decreases n - j,
    {
        j = j + 1;
    }
    proof {
        lemma_scan_digits_bounds(s@, j as int);
    }
    j
}

impl Score {
    /// True when the score's magnitude stays within `SCORE_LIMIT` micros.
    pub open spec fn wf(self) -> bool {
        -SCORE_LIMIT <= self.micros <= SCORE_LIMIT
    }

    /// The score written by the decimal text `s`, in micros truncated toward
    /// zero at the sixth fractional digit, or `None` when `s` is not a
    /// decimal number or lies outside `SCORE_LIMIT`.
    #[verifier::rlimit(100)]
    pub fn parse_decimal(s: &[u8]) -> (r: Option<Score>)
        ensures
            match r {
                Some(sc) => spec_parse_decimal(s@) == Some(sc.micros as int) && sc.wf(),
                None => spec_parse_decimal(s@) is None,
            },
    {
        let n = s.len();
        let has_sign = n > 0 && (s[0] == 43 || s[0] == 45);
        let neg = n > 0 && s[0] == 45;
        let i1: usize = if has_sign { 1 } else { 0 };
        let i2 = scan_run(s, i1);
        let has_dot = i2 < n && s[i2] == 46;
        let fstart: usize = if has_dot { i2 + 1 } else { i2 };
        let i3 = scan_run(s, fstart);
        if i2 == i1 && i3 == fstart {
            proof {
                assert(dec_grammar(s@) is None) by { reveal(dec_grammar); }
            }
            return None;
        }
        let has_exp = i3 < n && (s[i3] == 101 || s[i3] == 69);
        let e_neg = has_exp && i3 + 1 < n && s[i3 + 1] == 45;
        let e_sign = has_exp && i3 + 1 < n && (s[i3 + 1] == 43 || s[i3 + 1] == 45);
        let estart: usize = if !has_exp { 0 } else if e_sign { i3 + 2 } else { i3 + 1 };
        let i4: usize = if has_exp { scan_run(s, estart) } else { i3 };
        if has_exp && i4 == estart {
            proof {
                assert(dec_grammar(s@) is None) by { reveal(dec_grammar); }
            }
            return None;
        }
        if i4 != n {
            proof {
                assert(dec_grammar(s@) is None) by { reveal(dec_grammar); }
            }
            return None;
        }
        let ghost e: int = if has_exp {
            if e_neg { -digits_val(s@.subrange(estart as int, i4 as int)) }
            else { digits_val(s@.subrange(estart as int, i4 as int)) }
        } else { 0 };

        let ev: i128;
        if has_exp {
            proof {
                lemma_scan_digits_bounds(s@, estart as int);
            }
            ev = exp_value(s, estart, i4);
        } else {
            ev = 0;
        }

        let mut ds: Vec<u8> = Vec::new();
        collect_range(s, i1, i2, &mut ds);
        let int_len = ds.len();
        collect_range(s, fstart, i3, &mut ds);
        let ghost dsq = s@.subrange(i1 as int, i2 as int) + s@.subrange(fstart as int, i3 as int);
        proof {
            assert(ds@ =~= dsq);
            lemma_scanned_digits(s@, i1 as int, i2 as int, fstart as int, i3 as int);
        }

        let ghost p_true: int = (i2 - i1) + e + 6;
        let ghost m_abs: int = shifted_val(dsq, p_true);
        proof {
            assert(dec_grammar(s@) == Some((neg, dsq, p_true))) by { reveal(dec_grammar); }
        }

        // Exponents too large for the saturated counter: the value is 0,
        // or lies far outside the limit.
        if has_exp && ev == EXP_SAT {
            proof {
                if e_neg {
                    assert(e <= -EXP_SAT);
                } else {
                    assert(e >= EXP_SAT);
                }
            }
            return huge_exponent_value(&ds, neg, e_neg, Ghost(p_true));
        }
        let e_exec: i128 = if has_exp { if e_neg { -ev } else { ev } } else { 0 };
        let p: i128 = (int_len as i128) + e_exec + 6;
        proof {
            assert(e_exec as int == e);
            assert(p as int == p_true);
        }
        signed_shifted(&ds, p, neg)
    }
}

/// The saturation point for exponent values: far beyond any position a
/// digit string held in memory can have.
const EXP_SAT: i128 = 10_000_000_000_000_000_000_000_000;

/// The value of the run of digits at `[a, b)`, saturated at `EXP_SAT`.
fn exp_value(s: &[u8], a: usize, b: usize) -> (r: i128)
    requires
        a <= b <= s@.len(),
        forall|t: int| a <= t < b ==> is_digit(#[trigger] s@[t]),
    ensures
        0 <= r <= EXP_SAT,
        r < EXP_SAT ==> r == digits_val(s@.subrange(a as int, b as int)),
        r == EXP_SAT ==> digits_val(s@.subrange(a as int, b as int)) >= EXP_SAT,
{
    let mut ev: i128 = 0;
    let mut k = a;
    while k < b
        invariant
            a <= k <= b <= s@.len(),
            forall|t: int| a <= t < b ==> is_digit(#[trigger] s@[t]),
            0 <= ev <= EXP_SAT,
            ev < EXP_SAT ==> ev == digits_val(s@.subrange(a as int, k as int)),
            ev == EXP_SAT ==> digits_val(s@.subrange(a as int, k as int)) >= EXP_SAT,
        decreases b - k,
    {
        let d = s[k];
        proof {
            let pre = s@.subrange(a as int, k as int);
            let post = s@.subrange(a as int, k as int + 1);
            assert(post.drop_last() =~= pre);
            assert(post.last() == s@[k as int]);
            assert(all_digits(pre)) by {
                assert(forall|t: int| 0 <= t < pre.len() ==> pre[t] == s@[a + t]);
            }
            lemma_dv_nonneg(pre);
        }
        if ev >= 1_000_000_000_000_000_000_000_000 {
            ev = EXP_SAT;
        } else {
            ev = ev * 10 + ((d - 48) as i128);
            if ev > EXP_SAT {
                ev = EXP_SAT;
            }
        }
        k = k + 1;
    }
    ev
}

/// Appends the bytes of `s` at `[a, b)` to `out`.
pub(crate) fn collect_range(s: &[u8], a: usize, b: usize, out: &mut Vec<u8>)
    requires
        a <= b <= s@.len(),
    ensures
        final(out)@ == old(out)@ + s@.subrange(a as int, b as int),
{
    let mut k = a;
    while k < b
        invariant
            a <= k <= b <= s@.len(),
            out@ =~= old(out)@ + s@.subrange(a as int, k as int),
        decreases b - k,
    {
        out.push(s[k]);
        proof {
            assert(out@ =~= old(out)@ + s@.subrange(a as int, k as int + 1));
        }
        k = k + 1;
    }
    proof {
        assert(out@ =~= old(out)@ + s@.subrange(a as int, b as int));
    }
}

/// The signed, range-checked value of a digit string whose point position
/// lies far outside the digits: 0 when the point sits at or before the
/// start or when every digit is zero, and out of range otherwise.
fn huge_exponent_value(ds: &Vec<u8>, neg: bool, e_down: bool, Ghost(p): Ghost<int>) -> (r: Option<Score>)
    requires
        all_digits(ds@),
        e_down ==> p <= 0,
        !e_down ==> p > ds@.len() + 17,
    ensures
        ({
            let m: int = if neg { -shifted_val(ds@, p) } else { shifted_val(ds@, p) };
            match r {
                Some(sc) => m == sc.micros as int && sc.wf(),
                None => !(-(SCORE_LIMIT as int) <= m <= SCORE_LIMIT as int),
            }
        }),
{
    if e_down {
        return Some(Score { micros: 0 });
    }
    if digits_all_zero(ds) {
        proof {
            lemma_dv_zero_iff(ds@);
            lemma_shifted_of_zero(ds@, p);
        }
        Some(Score { micros: 0 })
    } else {
        proof {
            lemma_dv_zero_iff(ds@);
            lemma_dv_nonneg(ds@);
            lemma_shifted_huge(ds@, p);
        }
        None
    }
}

/// True when every byte of `ds` is the digit zero.
fn digits_all_zero(ds: &Vec<u8>) -> (r: bool)
    ensures
        r <==> (forall|t: int| 0 <= t < ds@.len() ==> ds@[t] == 48),
{
    let mut all0 = true;
    let mut k: usize = 0;
    while k < ds.len()
        invariant
            0 <= k <= ds@.len(),
            all0 <==> (forall|t: int| 0 <= t < k ==> ds@[t] == 48),
        decreases ds@.len() - k,
    {
        if ds[k] != 48 {
            all0 = false;
        }
        k = k + 1;
    }
    all0
}

/// A digit string of zeros has shifted value zero at any point position.
proof fn lemma_shifted_of_zero(ds: Seq<u8>, p: int)
    requires
        all_digits(ds),
        digits_val(ds) == 0,
    ensures
        shifted_val(ds, p) == 0,
{
    if p <= 0 {
    } else if p <= ds.len() {
        lemma_dv_prefix_le_pub(ds, 0, p);
        assert(all_digits(ds.take(p))) by {
            assert(forall|i: int| 0 <= i < p ==> ds.take(p)[i] == ds[i]);
        }
        lemma_dv_nonneg(ds.take(p));
        assert(ds.take(ds.len() as int) =~= ds);
        lemma_dv_prefix_le_pub(ds, p, ds.len() as int);
    } else {
        assert(shifted_val(ds, p) == digits_val(ds) * pow10((p - ds.len()) as nat));
        lemma_pow10_pos((p - ds.len()) as nat);
        assert(digits_val(ds) * pow10((p - ds.len()) as nat) == 0) by (nonlinear_arith)
            requires digits_val(ds) == 0;
    }
}

/// A nonzero digit string whose point position lies more than 17 places
/// past its end weighs more than the limit.
proof fn lemma_shifted_huge(ds: Seq<u8>, p: int)
    requires
        all_digits(ds),
        digits_val(ds) != 0,
        p > ds.len() + 17,
    ensures
        shifted_val(ds, p) > SCORE_LIMIT,
{
    lemma_dv_nonneg(ds);
    let extra = (p - ds.len()) as nat;
    lemma_pow10_mono(17, extra);
    lemma_pow10_pos(extra);
    reveal_with_fuel(pow10, 18);
    assert(pow10(17) == 100_000_000_000_000_000);
    assert(shifted_val(ds, p) == digits_val(ds) * pow10(extra));
    assert(digits_val(ds) * pow10(extra) >= pow10(extra)) by (nonlinear_arith)
        requires digits_val(ds) >= 1 && pow10(extra) >= 1;
}

/// The signed, range-checked value of the digit string `ds` with the
/// micros point at position `p`: `None` exactly when the magnitude lies
/// beyond `SCORE_LIMIT`.
fn signed_shifted(ds: &Vec<u8>, p: i128, neg: bool) -> (r: Option<Score>)
    requires
        all_digits(ds@),
    ensures
        ({
            let m: int = if neg { -shifted_val(ds@, p as int) } else { shifted_val(ds@, p as int) };
            match r {
                Some(sc) => m == sc.micros as int && sc.wf(),
                None => !(-(SCORE_LIMIT as int) <= m <= SCORE_LIMIT as int),
            }
        }),
{
    let ghost dsq = ds@;
    let ghost p_true: int = p as int;
    let ghost m_abs: int = shifted_val(dsq, p_true);
    if p <= 0 {
        return Some(Score { micros: 0 });
    }
    let ds_len = ds.len();
    let take_n: usize = if p <= ds_len as i128 { p as usize } else { ds_len };
    let mut v: i64 = 0;
    let mut k: usize = 0;
    while k < take_n
        invariant
            0 <= k <= take_n <= ds_len == dsq.len(),
            ds@ == dsq,
            all_digits(dsq),
            p_true == p as int,
            take_n as int <= p_true,
            m_abs == shifted_val(dsq, p_true),
            0 <= v <= SCORE_LIMIT,
            v == digits_val(dsq.take(k as int)),
        decreases take_n - k,
    {
        let d = ds[k];
        proof {
            lemma_dv_take_succ(dsq, k as int);
            assert(is_digit(dsq[k as int]));
        }
        v = v * 10 + ((d - 48) as i64);
        if v > SCORE_LIMIT {
            proof {
                lemma_out_of_range(dsq, p_true, k as int + 1);
            }
            return None;
        }
        k = k + 1;
    }
    if p <= ds_len as i128 {
        proof {
            assert(take_n as int == p_true);
            assert(m_abs == digits_val(dsq.take(p_true)));
            assert(v == m_abs);
        }
        let m: i64 = if neg { -v } else { v };
        return Some(Score { micros: m });
    }
    // Scale up by the remaining positions.
    proof {
        assert(take_n == ds_len);
        assert(dsq.take(dsq.len() as int) =~= dsq);
        assert(v == digits_val(dsq));
    }
    if v == 0 {
        proof {
            lemma_shifted_of_zero(dsq, p_true);
        }
        return Some(Score { micros: 0 });
    }
    proof {
        lemma_dv_nonneg(dsq);
    }
    let mut t: i128 = 0;
    let extra: i128 = p - (ds_len as i128);
    while t < extra
        invariant
            0 <= t <= extra,
            ds@ == dsq,
            p_true == p as int,
            extra == p_true - dsq.len(),
            dsq.len() < p_true,
            all_digits(dsq),
            digits_val(dsq) >= 1,
            1 <= v <= SCORE_LIMIT,
            v == digits_val(dsq) * pow10(t as nat),
            m_abs == shifted_val(dsq, p_true),
            m_abs == digits_val(dsq) * pow10(extra as nat),
        decreases extra - t,
    {
        proof {
            assert(pow10((t + 1) as nat) == 10 * pow10(t as nat));
            assert(digits_val(dsq) * pow10((t + 1) as nat) == (digits_val(dsq) * pow10(t as nat)) * 10)
                by (nonlinear_arith)
                requires pow10((t + 1) as nat) == 10 * pow10(t as nat);
        }
        v = v * 10;
        if v > SCORE_LIMIT {
            proof {
                lemma_pow10_mono((t + 1) as nat, extra as nat);
                assert(m_abs >= v) by (nonlinear_arith)
                    requires
                        digits_val(dsq) >= 1,
                        pow10((t + 1) as nat) <= pow10(extra as nat),
                        v == digits_val(dsq) * pow10((t + 1) as nat),
                        m_abs == digits_val(dsq) * pow10(extra as nat);
            }
            return None;
        }
        t = t + 1;
    }
    proof {
        assert(v == m_abs);
    }
    let m: i64 = if neg { -v } else { v };
    Some(Score { micros: m })
}

/// The bytes inside two scanned digit runs are all digits.
proof fn lemma_scanned_digits(s: Seq<u8>, i1: int, i2: int, fstart: int, i3: int)
    requires
        0 <= i1 <= i2 <= s.len(),
        0 <= fstart <= i3 <= s.len(),
        i2 == scan_digits(s, i1),
        i3 == scan_digits(s, fstart),
    ensures
        all_digits(s.subrange(i1, i2) + s.subrange(fstart, i3)),
{
    lemma_scan_digits_bounds(s, i1);
    lemma_scan_digits_bounds(s, fstart);
    let ds = s.subrange(i1, i2) + s.subrange(fstart, i3);
    assert forall|t: int| 0 <= t < ds.len() implies is_digit(#[trigger] ds[t]) by {
        if t < i2 - i1 {
            assert(ds[t] == s[i1 + t]);
        } else {
            assert(ds[t] == s[fstart + (t - (i2 - i1))]);
        }
    }
}

/// Once a prefix of the digit string already weighs more than the limit,
/// the whole shifted value does too.
proof fn lemma_out_of_range(ds: Seq<u8>, p: int, k: int)
    requires
        all_digits(ds),
        0 <= k <= ds.len(),
        k <= p,
        digits_val(ds.take(k)) > SCORE_LIMIT,
    ensures
        shifted_val(ds, p) > SCORE_LIMIT,
{
    if p <= ds.len() {
        lemma_dv_prefix_le_pub(ds, k, p);
    } else {
        lemma_dv_prefix_le_pub(ds, k, ds.len() as int);
        assert(ds.take(ds.len() as int) =~= ds);
        lemma_pow10_pos((p - ds.len()) as nat);
        lemma_dv_nonneg(ds);
        assert(digits_val(ds) * pow10((p - ds.len()) as nat) >= digits_val(ds)) by (nonlinear_arith)
            requires digits_val(ds) >= 0 && pow10((p - ds.len()) as nat) >= 1;
    }
}


/// The decimal digits of `n`, most significant first, without leading
/// zeros ("0" for zero).
pub open spec fn dec_digits(n: nat) -> Seq<u8>
    decreases n,
{
    if n < 10 {
        seq![(48 + n) as u8]
    } else {
        dec_digits(n / 10).push((48 + (n % 10)) as u8)
    }
}

/// The last `w` decimal digits of `n`, most significant first, padded with
/// leading zeros to width `w`.
pub open spec fn pad_digits(n: nat, w: nat) -> Seq<u8>
    decreases w,
{
    if w == 0 {
        Seq::empty()
    } else {
        pad_digits(n / 10, (w - 1) as nat).push((48 + (n % 10)) as u8)
    }
}

/// `s` with trailing zero digits removed, keeping at least one byte.
pub open spec fn trim_zeros(s: Seq<u8>) -> Seq<u8>
    decreases s.len(),
{
    if s.len() > 1 && s.last() == 48 {
        trim_zeros(s.drop_last())
    } else {
        s
    }
}

/// The canonical decimal text of `m` micros: sign, integer part, and,
/// unless `bare_int` asks for whole values to stay bare, a point and the
/// fraction digits with trailing zeros trimmed.
pub open spec fn spec_render_micros(m: int, bare_int: bool) -> Seq<u8> {
    let sign: Seq<u8> = if m < 0 { seq![45u8] } else { Seq::empty() };
    let a: int = if m < 0 { -m } else { m };
    let ip = (a / 1_000_000) as nat;
    let f = (a % 1_000_000) as nat;
    if bare_int && f == 0 {
        sign + dec_digits(ip)
    } else {
        sign + dec_digits(ip) + seq![46u8] + trim_zeros(pad_digits(f, 6))
    }
}

/// The decimal digits of `n`, most significant first.
pub fn u64_dec_digits(n: u64) -> (r: Vec<u8>)
    ensures
        r@ == dec_digits(n as nat),
    decreases n,
{
    if n < 10 {
        let mut out: Vec<u8> = Vec::new();
        out.push(48 + (n as u8));
        proof {
            assert(out@ =~= dec_digits(n as nat));
        }
        out
    } else {
        let mut out = u64_dec_digits(n / 10);
        out.push(48 + ((n % 10) as u8));
        out
    }
}

/// The last `w` decimal digits of `n`, zero padded to width `w`.
fn u64_pad_digits(n: u64, w: usize) -> (r: Vec<u8>)
    ensures
        r@ == pad_digits(n as nat, w as nat),
    decreases w,
{
    if w == 0 {
        let out: Vec<u8> = Vec::new();
        proof {
            assert(out@ =~= pad_digits(n as nat, 0));
        }
        out
    } else {
        let mut out = u64_pad_digits(n / 10, w - 1);
        out.push(48 + ((n % 10) as u8));
        out
    }
}

impl Score {
    /// The canonical decimal text of this score, always with a decimal
    /// point, as a structured-text number is rendered ("1.0", "0.75").
    pub fn render_number(&self) -> (r: Vec<u8>)
        requires
            self.wf(),
        ensures
            r@ == spec_render_micros(self.micros as int, false),
    {
        self.render_micros(false)
    }

    /// The canonical decimal text of this score, with whole values kept
    /// bare ("60", "0.75"), as a value is displayed in running text.
    pub fn render_display(&self) -> (r: Vec<u8>)
        requires
            self.wf(),
        ensures
            r@ == spec_render_micros(self.micros as int, true),
    {
        self.render_micros(true)
    }

    fn render_micros(&self, bare_int: bool) -> (r: Vec<u8>)
        requires
            self.wf(),
        ensures
            r@ == spec_render_micros(self.micros as int, bare_int),
    {
        let m = self.micros;
        let a: u64 = if m < 0 { (-m) as u64 } else { m as u64 };
        let ip: u64 = a / 1_000_000;
        let f: u64 = a % 1_000_000;
        let mut out: Vec<u8> = Vec::new();
        if m < 0 {
            out.push(45);
        }
        let mut ds = u64_dec_digits(ip);
        out.append(&mut ds);
        if !(bare_int && f == 0) {
            out.push(46);
            let mut frac = u64_pad_digits(f, 6);
            let ghost frac0 = frac@;
            while frac.len() > 1 && frac[frac.len() - 1] == 48
                invariant
                    frac@.len() >= 1,
                    trim_zeros(frac0) == trim_zeros(frac@),
                decreases frac@.len(),
            {
                proof {
                    assert(frac@.drop_last() =~= frac@.take(frac@.len() - 1));
                }
                let _ = frac.pop();
            }
            out.append(&mut frac);
        }
        proof {
            assert(out@ =~= spec_render_micros(m as int, bare_int));
        }
        out
    }
}


/// The decimal text of an integer, with a leading minus for negatives.
pub open spec fn int_dec(n: int) -> Seq<u8> {
    if n < 0 {
        seq![45u8] + dec_digits((-n) as nat)
    } else {
        dec_digits(n as nat)
    }
}

/// The decimal text of `n`.
pub fn i64_dec(n: i64) -> (r: Vec<u8>)
    ensures r@ == int_dec(n as int),
{
    if n < 0 {
        let mag: u64 = (-(n as i128)) as u64;
        let mut out: Vec<u8> = Vec::new();
        out.push(45);
        let mut ds = u64_dec_digits(mag);
        out.append(&mut ds);
        proof {
            assert(out@ =~= int_dec(n as int));
        }
        out
    } else {
        let r = u64_dec_digits(n as u64);
        r
    }
}

} // verus!



