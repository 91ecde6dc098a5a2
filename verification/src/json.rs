use vstd::prelude::*;

use crate::score::all_digits;
use crate::score::digits_val;
use crate::score::is_digit;
use crate::score::scan_digits;

verus! {

/// A structured data value in the output notation the parser accepts:
/// the tree a block of such text denotes. Number tokens keep their
/// literal text, so re-serializing is lossless.
pub enum Json {
    Null,
    Bool(bool),
    Num(Vec<u8>),
    Str(Vec<u8>),
    Arr(Vec<Json>),
    Obj(Vec<(Vec<u8>, Json)>),
}

/// The mathematical shape of a `Json` value.
pub enum JsonSpec {
    Null,
    Bool(bool),
    Num(Seq<u8>),
    Str(Seq<u8>),
    Arr(Seq<JsonSpec>),
    Obj(Seq<(Seq<u8>, JsonSpec)>),
}

/// The shape a `Json` value denotes.
pub open spec fn json_view(j: Json) -> JsonSpec
    decreases j, 1int,
{
    match j {
        Json::Null => JsonSpec::Null,
        Json::Bool(b) => JsonSpec::Bool(b),
        Json::Num(lit) => JsonSpec::Num(lit@),
        Json::Str(sb) => JsonSpec::Str(sb@),
        Json::Arr(es) => JsonSpec::Arr(json_view_seq(es@)),
        Json::Obj(ms) => JsonSpec::Obj(json_view_members(ms@)),
    }
}

/// The shapes of a sequence of `Json` values.
pub open spec fn json_view_seq(es: Seq<Json>) -> Seq<JsonSpec>
    decreases es, 0int,
{
    if es.len() == 0 {
        Seq::empty()
    } else {
        seq![json_view(es[0])] + json_view_seq(es.drop_first())
    }
}

/// The shapes of a sequence of keyed `Json` values.
pub open spec fn json_view_members(ms: Seq<(Vec<u8>, Json)>) -> Seq<(Seq<u8>, JsonSpec)>
    decreases ms, 0int,
{
    if ms.len() == 0 {
        Seq::empty()
    } else {
        seq![(ms[0].0@, json_view(ms[0].1))] + json_view_members(ms.drop_first())
    }
}

impl View for Json {
    type V = JsonSpec;

    open spec fn view(&self) -> JsonSpec {
        json_view(*self)
    }
}

/// Strict byte-wise lexicographic order.
pub open spec fn lex_lt(a: Seq<u8>, b: Seq<u8>) -> bool
    decreases a.len(),
{
    if b.len() == 0 {
        false
    } else if a.len() == 0 {
        true
    } else if a[0] != b[0] {
        a[0] < b[0]
    } else {
        lex_lt(a.drop_first(), b.drop_first())
    }
}

/// Inserts the key `k` with value `v` into the key-ordered member list
/// `ms`, unless `k` is already bound: members later in the text win, so an
/// existing binding stays.
pub open spec fn obj_insert_first(k: Seq<u8>, v: JsonSpec, ms: Seq<(Seq<u8>, JsonSpec)>) -> Seq<(Seq<u8>, JsonSpec)>
    decreases ms.len(),
{
    if ms.len() == 0 {
        seq![(k, v)]
    } else if k == ms[0].0 {
        ms
    } else if lex_lt(k, ms[0].0) {
        seq![(k, v)] + ms
    } else {
        seq![ms[0]] + obj_insert_first(k, v, ms.drop_first())
    }
}

/// True when a byte is blank: space, tab, line feed or carriage return.
pub open spec fn is_ws(b: u8) -> bool {
    b == 32 || b == 9 || b == 10 || b == 13
}

/// The first position at or after `i` that does not hold a blank byte.
pub open spec fn spec_ws(s: Seq<u8>, i: int) -> int
    decreases s.len() - i,
{
    if 0 <= i < s.len() && is_ws(s[i]) {
        spec_ws(s, i + 1)
    } else {
        i
    }
}

/// The value of a hexadecimal digit byte, or `None`.
pub open spec fn hex_val(b: u8) -> Option<int> {
    if 48 <= b <= 57 {
        Some((b - 48) as int)
    } else if 97 <= b <= 102 {
        Some(b - 97 + 10)
    } else if 65 <= b <= 70 {
        Some(b - 65 + 10)
    } else {
        None
    }
}

/// The value of the four hexadecimal digit bytes at `i`, or `None`.
pub open spec fn hex4_val(s: Seq<u8>, i: int) -> Option<int> {
    if i + 4 <= s.len() {
        match (hex_val(s[i]), hex_val(s[i + 1]), hex_val(s[i + 2]), hex_val(s[i + 3])) {
            (Some(a), Some(b), Some(c), Some(d)) => Some(a * 4096 + b * 256 + c * 16 + d),
            _ => None,
        }
    } else {
        None
    }
}

/// The UTF-8 bytes of the code point `cp`.
pub open spec fn utf8_enc(cp: int) -> Seq<u8> {
    if cp < 0x80 {
        seq![cp as u8]
    } else if cp < 0x800 {
        seq![(0xC0 + cp / 0x40) as u8, (0x80 + cp % 0x40) as u8]
    } else if cp < 0x10000 {
        seq![(0xE0 + cp / 0x1000) as u8, (0x80 + (cp / 0x40) % 0x40) as u8, (0x80 + cp % 0x40) as u8]
    } else {
        seq![
            (0xF0 + cp / 0x40000) as u8,
            (0x80 + (cp / 0x1000) % 0x40) as u8,
            (0x80 + (cp / 0x40) % 0x40) as u8,
            (0x80 + cp % 0x40) as u8,
        ]
    }
}

/// The decoded bytes of a quoted string whose opening quote stands just
/// before `i`, with the position after the closing quote; `None` when the
/// text is not a properly quoted string.
pub open spec fn spec_parse_string_body(s: Seq<u8>, i: int) -> Option<(Seq<u8>, int)>
    decreases s.len() - i,
{
    if i < 0 || i >= s.len() {
        None
    } else if s[i] == 34 {
        Some((Seq::empty(), i + 1))
    } else if s[i] == 92 {
        if i + 1 >= s.len() {
            None
        } else {
            let c = s[i + 1];
            if c == 117 {
                match hex4_val(s, i + 2) {
                    None => None,
                    Some(cp) => {
                        if 0xD800 <= cp <= 0xDBFF {
                            // a high surrogate must pair with a low one
                            if i + 12 <= s.len() && s[i + 6] == 92 && s[i + 7] == 117 {
                                match hex4_val(s, i + 8) {
                                    None => None,
                                    Some(lo) => {
                                        if 0xDC00 <= lo <= 0xDFFF {
                                            let full = 0x10000 + (cp - 0xD800) * 0x400 + (lo - 0xDC00);
                                            match spec_parse_string_body(s, i + 12) {
                                                None => None,
                                                Some((rest, e)) => Some((utf8_enc(full) + rest, e)),
                                            }
                                        } else {
                                            None
                                        }
                                    },
                                }
                            } else {
                                None
                            }
                        } else if 0xDC00 <= cp <= 0xDFFF {
                            None
                        } else {
                            match spec_parse_string_body(s, i + 6) {
                                None => None,
                                Some((rest, e)) => Some((utf8_enc(cp) + rest, e)),
                            }
                        }
                    },
                }
            } else {
                let decoded: Option<u8> = if c == 34 {
                    Some(34u8)
                } else if c == 92 {
                    Some(92u8)
                } else if c == 47 {
                    Some(47u8)
                } else if c == 98 {
                    Some(8u8)
                } else if c == 102 {
                    Some(12u8)
                } else if c == 110 {
                    Some(10u8)
                } else if c == 114 {
                    Some(13u8)
                } else if c == 116 {
                    Some(9u8)
                } else {
                    None
                };
                match decoded {
                    None => None,
                    Some(d) => match spec_parse_string_body(s, i + 2) {
                        None => None,
                        Some((rest, e)) => Some((seq![d] + rest, e)),
                    },
                }
            }
        }
    } else if s[i] < 32 {
        None
    } else {
        match spec_parse_string_body(s, i + 1) {
            None => None,
            Some((rest, e)) => Some((seq![s[i]] + rest, e)),
        }
    }
}

/// The number token that starts at `i` (strict notation: `-? int frac?
/// exp?` with `int = 0 | [1-9][0-9]*`), with the position after it.
pub open spec fn spec_parse_number(s: Seq<u8>, i: int) -> Option<(Seq<u8>, int)> {
    if i < 0 || i >= s.len() {
        None
    } else {
        let i1: int = if s[i] == 45 { i + 1 } else { i };
        if i1 >= s.len() || !is_digit(s[i1]) {
            None
        } else {
            let i2: int = if s[i1] == 48 { i1 + 1 } else { scan_digits(s, i1) };
            let has_dot = i2 < s.len() && s[i2] == 46;
            let i3: int = if has_dot { scan_digits(s, i2 + 1) } else { i2 };
            if has_dot && i3 == i2 + 1 {
                None
            } else {
                let has_exp = i3 < s.len() && (s[i3] == 101 || s[i3] == 69);
                let esign = has_exp && i3 + 1 < s.len() && (s[i3 + 1] == 43 || s[i3 + 1] == 45);
                let estart: int = if esign { i3 + 2 } else { i3 + 1 };
                let i4: int = if has_exp { scan_digits(s, estart) } else { i3 };
                if has_exp && i4 == estart {
                    None
                } else {
                    Some((s.subrange(i, i4), i4))
                }
            }
        }
    }
}

/// The value whose text starts at or after `i` (blanks skipped), with the
/// position just after it; `None` when the text there is not a value.
pub open spec fn spec_parse_value(s: Seq<u8>, i: int) -> Option<(JsonSpec, int)>
    decreases s.len() - i, 0int,
{
    let j = spec_ws(s, i);
    if j < i || j >= s.len() {
        None
    } else if s[j] == 123 {
        // '{'
        let j2 = spec_ws(s, j + 1);
        if j + 1 <= j2 < s.len() && s[j2] == 125 {
            Some((JsonSpec::Obj(Seq::empty()), j2 + 1))
        } else if j + 1 > j {
            match spec_parse_members(s, j + 1) {
                None => None,
                Some((ms, e)) => Some((JsonSpec::Obj(ms), e)),
            }
        } else {
            None
        }
    } else if s[j] == 91 {
        // '['
        let j2 = spec_ws(s, j + 1);
        if j + 1 <= j2 < s.len() && s[j2] == 93 {
            Some((JsonSpec::Arr(Seq::empty()), j2 + 1))
        } else {
            match spec_parse_elems(s, j + 1) {
                None => None,
                Some((es, e)) => Some((JsonSpec::Arr(es), e)),
            }
        }
    } else if s[j] == 34 {
        // '"'
        match spec_parse_string_body(s, j + 1) {
            None => None,
            Some((sb, e)) => Some((JsonSpec::Str(sb), e)),
        }
    } else if s[j] == 116 {
        // 't'
        if j + 4 <= s.len() && s[j + 1] == 114 && s[j + 2] == 117 && s[j + 3] == 101 {
            Some((JsonSpec::Bool(true), j + 4))
        } else {
            None
        }
    } else if s[j] == 102 {
        // 'f'
        if j + 5 <= s.len() && s[j + 1] == 97 && s[j + 2] == 108 && s[j + 3] == 115 && s[j + 4] == 101 {
            Some((JsonSpec::Bool(false), j + 5))
        } else {
            None
        }
    } else if s[j] == 110 {
        // 'n'
        if j + 4 <= s.len() && s[j + 1] == 117 && s[j + 2] == 108 && s[j + 3] == 108 {
            Some((JsonSpec::Null, j + 4))
        } else {
            None
        }
    } else if s[j] == 45 || is_digit(s[j]) {
        match spec_parse_number(s, j) {
            None => None,
            Some((lit, e)) => Some((JsonSpec::Num(lit), e)),
        }
    } else {
        None
    }
}

/// The non-empty, comma-separated list of values that starts at or after
/// `i` and ends with `]`, with the position after the bracket.
pub open spec fn spec_parse_elems(s: Seq<u8>, i: int) -> Option<(Seq<JsonSpec>, int)>
    decreases s.len() - i, 1int,
{
    match spec_parse_value(s, i) {
        None => None,
        Some((v, i2)) => {
            if !(i <= i2) {
                None
            } else {
                let j = spec_ws(s, i2);
                if j < i2 || j >= s.len() {
                    None
                } else if s[j] == 44 {
                    // ','
                    if j + 1 > i {
                        match spec_parse_elems(s, j + 1) {
                            None => None,
                            Some((rest, e)) => Some((seq![v] + rest, e)),
                        }
                    } else {
                        None
                    }
                } else if s[j] == 93 {
                    // ']'
                    Some((seq![v], j + 1))
                } else {
                    None
                }
            }
        },
    }
}

/// The non-empty, comma-separated list of `"key": value` members that
/// starts at or after `i` and ends with `}`, with the position after the
/// brace. Members are gathered in key order; a later member with an
/// already-seen key wins.
pub open spec fn spec_parse_members(s: Seq<u8>, i: int) -> Option<(Seq<(Seq<u8>, JsonSpec)>, int)>
    decreases s.len() - i, 1int,
{
    let j = spec_ws(s, i);
    if j < i || j >= s.len() || s[j] != 34 {
        None
    } else {
        match spec_parse_string_body(s, j + 1) {
            None => None,
            Some((key, i2)) => {
                let j2 = spec_ws(s, i2);
                if j2 < i2 || i2 < i || j2 >= s.len() || s[j2] != 58 {
                    None
                } else {
                    if !(j2 + 1 > i) {
                        None
                    } else {
                        match spec_parse_value(s, j2 + 1) {
                            None => None,
                            Some((v, i3)) => {
                                let j3 = spec_ws(s, i3);
                                if j3 < i3 || i3 < i || j3 >= s.len() {
                                    None
                                } else if s[j3] == 44 {
                                    if j3 + 1 > i {
                                        match spec_parse_members(s, j3 + 1) {
                                            None => None,
                                            Some((rest, e)) => Some((obj_insert_first(key, v, rest), e)),
                                        }
                                    } else {
                                        None
                                    }
                                } else if s[j3] == 125 {
                                    Some((seq![(key, v)], j3 + 1))
                                } else {
                                    None
                                }
                            },
                        }
                    }
                }            },
        }
    }
}

/// The value the whole text `s` denotes: one value, optionally surrounded
/// by blanks, and nothing else.
pub open spec fn spec_parse_json(s: Seq<u8>) -> Option<JsonSpec> {
    match spec_parse_value(s, 0) {
        None => None,
        Some((v, e)) => {
            if spec_ws(s, e) == s.len() {
                Some(v)
            } else {
                None
            }
        },
    }
}


/// The first position at or after `i` that does not hold a blank byte.
fn ws_skip(s: &[u8], i: usize) -> (r: usize)
    requires i <= s@.len(),
    ensures
        r as int == spec_ws(s@, i as int),
        i <= r <= s@.len(),
{
    let n = s.len();
    let mut j = i;
    while j < n && (s[j] == 32 || s[j] == 9 || s[j] == 10 || s[j] == 13)
        invariant
            i <= j <= n,
            n == s@.len(),
            spec_ws(s@, i as int) == spec_ws(s@, j as int),
        decreases n - j,
    {
        j = j + 1;
    }
    j
}

/// The number token that starts at `i`, with the position after it.
fn parse_number_at(s: &[u8], i: usize) -> (r: Option<(Vec<u8>, usize)>)
    requires i < s@.len(),
    ensures
        match r {
            Some((lit, e)) => spec_parse_number(s@, i as int) == Some((lit@, e as int))
                && i < e <= s@.len(),
            None => spec_parse_number(s@, i as int) is None,
        },
{
    let n = s.len();
    let i1: usize = if s[i] == 45 { i + 1 } else { i };
    if i1 >= n || !(48 <= s[i1] && s[i1] <= 57) {
        return None;
    }
    let i2: usize = if s[i1] == 48 { i1 + 1 } else { crate::score::scan_run(s, i1) };
    proof {
        crate::score::lemma_scan_digits_bounds(s@, i1 as int);
        if s@[i1 as int] != 48 {
            assert(scan_digits(s@, i1 as int) == scan_digits(s@, i1 as int + 1));
            crate::score::lemma_scan_digits_bounds(s@, i1 as int + 1);
        }
    }
    let has_dot = i2 < n && s[i2] == 46;
    let i3: usize = if has_dot { crate::score::scan_run(s, i2 + 1) } else { i2 };
    if has_dot && i3 == i2 + 1 {
        return None;
    }
    let has_exp = i3 < n && (s[i3] == 101 || s[i3] == 69);
    let esign = has_exp && i3 + 1 < n && (s[i3 + 1] == 43 || s[i3 + 1] == 45);
    let estart: usize = if !has_exp { 0 } else if esign { i3 + 2 } else { i3 + 1 };
    let i4: usize = if has_exp { crate::score::scan_run(s, estart) } else { i3 };
    if has_exp && i4 == estart {
        return None;
    }
    let mut lit: Vec<u8> = Vec::new();
    crate::score::collect_range(s, i, i4, &mut lit);
    proof {
        assert(lit@ =~= s@.subrange(i as int, i4 as int));
    }
    Some((lit, i4))
}

/// The value of the four hexadecimal digit bytes at `i`, or `None`.
fn hex4_at(s: &[u8], i: usize) -> (r: Option<u32>)
    requires i + 4 <= s@.len(),
    ensures
        match r {
            Some(v) => hex4_val(s@, i as int) == Some(v as int) && v < 0x10000,
            None => hex4_val(s@, i as int) is None,
        },
{
    let a = hex_digit(s[i]);
    let b = hex_digit(s[i + 1]);
    let c = hex_digit(s[i + 2]);
    let d = hex_digit(s[i + 3]);
    match (a, b, c, d) {
        (Some(a), Some(b), Some(c), Some(d)) => {
            Some((a as u32) * 4096 + (b as u32) * 256 + (c as u32) * 16 + (d as u32))
        },
        _ => None,
    }
}

/// The value of one hexadecimal digit byte, or `None`.
fn hex_digit(b: u8) -> (r: Option<u8>)
    ensures
        match r {
            Some(v) => hex_val(b) == Some(v as int) && v < 16,
            None => hex_val(b) is None,
        },
{
    if 48 <= b && b <= 57 {
        Some(b - 48)
    } else if 97 <= b && b <= 102 {
        Some(b - 97 + 10)
    } else if 65 <= b && b <= 70 {
        Some(b - 65 + 10)
    } else {
        None
    }
}

/// Appends the UTF-8 bytes of code point `cp` to `out`.
fn push_utf8(out: &mut Vec<u8>, cp: u32)
    requires cp < 0x110000,
    ensures final(out)@ == old(out)@ + utf8_enc(cp as int),
{
    if cp < 0x80 {
        out.push(cp as u8);
        proof {
            assert(final(out)@ =~= old(out)@ + utf8_enc(cp as int));
        }
    } else if cp < 0x800 {
        out.push((0xC0 + cp / 0x40) as u8);
        out.push((0x80 + cp % 0x40) as u8);
        proof {
            assert(final(out)@ =~= old(out)@ + utf8_enc(cp as int));
        }
    } else if cp < 0x10000 {
        out.push((0xE0 + cp / 0x1000) as u8);
        out.push((0x80 + (cp / 0x40) % 0x40) as u8);
        out.push((0x80 + cp % 0x40) as u8);
        proof {
            assert(final(out)@ =~= old(out)@ + utf8_enc(cp as int));
        }
    } else {
        out.push((0xF0 + cp / 0x40000) as u8);
        out.push((0x80 + (cp / 0x1000) % 0x40) as u8);
        out.push((0x80 + (cp / 0x40) % 0x40) as u8);
        out.push((0x80 + cp % 0x40) as u8);
        proof {
            assert(final(out)@ =~= old(out)@ + utf8_enc(cp as int));
        }
    }
}

/// `r` with the decoded bytes `acc` put before its content.
pub open spec fn string_join(acc: Seq<u8>, r: Option<(Seq<u8>, int)>) -> Option<(Seq<u8>, int)> {
    match r {
        None => None,
        Some((t, e)) => Some((acc + t, e)),
    }
}

/// A parsed string body ends after `i` and within the text.
proof fn lemma_string_body_bounds(s: Seq<u8>, i: int)
    requires 0 <= i,
    ensures
        spec_parse_string_body(s, i) matches Some((t, e)) ==> i < e <= s.len(),
    decreases s.len() - i,
{
    if 0 <= i < s.len() {
        if s[i] == 92 && i + 1 < s.len() {
            if s[i + 1] == 117 {
                if i + 12 <= s.len() {
                    lemma_string_body_bounds(s, i + 12);
                }
                if i + 6 <= s.len() {
                    lemma_string_body_bounds(s, i + 6);
                }
            } else if i + 2 <= s.len() {
                lemma_string_body_bounds(s, i + 2);
            }
        } else {
            lemma_string_body_bounds(s, i + 1);
        }
    }
}

/// Joining decoded prefixes one step at a time is the same as joining
/// their concatenation.
proof fn lemma_string_join_assoc(s: Seq<u8>, i: int, k: int, k2: int, acc: Seq<u8>, piece: Seq<u8>)
    requires
        spec_parse_string_body(s, i) == string_join(acc, spec_parse_string_body(s, k)),
        spec_parse_string_body(s, k) == string_join(piece, spec_parse_string_body(s, k2)),
    ensures
        spec_parse_string_body(s, i) == string_join(acc + piece, spec_parse_string_body(s, k2)),
{
    match spec_parse_string_body(s, k2) {
        None => {},
        Some((t2, e2)) => {
            assert(acc + (piece + t2) =~= (acc + piece) + t2);
        },
    }
}

/// The decoded bytes of a quoted string whose opening quote stands just
/// before `i`, with the position after the closing quote.
#[verifier::rlimit(100)]
fn parse_string_body_at(s: &[u8], i: usize) -> (r: Option<(Vec<u8>, usize)>)
    requires i <= s@.len(),
    ensures
        match r {
            Some((sb, e)) => spec_parse_string_body(s@, i as int) == Some((sb@, e as int))
                && i < e <= s@.len(),
            None => spec_parse_string_body(s@, i as int) is None,
        },
{
    let n = s.len();
    let mut acc: Vec<u8> = Vec::new();
    let mut k = i;
    proof {
        match spec_parse_string_body(s@, i as int) {
            None => {},
            Some((t, e)) => {
                assert(Seq::<u8>::empty() + t =~= t);
            },
        }
    }
    loop
        invariant
            i <= k <= n,
            n == s@.len(),
            spec_parse_string_body(s@, i as int)
                == string_join(acc@, spec_parse_string_body(s@, k as int)),
        decreases n - k,
    {
        if k >= n {
            return None;
        }
        let b = s[k];
        if b == 34 {
            proof {
                assert(acc@ + Seq::<u8>::empty() =~= acc@);
                lemma_string_body_bounds(s@, i as int);
            }
            return Some((acc, k + 1));
        } else if b == 92 {
            if k + 1 >= n {
                return None;
            }
            let c = s[k + 1];
            if c == 117 {
                if n - k < 6 {
                    return None;
                }
                let cp = match hex4_at(s, k + 2) {
                    None => { return None; },
                    Some(cp) => cp,
                };
                if 0xD800 <= cp && cp <= 0xDBFF {
                    if !(n - k >= 12 && s[k + 6] == 92 && s[k + 7] == 117) {
                        return None;
                    }
                    let lo = match hex4_at(s, k + 8) {
                        None => { return None; },
                        Some(lo) => lo,
                    };
                    if !(0xDC00 <= lo && lo <= 0xDFFF) {
                        return None;
                    }
                    let full: u32 = 0x10000 + (cp - 0xD800) * 0x400 + (lo - 0xDC00);
                    let ghost acc0 = acc@;
                    push_utf8(&mut acc, full);
                    proof {
                        lemma_string_join_assoc(s@, i as int, k as int, k as int + 12, acc0, utf8_enc(full as int));
                    }
                    k = k + 12;
                } else if 0xDC00 <= cp && cp <= 0xDFFF {
                    return None;
                } else {
                    let ghost acc0 = acc@;
                    push_utf8(&mut acc, cp);
                    proof {
                        lemma_string_join_assoc(s@, i as int, k as int, k as int + 6, acc0, utf8_enc(cp as int));
                    }
                    k = k + 6;
                }
            } else {
                let d: u8 = if c == 34 {
                    34
                } else if c == 92 {
                    92
                } else if c == 47 {
                    47
                } else if c == 98 {
                    8
                } else if c == 102 {
                    12
                } else if c == 110 {
                    10
                } else if c == 114 {
                    13
                } else if c == 116 {
                    9
                } else {
                    return None;
                };
                let ghost acc0 = acc@;
                acc.push(d);
                proof {
                    assert(acc@ =~= acc0 + seq![d]);
                    lemma_string_join_assoc(s@, i as int, k as int, k as int + 2, acc0, seq![d]);
                }
                k = k + 2;
            }
        } else if b < 32 {
            return None;
        } else {
            let ghost acc0 = acc@;
            acc.push(b);
            proof {
                assert(acc@ =~= acc0 + seq![b]);
                lemma_string_join_assoc(s@, i as int, k as int, k as int + 1, acc0, seq![b]);
            }
            k = k + 1;
        }
    }
}


/// True when the byte strings are equal.
pub fn bytes_eq(a: &[u8], b: &[u8]) -> (r: bool)
    ensures r == (a@ == b@),
{
    if a.len() != b.len() {
        return false;
    }
    let n = a.len();
    let mut i: usize = 0;
    while i < n
        invariant
            0 <= i <= n,
            n == a@.len() == b@.len(),
            forall|t: int| 0 <= t < i ==> a@[t] == b@[t],
        decreases n - i,
    {
        if a[i] != b[i] {
            return false;
        }
        i = i + 1;
    }
    proof {
        assert(a@ =~= b@);
    }
    true
}

/// Unfolding `lex_lt` under a common first byte.
proof fn lemma_lex_skip(a: Seq<u8>, b: Seq<u8>, i: int)
    requires
        0 <= i < a.len(),
        0 <= i < b.len(),
        a[i] == b[i],
    ensures
        lex_lt(a.skip(i), b.skip(i)) == lex_lt(a.skip(i + 1), b.skip(i + 1)),
{
    assert(a.skip(i).drop_first() =~= a.skip(i + 1));
    assert(b.skip(i).drop_first() =~= b.skip(i + 1));
}

/// True when `a` stands strictly before `b` in byte order.
pub fn lex_less(a: &[u8], b: &[u8]) -> (r: bool)
    ensures r == lex_lt(a@, b@),
{
    let na = a.len();
    let nb = b.len();
    let min: usize = if na < nb { na } else { nb };
    let mut i: usize = 0;
    proof {
        assert(a@.skip(0) =~= a@);
        assert(b@.skip(0) =~= b@);
    }
    while i < min
        invariant
            0 <= i <= min,
            min <= na == a@.len(),
            min <= nb == b@.len(),
            lex_lt(a@, b@) == lex_lt(a@.skip(i as int), b@.skip(i as int)),
        decreases min - i,
    {
        if a[i] != b[i] {
            return a[i] < b[i];
        }
        proof {
            lemma_lex_skip(a@, b@, i as int);
        }
        i = i + 1;
    }
    na < nb
}

/// A member list viewed one pair at a time.
pub(crate) proof fn lemma_view_members_cons(x: (Vec<u8>, Json), rest: Seq<(Vec<u8>, Json)>)
    ensures json_view_members(seq![x] + rest) == seq![(x.0@, json_view(x.1))] + json_view_members(rest),
{
    assert((seq![x] + rest).drop_first() =~= rest);
    assert((seq![x] + rest)[0] == x);
    assert(json_view_members(seq![x] + rest) =~= seq![(x.0@, json_view(x.1))] + json_view_members(rest));
}

/// An element list viewed one value at a time.
pub(crate) proof fn lemma_view_seq_cons(x: Json, rest: Seq<Json>)
    ensures json_view_seq(seq![x] + rest) == seq![json_view(x)] + json_view_seq(rest),
{
    assert((seq![x] + rest).drop_first() =~= rest);
    assert((seq![x] + rest)[0] == x);
    assert(json_view_seq(seq![x] + rest) =~= seq![json_view(x)] + json_view_seq(rest));
}

/// Inserts the key `k` with value `v` into the key-ordered member list,
/// keeping an already-bound key's value.
fn obj_insert_exec(k: Vec<u8>, v: Json, ms: Vec<(Vec<u8>, Json)>) -> (r: Vec<(Vec<u8>, Json)>)
    ensures json_view_members(r@) == obj_insert_first(k@, json_view(v), json_view_members(ms@)),
    decreases ms@.len(),
{
    let ghost msq = ms@;
    if ms.len() == 0 {
        let mut r: Vec<(Vec<u8>, Json)> = Vec::new();
        r.push((k, v));
        proof {
            assert(r@ =~= seq![(k, v)] + Seq::<(Vec<u8>, Json)>::empty());
            lemma_view_members_cons((k, v), Seq::empty());
            assert(json_view_members(r@) =~= obj_insert_first(k@, json_view(v), json_view_members(msq)));
        }
        r
    } else {
        let mut ms = ms;
        let (k0, v0) = ms.remove(0);
        let ghost tail0 = ms@;
        proof {
            assert(ms@ =~= msq.drop_first());
            assert(seq![(k0, v0)] + ms@ =~= msq);
            lemma_view_members_cons((k0, v0), ms@);
            assert(json_view_members(msq) == seq![(k0@, json_view(v0))] + json_view_members(tail0));
            assert(json_view_members(msq).drop_first() =~= json_view_members(tail0));
            assert(json_view_members(msq)[0] == (k0@, json_view(v0)));
        }
        if bytes_eq(k.as_slice(), k0.as_slice()) {
            let ghost tail = ms@;
            ms.insert(0, (k0, v0));
            proof {
                assert(ms@ =~= seq![(k0, v0)] + tail);
                assert(ms@ =~= msq);
            }
            ms
        } else if lex_less(k.as_slice(), k0.as_slice()) {
            let ghost tail = ms@;
            ms.insert(0, (k0, v0));
            proof {
                assert(ms@ =~= seq![(k0, v0)] + tail);
                assert(ms@ =~= msq);
            }
            let ghost whole = ms@;
            ms.insert(0, (k, v));
            proof {
                assert(ms@ =~= seq![(k, v)] + whole);
                lemma_view_members_cons((k, v), whole);
                assert(json_view_members(ms@) =~= obj_insert_first(k@, json_view(v), json_view_members(msq)));
            }
            ms
        } else {
            let ghost kq = k@;
            let ghost vv = json_view(v);
            let mut r = obj_insert_exec(k, v, ms);
            let ghost rq = r@;
            r.insert(0, (k0, v0));
            proof {
                assert(r@ =~= seq![(k0, v0)] + rq);
                lemma_view_members_cons((k0, v0), rq);
                assert(json_view_members(r@) =~= obj_insert_first(kq, vv, json_view_members(msq)));
            }
            r
        }
    }
}

/// The value whose text starts at or after `i` (blanks skipped), with the
/// position just after it.
fn parse_value_at(s: &[u8], i: usize) -> (r: Option<(Json, usize)>)
    requires i <= s@.len(),
    ensures
        match r {
            Some((v, e)) => spec_parse_value(s@, i as int) == Some((v@, e as int))
                && i <= e <= s@.len(),
            None => spec_parse_value(s@, i as int) is None,
        },
    decreases s@.len() - i, 0int,
{
    let n = s.len();
    let j = ws_skip(s, i);
    if j >= n {
        return None;
    }
    let b = s[j];
    if b == 123 {
        let j2 = ws_skip(s, j + 1);
        if j2 < n && s[j2] == 125 {
            let ms: Vec<(Vec<u8>, Json)> = Vec::new();
            proof {
                assert(json_view_members(ms@) =~= Seq::<(Seq<u8>, JsonSpec)>::empty());
            }
            return Some((Json::Obj(ms), j2 + 1));
        }
        match parse_members_at(s, j + 1) {
            None => None,
            Some((ms, e)) => Some((Json::Obj(ms), e)),
        }
    } else if b == 91 {
        let j2 = ws_skip(s, j + 1);
        if j2 < n && s[j2] == 93 {
            let es: Vec<Json> = Vec::new();
            proof {
                assert(json_view_seq(es@) =~= Seq::<JsonSpec>::empty());
            }
            return Some((Json::Arr(es), j2 + 1));
        }
        match parse_elems_at(s, j + 1) {
            None => None,
            Some((es, e)) => Some((Json::Arr(es), e)),
        }
    } else if b == 34 {
        match parse_string_body_at(s, j + 1) {
            None => None,
            Some((sb, e)) => Some((Json::Str(sb), e)),
        }
    } else if b == 116 {
        if n - j >= 4 && s[j + 1] == 114 && s[j + 2] == 117 && s[j + 3] == 101 {
            Some((Json::Bool(true), j + 4))
        } else {
            None
        }
    } else if b == 102 {
        if n - j >= 5 && s[j + 1] == 97 && s[j + 2] == 108 && s[j + 3] == 115 && s[j + 4] == 101 {
            Some((Json::Bool(false), j + 5))
        } else {
            None
        }
    } else if b == 110 {
        if n - j >= 4 && s[j + 1] == 117 && s[j + 2] == 108 && s[j + 3] == 108 {
            Some((Json::Null, j + 4))
        } else {
            None
        }
    } else if b == 45 || (48 <= b && b <= 57) {
        match parse_number_at(s, j) {
            None => None,
            Some((lit, e)) => Some((Json::Num(lit), e)),
        }
    } else {
        None
    }
}

/// The non-empty bracketed list of values that starts at or after `i`.
fn parse_elems_at(s: &[u8], i: usize) -> (r: Option<(Vec<Json>, usize)>)
    requires i <= s@.len(),
    ensures
        match r {
            Some((es, e)) => spec_parse_elems(s@, i as int) == Some((json_view_seq(es@), e as int))
                && i <= e <= s@.len(),
            None => spec_parse_elems(s@, i as int) is None,
        },
    decreases s@.len() - i, 1int,
{
    let n = s.len();
    let (v, i2) = match parse_value_at(s, i) {
        None => { return None; },
        Some(x) => x,
    };
    let j = ws_skip(s, i2);
    if j >= n {
        return None;
    }
    if s[j] == 44 {
        match parse_elems_at(s, j + 1) {
            None => None,
            Some((rest, e)) => {
                let mut es = rest;
                let ghost restq = es@;
                es.insert(0, v);
                proof {
                    assert(es@ =~= seq![v] + restq);
                    lemma_view_seq_cons(v, restq);
                }
                Some((es, e))
            },
        }
    } else if s[j] == 93 {
        let mut es: Vec<Json> = Vec::new();
        es.push(v);
        proof {
            assert(es@ =~= seq![v] + Seq::<Json>::empty());
            lemma_view_seq_cons(v, Seq::empty());
            assert(json_view_seq(es@) =~= seq![json_view(v)]);
        }
        Some((es, j + 1))
    } else {
        None
    }
}

/// The non-empty braced list of `"key": value` members that starts at or
/// after `i`; members are gathered in key order, a later duplicate wins.
fn parse_members_at(s: &[u8], i: usize) -> (r: Option<(Vec<(Vec<u8>, Json)>, usize)>)
    requires i <= s@.len(),
    ensures
        match r {
            Some((ms, e)) => spec_parse_members(s@, i as int) == Some((json_view_members(ms@), e as int))
                && i <= e <= s@.len(),
            None => spec_parse_members(s@, i as int) is None,
        },
    decreases s@.len() - i, 1int,
{
    let n = s.len();
    let j = ws_skip(s, i);
    if j >= n || s[j] != 34 {
        return None;
    }
    let (key, i2) = match parse_string_body_at(s, j + 1) {
        None => { return None; },
        Some(x) => x,
    };
    let j2 = ws_skip(s, i2);
    if j2 >= n || s[j2] != 58 {
        return None;
    }
    let (v, i3) = match parse_value_at(s, j2 + 1) {
        None => { return None; },
        Some(x) => x,
    };
    let j3 = ws_skip(s, i3);
    if j3 >= n {
        return None;
    }
    if s[j3] == 44 {
        match parse_members_at(s, j3 + 1) {
            None => None,
            Some((rest, e)) => {
                let ms = obj_insert_exec(key, v, rest);
                Some((ms, e))
            },
        }
    } else if s[j3] == 125 {
        let mut ms: Vec<(Vec<u8>, Json)> = Vec::new();
        ms.push((key, v));
        proof {
            assert(ms@ =~= seq![(key, v)] + Seq::<(Vec<u8>, Json)>::empty());
            lemma_view_members_cons((key, v), Seq::empty());
            assert(json_view_members(ms@) =~= seq![(key@, json_view(v))]);
        }
        Some((ms, j3 + 1))
    } else {
        None
    }
}

impl Json {
    /// The value the whole text `s` denotes: one value, optionally
    /// surrounded by blanks, and nothing else.
    pub fn parse(s: &[u8]) -> (r: Option<Json>)
        ensures
            match r {
                Some(v) => spec_parse_json(s@) == Some(v@),
                None => spec_parse_json(s@) is None,
            },
    {
        match parse_value_at(s, 0) {
            None => None,
            Some((v, e)) => {
                let j = ws_skip(s, e);
                if j == s.len() {
                    Some(v)
                } else {
                    None
                }
            },
        }
    }
}


/// A lower-case hexadecimal digit.
pub open spec fn hex_lower(v: u8) -> u8 {
    if v < 10 { (48 + v) as u8 } else { (97 + v - 10) as u8 }
}

/// The bytes that stand for `b` inside a quoted string: quotes,
/// backslashes and the common control bytes as two-byte escapes, the
/// remaining control bytes as six-byte escapes, all else verbatim.
pub open spec fn escape_byte(b: u8) -> Seq<u8> {
    if b == 34 {
        seq![92u8, 34u8]
    } else if b == 92 {
        seq![92u8, 92u8]
    } else if b == 8 {
        seq![92u8, 98u8]
    } else if b == 9 {
        seq![92u8, 116u8]
    } else if b == 10 {
        seq![92u8, 110u8]
    } else if b == 12 {
        seq![92u8, 102u8]
    } else if b == 13 {
        seq![92u8, 114u8]
    } else if b < 32 {
        seq![92u8, 117u8, 48u8, 48u8, hex_lower(b / 16), hex_lower(b % 16)]
    } else {
        seq![b]
    }
}

/// The bytes that stand for the string content `sb` inside quotes.
pub open spec fn escape_bytes(sb: Seq<u8>) -> Seq<u8>
    decreases sb.len(),
{
    if sb.len() == 0 {
        Seq::empty()
    } else {
        escape_byte(sb[0]) + escape_bytes(sb.drop_first())
    }
}

/// `d` levels of two-space indentation.
pub open spec fn indent_sp(d: nat) -> Seq<u8> {
    Seq::new(d * 2, |i: int| 32u8)
}

/// The indentation level one step deeper; nesting past ten thousand
/// levels stays flat.
pub open spec fn next_depth(d: nat) -> nat {
    if d < 10_000 { (d + 1) as nat } else { d }
}

/// The text of the value `v`: one line when `pretty` is false, otherwise
/// nested with two-space indentation at `depth`.
pub open spec fn spec_render(v: JsonSpec, pretty: bool, depth: nat) -> Seq<u8>
    decreases v, 0int, 0int,
{
    match v {
        JsonSpec::Null => seq![110u8, 117u8, 108u8, 108u8],
        JsonSpec::Bool(b) => if b {
            seq![116u8, 114u8, 117u8, 101u8]
        } else {
            seq![102u8, 97u8, 108u8, 115u8, 101u8]
        },
        JsonSpec::Num(lit) => lit,
        JsonSpec::Str(sb) => seq![34u8] + escape_bytes(sb) + seq![34u8],
        JsonSpec::Arr(es) => {
            if es.len() == 0 {
                seq![91u8, 93u8]
            } else if pretty {
                seq![91u8, 10u8] + spec_render_elems(es, true, next_depth(depth))
                    + seq![10u8] + indent_sp(depth) + seq![93u8]
            } else {
                seq![91u8] + spec_render_elems(es, false, 0) + seq![93u8]
            }
        },
        JsonSpec::Obj(ms) => {
            if ms.len() == 0 {
                seq![123u8, 125u8]
            } else if pretty {
                seq![123u8, 10u8] + spec_render_members(ms, true, next_depth(depth))
                    + seq![10u8] + indent_sp(depth) + seq![125u8]
            } else {
                seq![123u8] + spec_render_members(ms, false, 0) + seq![125u8]
            }
        },
    }
}

/// The rendered elements of an array, comma separated; in pretty form each
/// stands indented on its own line.
pub open spec fn spec_render_elems(es: Seq<JsonSpec>, pretty: bool, depth: nat) -> Seq<u8>
    decreases es, 1int, 0int,
{
    if es.len() == 0 {
        Seq::empty()
    } else {
        let head: Seq<u8> = if pretty { indent_sp(depth) } else { Seq::empty() }
            + spec_render(es[0], pretty, depth);
        if es.len() == 1 {
            head
        } else if pretty {
            head + seq![44u8, 10u8] + spec_render_elems(es.drop_first(), pretty, depth)
        } else {
            head + seq![44u8] + spec_render_elems(es.drop_first(), pretty, depth)
        }
    }
}

/// The rendered members of an object, comma separated; in pretty form each
/// stands indented on its own line.
pub open spec fn spec_render_members(ms: Seq<(Seq<u8>, JsonSpec)>, pretty: bool, depth: nat) -> Seq<u8>
    decreases ms, 1int, 0int,
{
    if ms.len() == 0 {
        Seq::empty()
    } else {
        let head: Seq<u8> = if pretty { indent_sp(depth) } else { Seq::empty() }
            + seq![34u8] + escape_bytes(ms[0].0) + seq![34u8, 58u8]
            + (if pretty { seq![32u8] } else { Seq::empty() })
            + spec_render(ms[0].1, pretty, depth);
        if ms.len() == 1 {
            head
        } else if pretty {
            head + seq![44u8, 10u8] + spec_render_members(ms.drop_first(), pretty, depth)
        } else {
            head + seq![44u8] + spec_render_members(ms.drop_first(), pretty, depth)
        }
    }
}

/// One escaped byte appended at a time renders the whole content.
proof fn lemma_escape_snoc(sb: Seq<u8>, i: int)
    requires 0 <= i < sb.len(),
    ensures escape_bytes(sb.take(i + 1)) == escape_bytes(sb.take(i)) + escape_byte(sb[i]),
    decreases i,
{
    if i == 0 {
        reveal_with_fuel(escape_bytes, 3);
        assert(sb.take(1).drop_first() =~= Seq::<u8>::empty());
        assert(sb.take(0) =~= Seq::<u8>::empty());
        assert(escape_bytes(sb.take(1)) =~= escape_byte(sb[0]));
        assert(escape_bytes(sb.take(0)) + escape_byte(sb[0]) =~= escape_byte(sb[0]));
    } else {
        lemma_escape_snoc(sb.drop_first(), i - 1);
        assert(sb.take(i + 1).drop_first() =~= sb.drop_first().take(i));
        assert(sb.take(i).drop_first() =~= sb.drop_first().take(i - 1));
        assert(escape_bytes(sb.take(i + 1)) == escape_byte(sb[0]) + escape_bytes(sb.drop_first().take(i)));
        assert(escape_bytes(sb.take(i)) == escape_byte(sb[0]) + escape_bytes(sb.drop_first().take(i - 1)));
        assert(escape_byte(sb[0]) + (escape_bytes(sb.drop_first().take(i - 1)) + escape_byte(sb[i]))
            =~= (escape_byte(sb[0]) + escape_bytes(sb.drop_first().take(i - 1))) + escape_byte(sb[i]));
    }
}

/// Appends the escaped content of `sb` to `out`.
fn push_escaped(sb: &[u8], out: &mut Vec<u8>)
    ensures final(out)@ == old(out)@ + escape_bytes(sb@),
{
    let n = sb.len();
    let mut i: usize = 0;
    proof {
        assert(sb@.take(0) =~= Seq::<u8>::empty());
        assert(out@ + escape_bytes(sb@.take(0)) =~= out@);
    }
    while i < n
        invariant
            0 <= i <= n,
            n == sb@.len(),
            out@ == old(out)@ + escape_bytes(sb@.take(i as int)),
        decreases n - i,
    {
        let b = sb[i];
        let ghost before = out@;
        if b == 34 || b == 92 || b == 8 || b == 9 || b == 10 || b == 12 || b == 13 {
            out.push(92);
            out.push(if b == 34 {
                34
            } else if b == 92 {
                92
            } else if b == 8 {
                98
            } else if b == 9 {
                116
            } else if b == 10 {
                110
            } else if b == 12 {
                102
            } else {
                114
            });
            proof {
                assert(out@ =~= before + escape_byte(sb@[i as int]));
            }
        } else if b < 32 {
            out.push(92);
            out.push(117);
            out.push(48);
            out.push(48);
            out.push(if b / 16 < 10 { 48 + b / 16 } else { 97 + b / 16 - 10 });
            out.push(if b % 16 < 10 { 48 + b % 16 } else { 97 + b % 16 - 10 });
            proof {
                assert(out@ =~= before + escape_byte(sb@[i as int]));
            }
        } else {
            out.push(b);
            proof {
                assert(out@ =~= before + escape_byte(sb@[i as int]));
            }
        }
        proof {
            lemma_escape_snoc(sb@, i as int);
            assert(out@ =~= old(out)@ + escape_bytes(sb@.take(i as int + 1)));
        }
        i = i + 1;
    }
    proof {
        assert(sb@.take(n as int) =~= sb@);
    }
}

/// Appends `d` levels of two-space indentation to `out`.
fn push_indent(d: usize, out: &mut Vec<u8>)
    requires d <= 10_000,
    ensures final(out)@ == old(out)@ + indent_sp(d as nat),
{
    let mut i: usize = 0;
    while i < d * 2
        invariant
            0 <= i <= d * 2 <= 20_000,
            out@ == old(out)@ + Seq::new(i as nat, |t: int| 32u8),
        decreases d * 2 - i,
    {
        let ghost before = out@;
        out.push(32);
        proof {
            assert(out@ =~= old(out)@ + Seq::new((i + 1) as nat, |t: int| 32u8));
        }
        i = i + 1;
    }
    proof {
        assert(Seq::new((d * 2) as nat, |t: int| 32u8) =~= indent_sp(d as nat));
    }
}

impl Json {
    /// Appends the one-line text of this value to `out`.
    pub fn render(&self, out: &mut Vec<u8>)
        ensures final(out)@ == old(out)@ + spec_render(self@, false, 0),
        decreases self, 0int, 0int,
    {
        self.render_with(false, 0, out);
    }

    /// Appends the indented text of this value at `depth` to `out`.
    pub fn render_pretty(&self, depth: usize, out: &mut Vec<u8>)
        requires depth <= 10_000,
        ensures final(out)@ == old(out)@ + spec_render(self@, true, depth as nat),
        decreases self, 0int, 0int,
    {
        self.render_with(true, depth, out);
    }

    #[verifier::rlimit(100)]
    fn render_with(&self, pretty: bool, depth: usize, out: &mut Vec<u8>)
        requires depth <= 10_000,
        ensures final(out)@ == old(out)@ + spec_render(self@, pretty, depth as nat),
        decreases self, 0int, 0int,
    {
        let ghost before = out@;
        match self {
            Json::Null => {
                out.push(110);
                out.push(117);
                out.push(108);
                out.push(108);
                proof {
                    assert(out@ =~= before + spec_render(self@, pretty, depth as nat));
                }
            },
            Json::Bool(b) => {
                if *b {
                    out.push(116);
                    out.push(114);
                    out.push(117);
                    out.push(101);
                } else {
                    out.push(102);
                    out.push(97);
                    out.push(108);
                    out.push(115);
                    out.push(101);
                }
                proof {
                    assert(out@ =~= before + spec_render(self@, pretty, depth as nat));
                }
            },
            Json::Num(lit) => {
                let mut copy: Vec<u8> = Vec::new();
                crate::score::collect_range(lit.as_slice(), 0, lit.len(), &mut copy);
                out.append(&mut copy);
                proof {
                    assert(lit@.subrange(0, lit@.len() as int) =~= lit@);
                    assert(out@ =~= before + spec_render(self@, pretty, depth as nat));
                }
            },
            Json::Str(sb) => {
                out.push(34);
                push_escaped(sb.as_slice(), out);
                out.push(34);
                proof {
                    assert(out@ =~= before + spec_render(self@, pretty, depth as nat));
                }
            },
            Json::Arr(es) => {
                if es.len() == 0 {
                    out.push(91);
                    out.push(93);
                    proof {
                        assert(json_view_seq(es@) =~= Seq::<JsonSpec>::empty());
                        assert(out@ =~= before + spec_render(self@, pretty, depth as nat));
                    }
                } else if pretty {
                    let d2: usize = if depth < 10_000 { depth + 1 } else { depth };
                    out.push(91);
                    out.push(10);
                    render_elems_from(es, 0, pretty, d2, out);
                    out.push(10);
                    push_indent(depth, out);
                    out.push(93);
                    proof {
                        assert(json_view_seq(es@).len() > 0);
                        assert(json_view_seq(es@).skip(0) =~= json_view_seq(es@));
                        assert(out@ =~= before + spec_render(self@, pretty, depth as nat));
                    }
                } else {
                    out.push(91);
                    render_elems_from(es, 0, pretty, 0, out);
                    out.push(93);
                    proof {
                        assert(json_view_seq(es@).len() > 0);
                        assert(json_view_seq(es@).skip(0) =~= json_view_seq(es@));
                        assert(out@ =~= before + spec_render(self@, pretty, depth as nat));
                    }
                }
            },
            Json::Obj(ms) => {
                if ms.len() == 0 {
                    out.push(123);
                    out.push(125);
                    proof {
                        assert(json_view_members(ms@) =~= Seq::<(Seq<u8>, JsonSpec)>::empty());
                        assert(out@ =~= before + spec_render(self@, pretty, depth as nat));
                    }
                } else if pretty {
                    let d2: usize = if depth < 10_000 { depth + 1 } else { depth };
                    out.push(123);
                    out.push(10);
                    render_members_from(ms, 0, pretty, d2, out);
                    out.push(10);
                    push_indent(depth, out);
                    out.push(125);
                    proof {
                        assert(json_view_members(ms@).len() > 0);
                        assert(json_view_members(ms@).skip(0) =~= json_view_members(ms@));
                        assert(out@ =~= before + spec_render(self@, pretty, depth as nat));
                    }
                } else {
                    out.push(123);
                    render_members_from(ms, 0, pretty, 0, out);
                    out.push(125);
                    proof {
                        assert(json_view_members(ms@).len() > 0);
                        assert(json_view_members(ms@).skip(0) =~= json_view_members(ms@));
                        assert(out@ =~= before + spec_render(self@, pretty, depth as nat));
                    }
                }
            },
        }
    }
}

/// The length and the entries of a viewed element list.
pub proof fn lemma_view_seq_index(es: Seq<Json>)
    ensures
        json_view_seq(es).len() == es.len(),
        forall|i: int| 0 <= i < es.len() ==> json_view_seq(es)[i] == json_view(#[trigger] es[i]),
    decreases es.len(),
{
    if es.len() > 0 {
        lemma_view_seq_index(es.drop_first());
        assert(forall|i: int| 1 <= i < es.len() ==> es.drop_first()[i - 1] == es[i]);
    }
}

/// The length and the entries of a viewed member list.
pub proof fn lemma_view_members_index(ms: Seq<(Vec<u8>, Json)>)
    ensures
        json_view_members(ms).len() == ms.len(),
        forall|i: int| 0 <= i < ms.len()
            ==> json_view_members(ms)[i] == ((#[trigger] ms[i]).0@, json_view(ms[i].1)),
    decreases ms.len(),
{
    if ms.len() > 0 {
        lemma_view_members_index(ms.drop_first());
        assert(forall|i: int| 1 <= i < ms.len() ==> ms.drop_first()[i - 1] == ms[i]);
    }
}

/// Appends the rendered elements of `es` from position `i` on to `out`.
#[verifier::rlimit(100)]
fn render_elems_from(es: &Vec<Json>, i: usize, pretty: bool, depth: usize, out: &mut Vec<u8>)
    requires
        i < es@.len(),
        depth <= 10_000,
    ensures
        final(out)@ == old(out)@ + spec_render_elems(json_view_seq(es@).skip(i as int), pretty, depth as nat),
    decreases es, 1int, es@.len() - i,
{
    let ghost views = json_view_seq(es@);
    proof {
        lemma_view_seq_index(es@);
    }
    if pretty {
        push_indent(depth, out);
    }
    let n = es.len();
    let v = &es[i];
    v.render_with(pretty, depth, out);
    if i + 1 < n {
        out.push(44);
        if pretty {
            out.push(10);
        }
        render_elems_from(es, i + 1, pretty, depth, out);
        proof {
            assert(views.skip(i as int).drop_first() =~= views.skip(i as int + 1));
            assert(views.skip(i as int)[0] == json_view(es@[i as int]));
            assert(final(out)@ =~= old(out)@ + spec_render_elems(views.skip(i as int), pretty, depth as nat));
        }
    } else {
        proof {
            assert(views.skip(i as int).len() == 1);
            assert(views.skip(i as int)[0] == json_view(es@[i as int]));
            assert(final(out)@ =~= old(out)@ + spec_render_elems(views.skip(i as int), pretty, depth as nat));
        }
    }
}

/// Appends the rendered members of `ms` from position `i` on to `out`.
#[verifier::rlimit(100)]
fn render_members_from(ms: &Vec<(Vec<u8>, Json)>, i: usize, pretty: bool, depth: usize, out: &mut Vec<u8>)
    requires
        i < ms@.len(),
        depth <= 10_000,
    ensures
        final(out)@ == old(out)@ + spec_render_members(json_view_members(ms@).skip(i as int), pretty, depth as nat),
    decreases ms, 1int, ms@.len() - i,
{
    let ghost views = json_view_members(ms@);
    proof {
        lemma_view_members_index(ms@);
    }
    if pretty {
        push_indent(depth, out);
    }
    out.push(34);
    push_escaped(ms[i].0.as_slice(), out);
    out.push(34);
    out.push(58);
    if pretty {
        out.push(32);
    }
    let n = ms.len();
    let v = &ms[i].1;
    v.render_with(pretty, depth, out);
    if i + 1 < n {
        out.push(44);
        if pretty {
            out.push(10);
        }
        render_members_from(ms, i + 1, pretty, depth, out);
        proof {
            assert(views.skip(i as int).drop_first() =~= views.skip(i as int + 1));
            assert(views.skip(i as int)[0] == (ms@[i as int].0@, json_view(ms@[i as int].1)));
            assert(final(out)@ =~= old(out)@ + spec_render_members(views.skip(i as int), pretty, depth as nat));
        }
    } else {
        proof {
            assert(views.skip(i as int).len() == 1);
            assert(views.skip(i as int)[0] == (ms@[i as int].0@, json_view(ms@[i as int].1)));
            assert(final(out)@ =~= old(out)@ + spec_render_members(views.skip(i as int), pretty, depth as nat));
        }
    }
}


/// The value bound to `k` in the member list, front first.
pub open spec fn members_get(ms: Seq<(Seq<u8>, JsonSpec)>, k: Seq<u8>) -> Option<JsonSpec>
    decreases ms.len(),
{
    if ms.len() == 0 {
        None
    } else if ms[0].0 == k {
        Some(ms[0].1)
    } else {
        members_get(ms.drop_first(), k)
    }
}

/// The value bound to `k` when `v` is an object, `None` otherwise.
pub open spec fn spec_obj_get(v: JsonSpec, k: Seq<u8>) -> Option<JsonSpec> {
    match v {
        JsonSpec::Obj(ms) => members_get(ms, k),
        _ => None,
    }
}

/// The non-negative integer a bare digit literal writes, when it fits
/// an unsigned machine word.
pub open spec fn spec_num_as_u64(lit: Seq<u8>) -> Option<int> {
    if lit.len() > 0 && all_digits(lit) && digits_val(lit) <= u64::MAX {
        Some(digits_val(lit))
    } else {
        None
    }
}

/// The integer an optionally signed digit literal writes, when it fits
/// a signed machine word.
pub open spec fn spec_num_as_i64(lit: Seq<u8>) -> Option<int> {
    let neg = lit.len() > 0 && lit[0] == 45;
    let ds = if neg { lit.drop_first() } else { lit };
    if ds.len() > 0 && all_digits(ds) {
        let v = digits_val(ds);
        if neg && v <= 0x8000_0000_0000_0000 {
            Some(-v)
        } else if !neg && v <= 0x7FFF_FFFF_FFFF_FFFF {
            Some(v)
        } else {
            None
        }
    } else {
        None
    }
}

/// The value of a digit run, or `None` when it has no digits, holds a
/// byte that is no digit, or weighs more than `cap`.
fn digits_to_u128(s: &[u8], cap: u128) -> (r: Option<u128>)
    requires cap < 0x1_0000_0000_0000_0000_0000,
    ensures
        match r {
            Some(v) => s@.len() > 0 && all_digits(s@) && digits_val(s@) == v && v <= cap,
            None => !(s@.len() > 0 && all_digits(s@) && digits_val(s@) <= cap),
        },
{
    let n = s.len();
    if n == 0 {
        return None;
    }
    let mut v: u128 = 0;
    let mut k: usize = 0;
    while k < n
        invariant
            0 <= k <= n,
            n == s@.len(),
            all_digits(s@.take(k as int)),
            v == digits_val(s@.take(k as int)),
            v <= cap,
            cap < 0x1_0000_0000_0000_0000_0000,
        decreases n - k,
    {
        let b = s[k];
        if !(48 <= b && b <= 57) {
            return None;
        }
        proof {
            crate::score::lemma_dv_take_succ(s@, k as int);
            assert(all_digits(s@.take(k as int + 1)));
        }
        v = v * 10 + ((b - 48) as u128);
        if v > cap {
            proof {
                lemma_digits_grow(s@, k as int + 1, cap);
            }
            return None;
        }
        k = k + 1;
    }
    proof {
        assert(s@.take(n as int) =~= s@);
    }
    Some(v)
}

/// Once a digit prefix weighs more than `cap`, the whole run does too.
proof fn lemma_digits_grow(s: Seq<u8>, k: int, cap: u128)
    requires
        all_digits(s.take(k)),
        0 <= k <= s.len(),
        digits_val(s.take(k)) > cap,
    ensures
        all_digits(s) ==> digits_val(s) > cap,
{
    if all_digits(s) {
        crate::score::lemma_dv_prefix_le_pub(s, k, s.len() as int);
        assert(s.take(s.len() as int) =~= s);
    }
}

impl Json {
    /// The value bound to `key` when this value is an object whose keys
    /// hold it, front binding first; `None` otherwise.
    pub fn obj_get<'a>(&'a self, key: &[u8]) -> (r: Option<&'a Json>)
        ensures
            match r {
                Some(v) => spec_obj_get(self@, key@) == Some(v@),
                None => spec_obj_get(self@, key@) is None,
            },
    {
        match self {
            Json::Obj(ms) => {
                let ghost views = json_view_members(ms@);
                proof {
                    lemma_view_members_index(ms@);
                }
                let n = ms.len();
                let mut i: usize = 0;
                proof {
                    assert(views.skip(0) =~= views);
                }
                while i < n
                    invariant
                        0 <= i <= n,
                        n == ms@.len(),
                        views == json_view_members(ms@),
                        self@ == JsonSpec::Obj(views),
                        views.len() == n,
                        forall|t: int| 0 <= t < n
                            ==> views[t] == ((#[trigger] ms@[t]).0@, json_view(ms@[t].1)),
                        members_get(views, key@) == members_get(views.skip(i as int), key@),
                    decreases n - i,
                {
                    if bytes_eq(ms[i].0.as_slice(), key) {
                        proof {
                            assert(views[i as int] == (ms@[i as int].0@, json_view(ms@[i as int].1)));
                            assert(views.skip(i as int)[0] == views[i as int]);
                            assert(views.skip(i as int)[0].0 == key@);
                            assert(views.skip(i as int).len() > 0);
                            assert(members_get(views.skip(i as int), key@) == Some(views.skip(i as int)[0].1));
                            assert(members_get(views.skip(i as int), key@) == Some(json_view(ms@[i as int].1)));
                            assert(self@ == JsonSpec::Obj(views));
                        }
                        return Some(&ms[i].1);
                    }
                    proof {
                        assert(views.skip(i as int)[0] == views[i as int]);
                        assert(views.skip(i as int).drop_first() =~= views.skip(i as int + 1));
                    }
                    i = i + 1;
                }
                proof {
                    assert(views.skip(n as int) =~= Seq::<(Seq<u8>, JsonSpec)>::empty());
                }
                None
            },
            _ => None,
        }
    }

    /// The unsigned integer this value writes as a bare digit literal,
    /// when it fits; `None` otherwise.
    pub fn as_u64(&self) -> (r: Option<u64>)
        ensures
            match r {
                Some(v) => self@ matches JsonSpec::Num(lit) && spec_num_as_u64(lit) == Some(v as int),
                None => !(self@ matches JsonSpec::Num(lit) && spec_num_as_u64(lit) is Some),
            },
    {
        match self {
            Json::Num(lit) => {
                match digits_to_u128(lit.as_slice(), u64::MAX as u128) {
                    Some(v) => Some(v as u64),
                    None => None,
                }
            },
            _ => None,
        }
    }

    /// The signed integer this value writes as an optionally signed digit
    /// literal, when it fits; `None` otherwise.
    pub fn as_i64(&self) -> (r: Option<i64>)
        ensures
            match r {
                Some(v) => self@ matches JsonSpec::Num(lit) && spec_num_as_i64(lit) == Some(v as int),
                None => !(self@ matches JsonSpec::Num(lit) && spec_num_as_i64(lit) is Some),
            },
    {
        match self {
            Json::Num(lit) => {
                let neg = lit.len() > 0 && lit[0] == 45;
                let ds: &[u8] = if neg {
                    slice_from(lit.as_slice(), 1)
                } else {
                    lit.as_slice()
                };
                proof {
                    if neg {
                        assert(ds@ =~= lit@.drop_first());
                    }
                }
                if neg {
                    match digits_to_u128(ds, 0x8000_0000_0000_0000u128) {
                        Some(v) => Some((-(v as i128)) as i64),
                        None => None,
                    }
                } else {
                    match digits_to_u128(ds, 0x7FFF_FFFF_FFFF_FFFFu128) {
                        Some(v) => Some(v as i64),
                        None => None,
                    }
                }
            },
            _ => None,
        }
    }
}

/// The tail of `s` from position `a` on.
pub(crate) fn slice_from<'a>(s: &'a [u8], a: usize) -> (r: &'a [u8])
    requires a <= s@.len(),
    ensures r@ == s@.skip(a as int),
{
    let (_, tail) = s.split_at(a);
    proof {
        assert(tail@ =~= s@.skip(a as int));
    }
    tail
}


impl Json {
    /// A structurally equal copy of this value.
    pub fn deep_clone(&self) -> (r: Json)
        ensures r@ == self@,
        decreases self, 1int, 0int,
    {
        match self {
            Json::Null => Json::Null,
            Json::Bool(b) => Json::Bool(*b),
            Json::Num(lit) => Json::Num(crate::service::copy_bytes(lit.as_slice())),
            Json::Str(sb) => Json::Str(crate::service::copy_bytes(sb.as_slice())),
            Json::Arr(es) => {
                let copies = clone_elems(es);
                Json::Arr(copies)
            },
            Json::Obj(ms) => {
                let copies = clone_members(ms);
                Json::Obj(copies)
            },
        }
    }
}

/// Structurally equal copies of the values.
pub(crate) fn clone_elems(es: &Vec<Json>) -> (r: Vec<Json>)
    ensures json_view_seq(r@) == json_view_seq(es@),
    decreases es, 0int, 0int,
{
    let ghost views = json_view_seq(es@);
    proof {
        lemma_view_seq_index(es@);
    }
    let n = es.len();
    let mut out: Vec<Json> = Vec::new();
    let mut i: usize = 0;
    while i < n
        invariant
            0 <= i <= n,
            n == es@.len(),
            views == json_view_seq(es@),
            views.len() == n,
            forall|t: int| 0 <= t < n ==> views[t] == json_view(#[trigger] es@[t]),
            out@.len() == i,
            json_view_seq(out@) == views.take(i as int),
        decreases n - i,
    {
        let ghost before = out@;
        let c = es[i].deep_clone();
        out.push(c);
        proof {
            assert(out@ =~= before.push(c));
            lemma_view_seq_snoc(before, c);
            assert(views.take(i as int).push(json_view(c)) =~= views.take(i as int + 1));
        }
        i = i + 1;
    }
    proof {
        assert(views.take(n as int) =~= views);
    }
    out
}

/// Structurally equal copies of the keyed values.
pub(crate) fn clone_members(ms: &Vec<(Vec<u8>, Json)>) -> (r: Vec<(Vec<u8>, Json)>)
    ensures json_view_members(r@) == json_view_members(ms@),
    decreases ms, 0int, 0int,
{
    let ghost views = json_view_members(ms@);
    proof {
        lemma_view_members_index(ms@);
    }
    let n = ms.len();
    let mut out: Vec<(Vec<u8>, Json)> = Vec::new();
    let mut i: usize = 0;
    while i < n
        invariant
            0 <= i <= n,
            n == ms@.len(),
            views == json_view_members(ms@),
            views.len() == n,
            forall|t: int| 0 <= t < n
                ==> views[t] == ((#[trigger] ms@[t]).0@, json_view(ms@[t].1)),
            out@.len() == i,
            json_view_members(out@) == views.take(i as int),
        decreases n - i,
    {
        let ghost before = out@;
        let k = crate::service::copy_bytes(ms[i].0.as_slice());
        let c = ms[i].1.deep_clone();
        let ghost kc = (k, c);
        out.push((k, c));
        proof {
            assert(out@ =~= before.push(kc));
            lemma_view_members_snoc(before, kc);
            assert(views.take(i as int).push((kc.0@, json_view(kc.1))) =~= views.take(i as int + 1));
        }
        i = i + 1;
    }
    proof {
        assert(views.take(n as int) =~= views);
    }
    out
}

/// A value appended to an element list appends its shape to the view.
pub proof fn lemma_view_seq_snoc(es: Seq<Json>, x: Json)
    ensures json_view_seq(es.push(x)) == json_view_seq(es).push(json_view(x)),
    decreases es.len(),
{
    lemma_view_seq_index(es.push(x));
    lemma_view_seq_index(es);
    assert forall|i: int| 0 <= i < es.len() + 1
        implies json_view_seq(es.push(x))[i] == json_view_seq(es).push(json_view(x))[i] by {
        if i < es.len() {
            assert(es.push(x)[i] == es[i]);
        } else {
            assert(es.push(x)[i] == x);
        }
    }
    assert(json_view_seq(es.push(x)) =~= json_view_seq(es).push(json_view(x)));
}

/// A pair appended to a member list appends its shape to the view.
pub proof fn lemma_view_members_snoc(ms: Seq<(Vec<u8>, Json)>, x: (Vec<u8>, Json))
    ensures json_view_members(ms.push(x)) == json_view_members(ms).push((x.0@, json_view(x.1))),
    decreases ms.len(),
{
    lemma_view_members_index(ms.push(x));
    lemma_view_members_index(ms);
    assert forall|i: int| 0 <= i < ms.len() + 1
        implies json_view_members(ms.push(x))[i] == json_view_members(ms).push((x.0@, json_view(x.1)))[i] by {
        if i < ms.len() {
            assert(ms.push(x)[i] == ms[i]);
        } else {
            assert(ms.push(x)[i] == x);
        }
    }
    assert(json_view_members(ms.push(x)) =~= json_view_members(ms).push((x.0@, json_view(x.1))));
}


/// A small hexadecimal digit reads back as its value.
proof fn lemma_hex_lower(v: u8)
    requires v < 16,
    ensures hex_val(hex_lower(v)) == Some(v as int),
{
}

/// An escaped string content followed by its closing quote reads back as
/// exactly that content, wherever it stands in a text.
proof fn lemma_escaped_reads_back(s: Seq<u8>, i: int, sb: Seq<u8>)
    requires
        0 <= i,
        i + escape_bytes(sb).len() + 1 <= s.len(),
        s.subrange(i, i + escape_bytes(sb).len() + 1) == escape_bytes(sb) + seq![34u8],
    ensures
        spec_parse_string_body(s, i) == Some((sb, i + escape_bytes(sb).len() + 1)),
    decreases sb.len(),
{
    let eb = escape_bytes(sb);
    let w = s.subrange(i, i + eb.len() + 1);
    if sb.len() == 0 {
        assert(eb =~= Seq::<u8>::empty());
        assert(s[i] == w[0]);
        assert(w[0] == 34);
    } else {
        let b = sb[0];
        let rest = sb.drop_first();
        let p = escape_byte(b);
        let ebr = escape_bytes(rest);
        assert(eb == p + ebr);
        assert forall|t: int| 0 <= t < eb.len() + 1 implies s[i + t] == (eb + seq![34u8])[t] by {
            assert(w[t] == s[i + t]);
        }
        assert(s.subrange(i + p.len(), i + eb.len() + 1) =~= ebr + seq![34u8]) by {
            assert forall|t: int| 0 <= t < ebr.len() + 1
                implies s.subrange(i + p.len(), i + eb.len() + 1)[t] == (ebr + seq![34u8])[t] by {
                assert(s.subrange(i + p.len(), i + eb.len() + 1)[t] == s[i + p.len() + t]);
                assert(s[i + p.len() + t] == (eb + seq![34u8])[p.len() + t]);
                if p.len() + t < eb.len() {
                    assert((eb + seq![34u8])[p.len() + t] == eb[p.len() + t]);
                    assert(eb[p.len() + t] == ebr[t]);
                }
            }
        }
        lemma_escaped_reads_back(s, i + p.len() as int, rest);
        assert forall|k: int| 0 <= k < p.len() implies w[k] == p[k] by {
            assert(w[k] == (eb + seq![34u8])[k]);
            assert((eb + seq![34u8])[k] == eb[k]);
            assert(eb[k] == (p + ebr)[k]);
            assert((p + ebr)[k] == p[k]);
        }
        if b == 34 || b == 92 || b == 8 || b == 9 || b == 10 || b == 12 || b == 13 {
            assert(p.len() == 2);
            assert(s[i] == w[0]);
            assert(s[i] == 92);
            assert(s[i + 1] == w[1]);
            assert(s[i + 1] == p[1]);
            assert(spec_parse_string_body(s, i) == Some((seq![b] + rest, i + eb.len() + 1)));
            assert(seq![b] + rest =~= sb);
        } else if b < 32 {
            assert(p == seq![92u8, 117u8, 48u8, 48u8, hex_lower(b / 16), hex_lower(b % 16)]);
            assert(s[i] == w[0]);
            assert(s[i] == 92);
            assert(s[i + 1] == w[1]);
            assert(s[i + 1] == 117);
            assert(s[i + 2] == w[2]);
            assert(s[i + 2] == 48);
            assert(s[i + 3] == w[3]);
            assert(s[i + 3] == 48);
            assert(s[i + 4] == w[4]);
            assert(s[i + 4] == hex_lower(b / 16));
            assert(s[i + 5] == w[5]);
            assert(s[i + 5] == hex_lower(b % 16));
            lemma_hex_lower(b / 16);
            lemma_hex_lower(b % 16);
            assert(hex4_val(s, i + 2) == Some(((b / 16) * 16 + b % 16) as int));
            assert((b / 16) * 16 + b % 16 == b) by (nonlinear_arith);
            assert(utf8_enc(b as int) =~= seq![b]);
            assert(spec_parse_string_body(s, i)
                == Some((utf8_enc(b as int) + rest, i + eb.len() + 1)));
            assert(utf8_enc(b as int) + rest =~= sb);
        } else {
            assert(p =~= seq![b]);
            assert(s[i] == w[0]);
            assert(s[i] == b);
            assert(spec_parse_string_body(s, i) == Some((seq![b] + rest, i + eb.len() + 1)));
            assert(seq![b] + rest =~= sb);
        }
    }
}

/// A digit scan inside an equal window, whose boundary byte cannot extend
/// a number token, scans to the same offset as in the window alone.
proof fn lemma_scan_window(s: Seq<u8>, i: int, lit: Seq<u8>, k: int)
    requires
        0 <= i,
        0 <= k <= lit.len(),
        i + lit.len() <= s.len(),
        forall|t: int| 0 <= t < lit.len() ==> s[i + t] == #[trigger] lit[t],
        i + lit.len() == s.len() || !is_digit(s[i + lit.len()]),
    ensures
        scan_digits(s, i + k) == i + scan_digits(lit, k),
    decreases lit.len() - k,
{
    if k < lit.len() {
        assert(s[i + k] == lit[k]);
        if is_digit(lit[k]) {
            lemma_scan_window(s, i, lit, k + 1);
        }
    }
}

/// A well-formed number token inside a text, whose boundary byte cannot
/// extend it, reads back as exactly that token.
proof fn lemma_number_reads_back(s: Seq<u8>, i: int, lit: Seq<u8>)
    requires
        0 <= i,
        i + lit.len() <= s.len(),
        forall|t: int| 0 <= t < lit.len() ==> s[i + t] == #[trigger] lit[t],
        spec_parse_number(lit, 0) == Some((lit, lit.len() as int)),
        i + lit.len() == s.len()
            || !(is_digit(s[i + lit.len()]) || s[i + lit.len()] == 46
                || s[i + lit.len()] == 101 || s[i + lit.len()] == 69),
    ensures
        spec_parse_number(s, i) == Some((lit, i + lit.len())),
{
    let n = lit.len() as int;
    assert(0 < n);
    assert(s[i] == lit[0]);
    let i1l: int = if lit[0] == 45 { 1 } else { 0 };
    let i1: int = i + i1l;
    assert(i1l < n);
    assert(s[i + i1l] == lit[i1l]);
    lemma_scan_window(s, i, lit, i1l);
    let i2l = scan_digits(lit, i1l);
    let i2 = i + i2l;
    crate::score::lemma_scan_digits_bounds(lit, i1l);
    let i2e: int = if lit[i1l] == 48 { i1l + 1 } else { i2l };
    if i2e < n {
        assert(s[i + i2e] == lit[i2e]);
    }
    let has_dot = i2e < n && lit[i2e] == 46;
    let fstart: int = if has_dot { i2e + 1 } else { i2e };
    if fstart <= n {
        lemma_scan_window(s, i, lit, fstart);
        crate::score::lemma_scan_digits_bounds(lit, fstart);
    }
    let i3l: int = if has_dot { scan_digits(lit, i2e + 1) } else { i2e };
    if i3l < n {
        assert(s[i + i3l] == lit[i3l]);
    }
    let has_exp = i3l < n && (lit[i3l] == 101 || lit[i3l] == 69);
    if has_exp && i3l + 1 < n {
        assert(s[i + i3l + 1] == lit[i3l + 1]);
    }
    let esign = has_exp && i3l + 1 < n && (lit[i3l + 1] == 43 || lit[i3l + 1] == 45);
    let estart: int = if esign { i3l + 2 } else { i3l + 1 };
    if has_exp && 0 <= estart <= n {
        lemma_scan_window(s, i, lit, estart);
        crate::score::lemma_scan_digits_bounds(lit, estart);
    }
    assert(s.subrange(i, i + n) =~= lit);
}

/// A value fit to re-read: number tokens are exactly the tokens the
/// parser produces, and object keys stand in strict byte order, as the
/// parser gathers them.
pub open spec fn json_wf(v: JsonSpec) -> bool
    decreases v, 1int,
{
    match v {
        JsonSpec::Null => true,
        JsonSpec::Bool(_) => true,
        JsonSpec::Str(_) => true,
        JsonSpec::Num(lit) => spec_parse_number(lit, 0) == Some((lit, lit.len() as int)),
        JsonSpec::Arr(es) => json_wf_seq(es),
        JsonSpec::Obj(ms) => json_wf_members(ms),
    }
}

/// Every element fit to re-read.
pub open spec fn json_wf_seq(es: Seq<JsonSpec>) -> bool
    decreases es, 0int,
{
    es.len() == 0 || (json_wf(es[0]) && json_wf_seq(es.drop_first()))
}

/// Every member's value fit to re-read, under strictly rising keys.
pub open spec fn json_wf_members(ms: Seq<(Seq<u8>, JsonSpec)>) -> bool
    decreases ms, 0int,
{
    ms.len() == 0
        || (json_wf(ms[0].1)
            && (ms.len() == 1 || lex_lt(ms[0].0, ms[1].0))
            && json_wf_members(ms.drop_first()))
}

/// A rendered value starts with a byte that is no blank and no closing
/// punctuation.
proof fn lemma_render_head(v: JsonSpec)
    requires json_wf(v),
    ensures
        spec_render(v, false, 0).len() > 0,
        !is_ws(spec_render(v, false, 0)[0]),
        spec_render(v, false, 0)[0] != 44,
        spec_render(v, false, 0)[0] != 93,
        spec_render(v, false, 0)[0] != 125,
        spec_render(v, false, 0)[0] != 58,
{
    match v {
        JsonSpec::Num(lit) => {
            assert(0 < lit.len());
            assert(lit[0] == 45 || is_digit(lit[0]));
        },
        _ => {},
    }
}

/// A well-formed value inside a text, whose boundary byte cannot extend
/// it, reads back as exactly that value.
proof fn lemma_value_reads_back(s: Seq<u8>, i: int, v: JsonSpec)
    requires
        json_wf(v),
        0 <= i,
        i + spec_render(v, false, 0).len() <= s.len(),
        forall|t: int| 0 <= t < spec_render(v, false, 0).len()
            ==> s[i + t] == #[trigger] spec_render(v, false, 0)[t],
        i + spec_render(v, false, 0).len() == s.len()
            || s[i + spec_render(v, false, 0).len()] == 44
            || s[i + spec_render(v, false, 0).len()] == 93
            || s[i + spec_render(v, false, 0).len()] == 125,
    ensures
        spec_parse_value(s, i) == Some((v, i + spec_render(v, false, 0).len())),
    decreases v, 0int,
{
    let rr = spec_render(v, false, 0);
    assert(rr.len() > 0 && !is_ws(rr[0])) by { lemma_render_head(v); }
    assert(s[i] == rr[0]);
    assert(spec_ws(s, i) == i);
    match v {
        JsonSpec::Null => {
            assert(s[i + 1] == rr[1] && s[i + 2] == rr[2] && s[i + 3] == rr[3]);
        },
        JsonSpec::Bool(b) => {
            if b {
                assert(s[i + 1] == rr[1] && s[i + 2] == rr[2] && s[i + 3] == rr[3]);
            } else {
                assert(s[i + 1] == rr[1] && s[i + 2] == rr[2] && s[i + 3] == rr[3]
                    && s[i + 4] == rr[4]);
            }
        },
        JsonSpec::Num(lit) => {
            assert(rr == lit);
            lemma_number_reads_back(s, i, lit);
        },
        JsonSpec::Str(sb) => {
            let eb = escape_bytes(sb);
            assert(rr == seq![34u8] + eb + seq![34u8]);
            assert(s.subrange(i + 1, i + 1 + eb.len() + 1) =~= eb + seq![34u8]) by {
                assert forall|t: int| 0 <= t < eb.len() + 1
                    implies s.subrange(i + 1, i + 1 + eb.len() + 1)[t] == (eb + seq![34u8])[t] by {
                    assert(s.subrange(i + 1, i + 1 + eb.len() + 1)[t] == s[i + 1 + t]);
                    assert(s[i + (1 + t)] == rr[1 + t]);
                    assert(rr[1 + t] == (eb + seq![34u8])[t]);
                }
            }
            lemma_escaped_reads_back(s, i + 1, sb);
        },
        JsonSpec::Arr(es) => {
            if es.len() == 0 {
                assert(rr == seq![91u8, 93u8]);
                assert(s[i + 1] == rr[1]);
                assert(spec_ws(s, i + 1) == i + 1);
                assert(es =~= Seq::<JsonSpec>::empty());
            } else {
                let re = spec_render_elems(es, false, 0) + seq![93u8];
                assert(rr == seq![91u8] + spec_render_elems(es, false, 0) + seq![93u8]);
                assert forall|t: int| 0 <= t < re.len() implies s[i + 1 + t] == #[trigger] re[t] by {
                    assert(s[i + (1 + t)] == rr[1 + t]);
                    if t < re.len() - 1 {
                        assert(rr[1 + t] == spec_render_elems(es, false, 0)[t]);
                        assert(re[t] == spec_render_elems(es, false, 0)[t]);
                    } else {
                        assert(rr[1 + t] == 93);
                        assert(re[t] == 93);
                    }
                }
                lemma_elems_read_back(s, i + 1, es);
                // the first element's head keeps the empty-list check off
                assert(json_wf(es[0]));
                lemma_render_head(es[0]);
                let e0 = spec_render(es[0], false, 0);
                assert(spec_render_elems(es, false, 0)[0] == e0[0]) by {
                    assert((if false { indent_sp(0) } else { Seq::<u8>::empty() }) + e0 =~= e0);
                }
                assert(s[i + 1] == rr[1]);
                assert(rr[1] == e0[0]);
                assert(spec_ws(s, i + 1) == i + 1);
                assert(s[i + 1] != 93);
            }
        },
        JsonSpec::Obj(ms) => {
            if ms.len() == 0 {
                assert(rr == seq![123u8, 125u8]);
                assert(s[i + 1] == rr[1]);
                assert(spec_ws(s, i + 1) == i + 1);
                assert(ms =~= Seq::<(Seq<u8>, JsonSpec)>::empty());
            } else {
                let rm = spec_render_members(ms, false, 0) + seq![125u8];
                assert(rr == seq![123u8] + spec_render_members(ms, false, 0) + seq![125u8]);
                assert forall|t: int| 0 <= t < rm.len() implies s[i + 1 + t] == #[trigger] rm[t] by {
                    assert(s[i + (1 + t)] == rr[1 + t]);
                    if t < rm.len() - 1 {
                        assert(rr[1 + t] == spec_render_members(ms, false, 0)[t]);
                        assert(rm[t] == spec_render_members(ms, false, 0)[t]);
                    } else {
                        assert(rr[1 + t] == 125);
                        assert(rm[t] == 125);
                    }
                }
                lemma_members_read_back(s, i + 1, ms);
                assert(spec_render_members(ms, false, 0)[0] == 34);
                assert(s[i + 1] == rr[1]);
                assert(rr[1] == 34);
                assert(spec_ws(s, i + 1) == i + 1);
                assert(s[i + 1] != 125);
            }
        },
    }
}

/// A non-empty rendered element list followed by its bracket reads back
/// as exactly those elements.
proof fn lemma_elems_read_back(s: Seq<u8>, i: int, es: Seq<JsonSpec>)
    requires
        json_wf_seq(es),
        es.len() > 0,
        0 <= i,
        i + spec_render_elems(es, false, 0).len() + 1 <= s.len(),
        forall|t: int| 0 <= t < spec_render_elems(es, false, 0).len() + 1
            ==> s[i + t] == #[trigger] (spec_render_elems(es, false, 0) + seq![93u8])[t],
    ensures
        spec_parse_elems(s, i) == Some((es, i + spec_render_elems(es, false, 0).len() + 1)),
    decreases es, 1int,
{
    let re = spec_render_elems(es, false, 0);
    let e0 = spec_render(es[0], false, 0);
    assert(json_wf(es[0]));
    if es.len() == 1 {
        assert(re == e0);
        assert forall|t: int| 0 <= t < e0.len() implies s[i + t] == #[trigger] e0[t] by {
            assert(s[i + t] == (re + seq![93u8])[t]);
        }
        assert(s[i + e0.len()] == (re + seq![93u8])[e0.len() as int]);
        assert(s[i + e0.len()] == 93);
        lemma_value_reads_back(s, i, es[0]);
        assert(spec_ws(s, i + e0.len()) == i + e0.len());
        assert(seq![es[0]] =~= es);
    } else {
        let rest = es.drop_first();
        let rrest = spec_render_elems(rest, false, 0);
        assert(re == e0 + seq![44u8] + rrest);
        assert forall|t: int| 0 <= t < e0.len() implies s[i + t] == #[trigger] e0[t] by {
            assert(s[i + t] == (re + seq![93u8])[t]);
        }
        assert(s[i + e0.len()] == (re + seq![93u8])[e0.len() as int]);
        assert(s[i + e0.len()] == 44);
        lemma_value_reads_back(s, i, es[0]);
        assert(spec_ws(s, i + e0.len()) == i + e0.len());
        let j = i + e0.len() + 1;
        assert forall|t: int| 0 <= t < rrest.len() + 1
            implies s[j + t] == #[trigger] (rrest + seq![93u8])[t] by {
            assert(s[i + (e0.len() + 1 + t)] == (re + seq![93u8])[e0.len() + 1 + t]);
            if t < rrest.len() {
                assert((re + seq![93u8])[e0.len() + 1 + t] == rrest[t]);
            } else {
                assert((re + seq![93u8])[e0.len() + 1 + t] == 93);
            }
            assert((rrest + seq![93u8])[t] == (if t < rrest.len() { rrest[t] } else { 93u8 }));
        }
        lemma_elems_read_back(s, j, rest);
        assert(seq![es[0]] + rest =~= es);
    }
}

/// A non-empty rendered member list followed by its brace reads back as
/// exactly those members.
proof fn lemma_members_read_back(s: Seq<u8>, i: int, ms: Seq<(Seq<u8>, JsonSpec)>)
    requires
        json_wf_members(ms),
        ms.len() > 0,
        0 <= i,
        i + spec_render_members(ms, false, 0).len() + 1 <= s.len(),
        forall|t: int| 0 <= t < spec_render_members(ms, false, 0).len() + 1
            ==> s[i + t] == #[trigger] (spec_render_members(ms, false, 0) + seq![125u8])[t],
    ensures
        spec_parse_members(s, i) == Some((ms, i + spec_render_members(ms, false, 0).len() + 1)),
    decreases ms, 1int,
{
    let rm = spec_render_members(ms, false, 0);
    let k0 = ms[0].0;
    let v0 = ms[0].1;
    let eb = escape_bytes(k0);
    let key_r = seq![34u8] + eb + seq![34u8, 58u8];
    let v_r = spec_render(v0, false, 0);
    let head = key_r + v_r;
    assert(json_wf(v0));
    assert(rm == (if ms.len() == 1 { head } else { head + seq![44u8] + spec_render_members(ms.drop_first(), false, 0) }));
    assert(s[i] == (rm + seq![125u8])[0]);
    assert(s[i] == 34);
    assert(spec_ws(s, i) == i);
    // the key
    assert(s.subrange(i + 1, i + 1 + eb.len() + 1) =~= eb + seq![34u8]) by {
        assert forall|t: int| 0 <= t < eb.len() + 1
            implies s.subrange(i + 1, i + 1 + eb.len() + 1)[t] == (eb + seq![34u8])[t] by {
            assert(s.subrange(i + 1, i + 1 + eb.len() + 1)[t] == s[i + 1 + t]);
            assert(s[i + (1 + t)] == (rm + seq![125u8])[1 + t]);
            assert(head[1 + t] == key_r[1 + t]);
            assert(key_r[1 + t] == (eb + seq![34u8])[t]);
        }
    }
    lemma_escaped_reads_back(s, i + 1, k0);
    let after_key = i + 1 + eb.len() + 1;
    assert(s[after_key] == (rm + seq![125u8])[after_key - i]);
    assert(head[after_key - i] == 58);
    assert(s[after_key] == 58);
    assert(spec_ws(s, after_key) == after_key);
    // the value
    let vstart = after_key + 1;
    assert forall|t: int| 0 <= t < v_r.len() implies s[vstart + t] == #[trigger] v_r[t] by {
        assert(s[i + (key_r.len() + t)] == (rm + seq![125u8])[key_r.len() + t]);
        assert(head[key_r.len() + t] == v_r[t]);
    }
    let vend = vstart + v_r.len();
    assert(s[vend] == (rm + seq![125u8])[vend - i]);
    if ms.len() == 1 {
        assert(vend - i == rm.len());
        assert(s[vend] == 125);
        lemma_value_reads_back(s, vstart, v0);
        assert(spec_ws(s, vend) == vend);
        assert(seq![(k0, v0)] =~= ms);
    } else {
        let rest = ms.drop_first();
        let rrest = spec_render_members(rest, false, 0);
        assert(rm == head + seq![44u8] + rrest);
        assert((rm + seq![125u8])[vend - i] == 44);
        assert(s[vend] == 44);
        lemma_value_reads_back(s, vstart, v0);
        assert(spec_ws(s, vend) == vend);
        let j = vend + 1;
        assert forall|t: int| 0 <= t < rrest.len() + 1
            implies s[j + t] == #[trigger] (rrest + seq![125u8])[t] by {
            assert(s[i + (head.len() + 1 + t)] == (rm + seq![125u8])[head.len() + 1 + t]);
            if t < rrest.len() {
                assert((rm + seq![125u8])[head.len() + 1 + t] == rrest[t]);
            } else {
                assert((rm + seq![125u8])[head.len() + 1 + t] == 125);
            }
        }
        lemma_members_read_back(s, j, rest);
        lemma_lex_irrefl(k0);
        assert(rest[0] == ms[1]);
        assert(lex_lt(k0, rest[0].0));
        assert(k0 != rest[0].0);
        assert(obj_insert_first(k0, v0, rest) == seq![(k0, v0)] + rest);
        assert(seq![(k0, v0)] + rest =~= ms);
    }
}

/// No byte string stands strictly before itself.
proof fn lemma_lex_irrefl(a: Seq<u8>)
    ensures !lex_lt(a, a),
    decreases a.len(),
{
    if a.len() > 0 {
        lemma_lex_irrefl(a.drop_first());
    }
}


/// Re-serializing is lossless: the one-line text that any well-formed
/// value renders to reads back as exactly that value. Well-formed means
/// fit to re-read: number tokens are kept verbatim as the parser took
/// them, and object keys stand in the strict byte order the parser
/// gathers them in, so everything the parser itself produced reads back
/// unchanged.
pub proof fn lemma_render_round_trip(v: JsonSpec)
    requires json_wf(v),
    ensures spec_parse_json(spec_render(v, false, 0)) == Some(v),
{
    let s = spec_render(v, false, 0);
    assert forall|t: int| 0 <= t < s.len() implies s[0 + t] == #[trigger] s[t] by {
    }
    lemma_value_reads_back(s, 0, v);
    assert(spec_ws(s, s.len() as int) == s.len());
}


/// Two distinct byte strings are ordered one way or the other.
proof fn lemma_lex_total(a: Seq<u8>, b: Seq<u8>)
    requires a != b,
    ensures lex_lt(a, b) || lex_lt(b, a),
    decreases a.len(),
{
    if a.len() == 0 && b.len() == 0 {
        assert(a =~= b);
    }
    if a.len() > 0 && b.len() > 0 && a[0] == b[0] {
        assert(a.drop_first() != b.drop_first()) by {
            if a.drop_first() == b.drop_first() {
                assert(a.drop_first().len() == a.len() - 1);
                assert(b.drop_first().len() == b.len() - 1);
                assert(a.len() == b.len());
                assert forall|t: int| 0 <= t < a.len() implies a[t] == #[trigger] b[t] by {
                    if t > 0 {
                        assert(a.drop_first()[t - 1] == b.drop_first()[t - 1]);
                    }
                }
                assert(a =~= b);
            }
        }
        lemma_lex_total(a.drop_first(), b.drop_first());
    }
}

/// The front key of a merged member list is the new key or the old front
/// key, whichever stands first.
proof fn lemma_insert_head(k: Seq<u8>, v: JsonSpec, ms: Seq<(Seq<u8>, JsonSpec)>)
    ensures
        obj_insert_first(k, v, ms).len() > 0,
        obj_insert_first(k, v, ms)[0].0 == k || (ms.len() > 0 && obj_insert_first(k, v, ms)[0].0 == ms[0].0),
        obj_insert_first(k, v, ms)[0].1 == v || (ms.len() > 0 && obj_insert_first(k, v, ms)[0] == ms[0]),
{
}

/// Merging one binding into a well-formed member list keeps it well
/// formed.
proof fn lemma_insert_wf(k: Seq<u8>, v: JsonSpec, ms: Seq<(Seq<u8>, JsonSpec)>)
    requires
        json_wf_members(ms),
        json_wf(v),
    ensures
        json_wf_members(obj_insert_first(k, v, ms)),
    decreases ms.len(),
{
    let r = obj_insert_first(k, v, ms);
    if ms.len() == 0 {
        assert(r == seq![(k, v)]);
        assert(r.drop_first() =~= Seq::<(Seq<u8>, JsonSpec)>::empty());
        assert(json_wf_members(r.drop_first()));
        assert(json_wf_members(r));
    } else if k == ms[0].0 {
        assert(json_wf_members(r));
    } else if lex_lt(k, ms[0].0) {
        assert(r == seq![(k, v)] + ms);
        assert(r.drop_first() =~= ms);
        assert(r[0] == (k, v) && r[1] == ms[0]);
        assert(json_wf_members(r.drop_first()));
        assert(json_wf_members(r));
    } else {
        assert(json_wf_members(ms.drop_first()));
        lemma_insert_wf(k, v, ms.drop_first());
        let inner = obj_insert_first(k, v, ms.drop_first());
        assert(r == seq![ms[0]] + inner);
        assert(r.drop_first() =~= inner);
        lemma_insert_head(k, v, ms.drop_first());
        lemma_lex_total(k, ms[0].0);
        assert(lex_lt(ms[0].0, k));
        assert(lex_lt(ms[0].0, inner[0].0)) by {
            if inner[0].0 == k {
            } else {
                assert(ms.drop_first().len() > 0);
                assert(inner[0].0 == ms.drop_first()[0].0);
                assert(ms[1] == ms.drop_first()[0]);
                assert(lex_lt(ms[0].0, ms[1].0));
            }
        }
        assert(r[1] == inner[0]);
        assert(json_wf_members(r.drop_first()));
        assert(json_wf_members(r));
    }
}

/// A number token taken from a text reads back, standing alone, as that
/// same token.
proof fn lemma_number_token_wf(s: Seq<u8>, i: int)
    requires
        spec_parse_number(s, i) is Some,
    ensures
        ({
            let (lit, e) = spec_parse_number(s, i)->Some_0;
            &&& i < e <= s.len()
            &&& lit == s.subrange(i, e)
            &&& spec_parse_number(lit, 0) == Some((lit, lit.len() as int))
        }),
{
    let (lit, e) = spec_parse_number(s, i)->Some_0;
    let i1s: int = if s[i] == 45 { i + 1 } else { i };
    crate::score::lemma_scan_digits_bounds(s, i1s);
    let i2s: int = if s[i1s] == 48 { i1s + 1 } else { scan_digits(s, i1s) };
    let has_dot = i2s < s.len() && s[i2s] == 46;
    if has_dot {
        crate::score::lemma_scan_digits_bounds(s, i2s + 1);
    }
    let i3s: int = if has_dot { scan_digits(s, i2s + 1) } else { i2s };
    let has_exp = i3s < s.len() && (s[i3s] == 101 || s[i3s] == 69);
    let esign = has_exp && i3s + 1 < s.len() && (s[i3s + 1] == 43 || s[i3s + 1] == 45);
    let estarts: int = if esign { i3s + 2 } else { i3s + 1 };
    if has_exp {
        crate::score::lemma_scan_digits_bounds(s, estarts);
    }
    assert(lit =~= s.subrange(i, e));
    assert(forall|t: int| 0 <= t < lit.len() ==> #[trigger] lit[t] == s[i + t]);
    // the token's own scans land where the text's scans did
    assert(i1s < e);
    if s[i1s] != 48 {
        assert(scan_digits(lit, i1s - i) == scan_digits(s, i1s) - i) by {
            lemma_scan_back(s, i, e, i1s);
        }
    }
    if has_dot {
        assert(scan_digits(lit, i2s + 1 - i) == scan_digits(s, i2s + 1) - i) by {
            lemma_scan_back(s, i, e, i2s + 1);
        }
    }
    if has_exp {
        assert(scan_digits(lit, estarts - i) == scan_digits(s, estarts) - i) by {
            lemma_scan_back(s, i, e, estarts);
        }
    }
}

/// A digit scan that ends at or before `e` scans the same digits inside
/// the window `[i, e)` taken out of the text.
proof fn lemma_scan_back(s: Seq<u8>, i: int, e: int, p: int)
    requires
        0 <= i <= p <= e <= s.len(),
        scan_digits(s, p) <= e,
        scan_digits(s, p) == e || !is_digit(s[scan_digits(s, p)]),
    ensures
        scan_digits(s.subrange(i, e), p - i) == scan_digits(s, p) - i,
    decreases e - p,
{
    let w = s.subrange(i, e);
    crate::score::lemma_scan_digits_bounds(s, p);
    if p < e {
        assert(w[p - i] == s[p]);
        if is_digit(s[p]) {
            assert(scan_digits(s, p) == scan_digits(s, p + 1));
            lemma_scan_back(s, i, e, p + 1);
        }
    }
}


/// Whatever value the parser reads is fit to re-read.
proof fn lemma_parse_value_wf(s: Seq<u8>, i: int)
    ensures
        spec_parse_value(s, i) matches Some((v, e)) ==> json_wf(v),
    decreases s.len() - i, 0int,
{
    let j = spec_ws(s, i);
    if j < i || j >= s.len() {
    } else if s[j] == 123 {
        let j2 = spec_ws(s, j + 1);
        if j + 1 <= j2 < s.len() && s[j2] == 125 {
            assert(json_wf_members(Seq::<(Seq<u8>, JsonSpec)>::empty()));
        } else {
            lemma_parse_members_wf(s, j + 1);
        }
    } else if s[j] == 91 {
        let j2 = spec_ws(s, j + 1);
        if j + 1 <= j2 < s.len() && s[j2] == 93 {
            assert(json_wf_seq(Seq::<JsonSpec>::empty()));
        } else {
            lemma_parse_elems_wf(s, j + 1);
        }
    } else if s[j] == 45 || is_digit(s[j]) {
        if spec_parse_number(s, j) is Some {
            lemma_number_token_wf(s, j);
        }
    }
}

/// Whatever element list the parser reads is fit to re-read.
proof fn lemma_parse_elems_wf(s: Seq<u8>, i: int)
    ensures
        spec_parse_elems(s, i) matches Some((es, e)) ==> json_wf_seq(es),
    decreases s.len() - i, 1int,
{
    lemma_parse_value_wf(s, i);
    match spec_parse_value(s, i) {
        None => {},
        Some((v, i2)) => {
            if i <= i2 {
                let j = spec_ws(s, i2);
                if j < i2 || j >= s.len() {
                } else if s[j] == 44 {
                    if j + 1 > i {
                        lemma_parse_elems_wf(s, j + 1);
                        match spec_parse_elems(s, j + 1) {
                            None => {},
                            Some((rest, e)) => {
                                assert((seq![v] + rest)[0] == v);
                                assert((seq![v] + rest).drop_first() =~= rest);
                                assert(json_wf_seq(seq![v] + rest));
                            },
                        }
                    }
                } else if s[j] == 93 {
                    assert(seq![v].drop_first() =~= Seq::<JsonSpec>::empty());
                    assert(json_wf_seq(Seq::<JsonSpec>::empty()));
                    assert(json_wf_seq(seq![v]));
                }
            }
        },
    }
}

/// Whatever member list the parser gathers is fit to re-read.
proof fn lemma_parse_members_wf(s: Seq<u8>, i: int)
    ensures
        spec_parse_members(s, i) matches Some((ms, e)) ==> json_wf_members(ms),
    decreases s.len() - i, 1int,
{
    let j = spec_ws(s, i);
    if j < i || j >= s.len() || s[j] != 34 {
    } else {
        match spec_parse_string_body(s, j + 1) {
            None => {},
            Some((key, i2)) => {
                let j2 = spec_ws(s, i2);
                if j2 < i2 || i2 < i || j2 >= s.len() || s[j2] != 58 {
                } else if j2 + 1 > i {
                    lemma_parse_value_wf(s, j2 + 1);
                    match spec_parse_value(s, j2 + 1) {
                        None => {},
                        Some((v, i3)) => {
                            let j3 = spec_ws(s, i3);
                            if j3 < i3 || i3 < i || j3 >= s.len() {
                            } else if s[j3] == 44 {
                                if j3 + 1 > i {
                                    lemma_parse_members_wf(s, j3 + 1);
                                    match spec_parse_members(s, j3 + 1) {
                                        None => {},
                                        Some((rest, e)) => {
                                            lemma_insert_wf(key, v, rest);
                                        },
                                    }
                                }
                            } else if s[j3] == 125 {
                                assert(seq![(key, v)].drop_first() =~= Seq::<(Seq<u8>, JsonSpec)>::empty());
                                assert(json_wf_members(Seq::<(Seq<u8>, JsonSpec)>::empty()));
                                assert(json_wf_members(seq![(key, v)]));
                            }
                        },
                    }
                }
            },
        }
    }
}

/// Parsing then re-serializing is lossless: whatever value a text reads
/// as, the one-line text that value renders to reads back as the same
/// value — and so do all the values inside it, payloads included, since
/// they render as its parts.
pub proof fn lemma_parse_render_lossless(s: Seq<u8>)
    ensures
        spec_parse_json(s) matches Some(v)
            ==> spec_parse_json(spec_render(v, false, 0)) == Some(v),
{
    match spec_parse_json(s) {
        None => {},
        Some(v) => {
            lemma_parse_value_wf(s, 0);
            lemma_render_round_trip(v);
        },
    }
}

} // verus!










