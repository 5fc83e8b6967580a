//! Byte-level helpers for the path and generator parsers: character
//! classes, whitespace trimming, integer and float literals, substrings.
//!
//! The parsers read the UTF-8 bytes of their input. Every position at which
//! they cut the input lies on an ASCII byte or at an end, so every piece is
//! itself valid UTF-8.
use vstd::prelude::*;
use vstd::string::*;
use vstd::utf8::*;

verus! {

broadcast use vstd::seq_lib::group_seq_properties;

/// `i` is a position at which the UTF-8 bytes `b` may be cut.
pub open spec fn cut_ok(b: Seq<u8>, i: int) -> bool {
    0 <= i <= b.len() && (i == b.len() || !is_continuation_byte(b[i]))
}

/// The text of the bytes `b[from..to]`.
pub open spec fn text_of(b: Seq<u8>, from: int, to: int) -> Seq<char> {
    decode_utf8(b.subrange(from, to))
}

proof fn lemma_cut_ok_char_boundary(b: Seq<u8>, i: int)
    requires
        valid_utf8(b),
        cut_ok(b, i),
    ensures
        is_char_boundary(b, i),
{
    if i == b.len() {
        is_char_boundary_start_end_of_seq(b);
    } else {
        is_char_boundary_iff_not_is_continuation_byte(b, i);
    }
}

/// The part of `s` between two cut positions of its bytes.
pub fn str_slice<'a>(s: &'a str, from: usize, to: usize) -> (r: &'a str)
    requires
        from <= to,
        cut_ok(s.spec_bytes(), from as int),
        cut_ok(s.spec_bytes(), to as int),
    ensures
        r.spec_bytes() == s.spec_bytes().subrange(from as int, to as int),
        r@ == text_of(s.spec_bytes(), from as int, to as int),
{
    let ghost b = s.spec_bytes();
    proof {
        encode_utf8_valid_utf8(s@);
        lemma_cut_ok_char_boundary(b, from as int);
    }
    let (_, tail) = s.split_at(from);
    let ghost tb = tail.spec_bytes();
    assert(tb =~= b.subrange(from as int, b.len() as int));
    proof {
        encode_utf8_valid_utf8(tail@);
        assert(cut_ok(tb, (to - from) as int)) by {
            if to < b.len() {
                assert(tb[(to - from) as int] == b[to as int]);
            }
        }
        lemma_cut_ok_char_boundary(tb, (to - from) as int);
    }
    let (mid, _) = tail.split_at(to - from);
    assert(mid.spec_bytes() =~= b.subrange(from as int, to as int));
    proof {
        encode_utf8_decode_utf8(mid@);
    }
    mid
}

/// The bytes of any string are valid UTF-8.
pub proof fn lemma_str_valid(s: &str)
    ensures
        valid_utf8(s.spec_bytes()),
        cut_ok(s.spec_bytes(), 0),
        cut_ok(s.spec_bytes(), s.spec_bytes().len() as int),
{
    encode_utf8_valid_utf8(s@);
    if s.spec_bytes().len() > 0 {
        reveal_with_fuel(valid_utf8, 1);
    }
}

/// Number of bytes in the UTF-8 encoding of a character whose first byte is
/// `c`.
pub open spec fn char_width(c: u8) -> int {
    if c <= 0x7f {
        1
    } else if 0xc0 <= c <= 0xdf {
        2
    } else if 0xe0 <= c <= 0xef {
        3
    } else {
        4
    }
}

/// After a whole character comes another cut position.
pub proof fn lemma_cut_after(b: Seq<u8>, i: int)
    requires
        valid_utf8(b),
        cut_ok(b, i),
        i < b.len(),
    ensures
        i + char_width(b[i]) <= b.len(),
        cut_ok(b, i + char_width(b[i])),
{
    lemma_cut_ok_char_boundary(b, i);
    valid_utf8_split(b, i);
    let t = b.subrange(i, b.len() as int);
    assert(t[0] == b[i]);
    assert(valid_first_scalar(t) && valid_utf8(pop_first_scalar(t)));
    let w = length_of_first_scalar(t);
    assert(w == char_width(b[i]));
    let u = pop_first_scalar(t);
    assert(u =~= b.subrange(i + w, b.len() as int));
    if i + w < b.len() {
        assert(u.len() > 0);
        assert(valid_first_scalar(u));
        assert(u[0] == b[i + w]);
    }
}

/// Trimming stops at cut positions.
pub proof fn lemma_trim_cut(b: Seq<u8>, from: int, to: int)
    requires
        valid_utf8(b),
        from <= to,
        cut_ok(b, from),
        cut_ok(b, to),
    ensures
        cut_ok(b, trim_start_pos(b, from, to)),
        cut_ok(b, trim_end_pos(b, from, to)),
    decreases to - from,
{
    if from < to && 0 < ws_len_at(b, from) && from + ws_len_at(b, from) <= to {
        lemma_cut_after(b, from);
        lemma_trim_cut(b, from + ws_len_at(b, from), to);
    }
    lemma_trim_end_cut(b, from, to);
}

proof fn lemma_trim_end_cut(b: Seq<u8>, from: int, to: int)
    requires
        cut_ok(b, to),
        0 <= from <= to <= b.len(),
    ensures
        cut_ok(b, trim_end_pos(b, from, to)),
    decreases to - from,
{
    if from < to && 0 < ws_len_before(b, from, to) {
        let w = ws_len_before(b, from, to);
        assert(ws_len_at(b, to - w) > 0);
        lemma_trim_end_cut(b, from, to - w);
    }
}

// ---------------------------------------------------------------------------
// Character classes
// ---------------------------------------------------------------------------

pub open spec fn spec_is_digit(c: u8) -> bool {
    48 <= c <= 57
}

pub open spec fn spec_is_alpha(c: u8) -> bool {
    (65 <= c <= 90) || (97 <= c <= 122)
}

/// First byte of an identifier: `[A-Za-z_]`.
pub open spec fn spec_ident_start(c: u8) -> bool {
    spec_is_alpha(c) || c == 95
}

/// Later bytes of an identifier: `[A-Za-z0-9_-]`.
pub open spec fn spec_ident_continue(c: u8) -> bool {
    spec_is_alpha(c) || spec_is_digit(c) || c == 95 || c == 45
}

/// `b[from..to]` is an identifier.
pub open spec fn spec_is_ident(b: Seq<u8>, from: int, to: int) -> bool {
    &&& from < to
    &&& spec_ident_start(b[from])
    &&& forall|i: int| from < i < to ==> #[trigger] spec_ident_continue(b[i])
}

/// Whether a piece is an identifier does not depend on where it stands.
pub proof fn lemma_ident_shift(b: Seq<u8>, from: int, to: int)
    requires
        0 <= from <= to <= b.len(),
    ensures
        spec_is_ident(b.subrange(from, to), 0, to - from) == spec_is_ident(b, from, to),
{
    let t = b.subrange(from, to);
    if spec_is_ident(b, from, to) {
        assert forall|i: int| 0 < i < to - from implies #[trigger] spec_ident_continue(t[i]) by {
            assert(t[i] == b[from + i]);
            assert(spec_ident_continue(b[from + i]));
        }
    }
    if spec_is_ident(t, 0, to - from) {
        assert forall|i: int| from < i < to implies #[trigger] spec_ident_continue(b[i]) by {
            assert(t[i - from] == b[i]);
            assert(spec_ident_continue(t[i - from]));
        }
    }
}

pub fn is_ident_start(b: u8) -> (r: bool)
    ensures
        r == spec_ident_start(b),
{
    (b >= 65 && b <= 90) || (b >= 97 && b <= 122) || b == 95
}

pub fn is_ident_continue(b: u8) -> (r: bool)
    ensures
        r == spec_ident_continue(b),
{
    (b >= 65 && b <= 90) || (b >= 97 && b <= 122) || (b >= 48 && b <= 57) || b == 95 || b == 45
}

/// Whether `bytes[from..to]` is an identifier.
pub fn is_ident_range(bytes: &[u8], from: usize, to: usize) -> (r: bool)
    requires
        from <= to <= bytes@.len(),
    ensures
        r == spec_is_ident(bytes@, from as int, to as int),
{
    if from >= to || !is_ident_start(bytes[from]) {
        return false;
    }
    let mut i = from + 1;
    while i < to
        invariant
            from < i <= to <= bytes@.len(),
            forall|k: int| from < k < i ==> #[trigger] spec_ident_continue(bytes@[k]),
        decreases to - i,
    {
        if !is_ident_continue(bytes[i]) {
            return false;
        }
        i += 1;
    }
    true
}

// ---------------------------------------------------------------------------
// Whitespace
// ---------------------------------------------------------------------------

/// Length of the UTF-8 encoding of a whitespace character (Unicode
/// `White_Space`) that starts at `b[i]`, or 0 if none does.
pub open spec fn ws_len_at(b: Seq<u8>, i: int) -> int {
    if !(0 <= i < b.len()) {
        0
    } else if (9 <= b[i] <= 13) || b[i] == 32 {
        1
    } else if i + 1 < b.len() && b[i] == 0xc2 && (b[i + 1] == 0x85 || b[i + 1] == 0xa0) {
        2
    } else if i + 2 < b.len() && ((b[i] == 0xe1 && b[i + 1] == 0x9a && b[i + 2] == 0x80) || (
    b[i] == 0xe2 && b[i + 1] == 0x80 && ((0x80 <= b[i + 2] <= 0x8a) || b[i + 2] == 0xa8
        || b[i + 2] == 0xa9 || b[i + 2] == 0xaf)) || (b[i] == 0xe2 && b[i + 1] == 0x81 && b[i + 2]
        == 0x9f) || (b[i] == 0xe3 && b[i + 1] == 0x80 && b[i + 2] == 0x80)) {
        3
    } else {
        0
    }
}

/// Length of the UTF-8 encoding of a whitespace character that ends just
/// before `b[j]` and starts at or after `from`, or 0 if none does.
pub open spec fn ws_len_before(b: Seq<u8>, from: int, j: int) -> int {
    if from <= j - 1 && ws_len_at(b, j - 1) == 1 {
        1
    } else if from <= j - 2 && ws_len_at(b, j - 2) == 2 {
        2
    } else if from <= j - 3 && ws_len_at(b, j - 3) == 3 {
        3
    } else {
        0
    }
}

/// Start of `b[from..to]` with leading whitespace skipped.
pub open spec fn trim_start_pos(b: Seq<u8>, from: int, to: int) -> int
    decreases to - from,
{
    if from < to && 0 < ws_len_at(b, from) && from + ws_len_at(b, from) <= to {
        trim_start_pos(b, from + ws_len_at(b, from), to)
    } else {
        from
    }
}

/// End of `b[from..to]` with trailing whitespace dropped.
pub open spec fn trim_end_pos(b: Seq<u8>, from: int, to: int) -> int
    decreases to - from,
{
    if from < to && 0 < ws_len_before(b, from, to) {
        trim_end_pos(b, from, to - ws_len_before(b, from, to))
    } else {
        to
    }
}

pub proof fn lemma_trim_start_bounds(b: Seq<u8>, from: int, to: int)
    requires
        from <= to,
    ensures
        from <= trim_start_pos(b, from, to) <= to,
    decreases to - from,
{
    if from < to && 0 < ws_len_at(b, from) && from + ws_len_at(b, from) <= to {
        lemma_trim_start_bounds(b, from + ws_len_at(b, from), to);
    }
}

pub proof fn lemma_trim_end_bounds(b: Seq<u8>, from: int, to: int)
    requires
        from <= to,
    ensures
        from <= trim_end_pos(b, from, to) <= to,
    decreases to - from,
{
    if from < to && 0 < ws_len_before(b, from, to) {
        lemma_trim_end_bounds(b, from, to - ws_len_before(b, from, to));
    }
}

/// Length of a whitespace character at `bytes[i]` that ends at or before `to`.
fn ws_len_at_exec(bytes: &[u8], i: usize) -> (r: usize)
    requires
        i < bytes@.len(),
    ensures
        r == ws_len_at(bytes@, i as int),
{
    let c = bytes[i];
    let n = bytes.len();
    if (c >= 9 && c <= 13) || c == 32 {
        1
    } else if n - i > 1 && c == 0xc2 && (bytes[i + 1] == 0x85 || bytes[i + 1] == 0xa0) {
        2
    } else if n - i > 2 && ((c == 0xe1 && bytes[i + 1] == 0x9a && bytes[i + 2] == 0x80) || (c
        == 0xe2 && bytes[i + 1] == 0x80 && ((bytes[i + 2] >= 0x80 && bytes[i + 2] <= 0x8a)
        || bytes[i + 2] == 0xa8 || bytes[i + 2] == 0xa9 || bytes[i + 2] == 0xaf)) || (c == 0xe2
        && bytes[i + 1] == 0x81 && bytes[i + 2] == 0x9f) || (c == 0xe3 && bytes[i + 1] == 0x80
        && bytes[i + 2] == 0x80)) {
        3
    } else {
        0
    }
}

/// The bounds of `bytes[from..to]` with leading and trailing whitespace
/// removed, as `str::trim` removes it.
pub fn trim_range(bytes: &[u8], from: usize, to: usize) -> (r: (usize, usize))
    requires
        from <= to <= bytes@.len(),
    ensures
        r.0 == trim_start_pos(bytes@, from as int, to as int),
        r.1 == trim_end_pos(bytes@, r.0 as int, to as int),
        from <= r.0 <= r.1 <= to,
{
    let mut i = from;
    while i < to
        invariant
            from <= i <= to <= bytes@.len(),
            trim_start_pos(bytes@, from as int, to as int) == trim_start_pos(
                bytes@,
                i as int,
                to as int,
            ),
        ensures
            from <= i <= to,
            trim_start_pos(bytes@, from as int, to as int) == i,
        decreases to - i,
    {
        let w = ws_len_at_exec(bytes, i);
        if w == 0 || w > to - i {
            break;
        }
        i = i + w;
    }
    let mut j = to;
    while j > i
        invariant
            from <= i <= j <= to <= bytes@.len(),
            i == trim_start_pos(bytes@, from as int, to as int),
            trim_end_pos(bytes@, i as int, to as int) == trim_end_pos(bytes@, i as int, j as int),
        ensures
            i <= j <= to,
            trim_end_pos(bytes@, i as int, to as int) == j,
        decreases j - i,
    {
        let w = if j - 1 >= i && ws_len_at_exec(bytes, j - 1) == 1 {
            1
        } else if j >= 2 && j - 2 >= i && ws_len_at_exec(bytes, j - 2) == 2 {
            2
        } else if j >= 3 && j - 3 >= i && ws_len_at_exec(bytes, j - 3) == 3 {
            3
        } else {
            0
        };
        assert(w == ws_len_before(bytes@, i as int, j as int));
        if w == 0 {
            break;
        }
        j = j - w;
    }
    (i, j)
}

// ---------------------------------------------------------------------------
// Integer literals, as `str::parse::<i64>` reads them
// ---------------------------------------------------------------------------

/// The value of a run of decimal digits.
pub open spec fn digits_value(d: Seq<u8>) -> int
    decreases d.len(),
{
    if d.len() == 0 {
        0
    } else {
        digits_value(d.drop_last()) * 10 + (d.last() - 48)
    }
}

pub open spec fn all_digits(d: Seq<u8>) -> bool {
    forall|i: int| 0 <= i < d.len() ==> #[trigger] spec_is_digit(d[i])
}

/// What `str::parse::<i64>` gives for the text `t`: an optional `+` or `-`,
/// then one or more decimal digits, whose value fits in an `i64`.
pub open spec fn spec_parse_i64(t: Seq<u8>) -> Option<i64> {
    let neg = t.len() > 0 && t[0] == 45;
    let signed = t.len() > 0 && (t[0] == 45 || t[0] == 43);
    let d = if signed {
        t.drop_first()
    } else {
        t
    };
    let v = if neg {
        -digits_value(d)
    } else {
        digits_value(d)
    };
    if d.len() > 0 && all_digits(d) && i64::MIN <= v <= i64::MAX {
        Some(v as i64)
    } else {
        None
    }
}

proof fn lemma_digits_value_nonneg(d: Seq<u8>)
    requires
        all_digits(d),
    ensures
        digits_value(d) >= 0,
    decreases d.len(),
{
    if d.len() > 0 {
        assert(all_digits(d.drop_last())) by {
            assert forall|i: int| 0 <= i < d.drop_last().len() implies #[trigger] spec_is_digit(
                d.drop_last()[i],
            ) by {
                assert(d.drop_last()[i] == d[i]);
            }
        }
        lemma_digits_value_nonneg(d.drop_last());
        assert(spec_is_digit(d[d.len() - 1]));
    }
}

/// Whether `bytes[from..to]` are all digits, and their value if it is at most
/// `limit`.
fn digits_upto(bytes: &[u8], from: usize, to: usize, limit: u64) -> (r: Option<u64>)
    requires
        from <= to <= bytes@.len(),
        limit >= 9,
    ensures
        match r {
            Some(v) => all_digits(bytes@.subrange(from as int, to as int)) && v == digits_value(
                bytes@.subrange(from as int, to as int),
            ) && v <= limit,
            None => !all_digits(bytes@.subrange(from as int, to as int)) || digits_value(
                bytes@.subrange(from as int, to as int),
            ) > limit,
        },
{
    let ghost whole = bytes@.subrange(from as int, to as int);
    let mut v: u64 = 0;
    let mut i = from;
    while i < to
        invariant
            from <= i <= to <= bytes@.len(),
            limit >= 9,
            whole == bytes@.subrange(from as int, to as int),
            all_digits(bytes@.subrange(from as int, i as int)),
            v == digits_value(bytes@.subrange(from as int, i as int)),
            v <= limit,
        decreases to - i,
    {
        let ghost pre = bytes@.subrange(from as int, i as int);
        let ghost next = bytes@.subrange(from as int, i + 1);
        assert(next.drop_last() =~= pre);
        let c = bytes[i];
        assert(whole[i - from] == c);
        if !(c >= 48 && c <= 57) {
            assert(!spec_is_digit(whole[i - from]));
            return None;
        }
        assert(all_digits(next)) by {
            assert forall|k: int| 0 <= k < next.len() implies #[trigger] spec_is_digit(next[k]) by {
                if k < pre.len() {
                    assert(next[k] == pre[k]);
                }
            }
        }
        let d = (c - 48) as u64;
        assert(digits_value(next) == v * 10 + d);
        if v > (limit - d) / 10 {
            proof {
                assert(v * 10 + d > limit) by (nonlinear_arith)
                    requires
                        v > (limit - d) / 10,
                        d <= 9,
                        d <= limit,
                ;
                lemma_digits_prefix_le(whole, (i + 1 - from) as int);
                assert(whole.subrange(0, (i + 1 - from) as int) =~= next);
            }
            return None;
        }
        assert(v * 10 + d <= limit) by (nonlinear_arith)
            requires
                v <= (limit - d) / 10,
                d <= 9,
                d <= limit,
        ;
        v = v * 10 + d;
        i += 1;
    }
    Some(v)
}

/// The value of a prefix of a digit run is at most that of the whole run.
proof fn lemma_digits_prefix_le(d: Seq<u8>, k: int)
    requires
        0 <= k <= d.len(),
    ensures
        all_digits(d) ==> digits_value(d.subrange(0, k)) <= digits_value(d),
    decreases d.len() - k,
{
    if k == d.len() {
        assert(d.subrange(0, k) =~= d);
    }
    if all_digits(d) && k < d.len() {
        lemma_digits_prefix_le(d, k + 1);
        let p = d.subrange(0, k + 1);
        assert(p.drop_last() =~= d.subrange(0, k));
        assert(all_digits(d.subrange(0, k))) by {
            assert forall|i: int| 0 <= i < k implies #[trigger] spec_is_digit(
                d.subrange(0, k)[i],
            ) by {
                assert(d.subrange(0, k)[i] == d[i]);
            }
        }
        lemma_digits_value_nonneg(d.subrange(0, k));
        assert(spec_is_digit(d[k]));
    }
}

/// Reads `bytes[from..to]` as `str::parse::<i64>` reads a string.
pub fn parse_i64_range(bytes: &[u8], from: usize, to: usize) -> (r: Option<i64>)
    requires
        from <= to <= bytes@.len(),
    ensures
        r == spec_parse_i64(bytes@.subrange(from as int, to as int)),
{
    let ghost t = bytes@.subrange(from as int, to as int);
    let neg = from < to && bytes[from] == 45;
    let signed = from < to && (bytes[from] == 45 || bytes[from] == 43);
    let start = if signed {
        from + 1
    } else {
        from
    };
    let ghost d = if signed {
        t.drop_first()
    } else {
        t
    };
    assert(d =~= bytes@.subrange(start as int, to as int));
    if start >= to {
        return None;
    }
    let limit: u64 = if neg {
        9223372036854775808
    } else {
        9223372036854775807
    };
    match digits_upto(bytes, start, to, limit) {
        None => None,
        Some(v) => {
            if neg {
                if v == 9223372036854775808 {
                    Some(i64::MIN)
                } else {
                    Some(-(v as i64))
                }
            } else {
                Some(v as i64)
            }
        },
    }
}

// ---------------------------------------------------------------------------
// Float literals, as `str::parse::<f64>` accepts them
// ---------------------------------------------------------------------------

pub open spec fn lower(c: u8) -> u8 {
    if 65 <= c <= 90 {
        (c + 32) as u8
    } else {
        c
    }
}

/// `t` spells `word` (lower case ASCII) in either case.
pub open spec fn spells(t: Seq<u8>, word: Seq<u8>) -> bool {
    t.len() == word.len() && forall|i: int| 0 <= i < t.len() ==> lower(#[trigger] t[i]) == word[i]
}

/// Number of leading digits of `t` from `i`.
pub open spec fn digit_run(t: Seq<u8>, i: int) -> int
    decreases t.len() - i,
{
    if 0 <= i < t.len() && spec_is_digit(t[i]) {
        1 + digit_run(t, i + 1)
    } else {
        0
    }
}

/// `t[i..]` is an exponent: `e` or `E`, an optional sign, one or more digits.
pub open spec fn is_exponent(t: Seq<u8>, i: int) -> bool {
    &&& i < t.len()
    &&& lower(t[i]) == 101
    &&& {
        let j = if i + 1 < t.len() && (t[i + 1] == 43 || t[i + 1] == 45) {
            i + 2
        } else {
            i + 1
        };
        digit_run(t, j) > 0 && j + digit_run(t, j) == t.len()
    }
}

/// `t[i..]` is a decimal number: digits, an optional point and digits, with
/// a digit on at least one side of the point, then an optional exponent.
pub open spec fn is_decimal(t: Seq<u8>, i: int) -> bool {
    let a = digit_run(t, i);
    let p = i + a;
    if p < t.len() && t[p] == 46 {
        let f = digit_run(t, p + 1);
        let q = p + 1 + f;
        (a > 0 || f > 0) && (q == t.len() || is_exponent(t, q))
    } else {
        a > 0 && (p == t.len() || is_exponent(t, p))
    }
}

/// Whether `str::parse::<f64>` accepts `t`: an optional sign, then `inf`,
/// `infinity`, `nan` (in any case) or a decimal number.
pub open spec fn spec_is_float_literal(t: Seq<u8>) -> bool {
    let i = if t.len() > 0 && (t[0] == 43 || t[0] == 45) {
        1int
    } else {
        0int
    };
    let rest = t.subrange(i, t.len() as int);
    spells(rest, seq![105u8, 110, 102]) || spells(rest, seq![105u8, 110, 102, 105, 110, 105, 116, 121])
        || spells(rest, seq![110u8, 97, 110]) || is_decimal(t, i)
}

fn digit_run_exec(bytes: &[u8], i: usize, to: usize) -> (r: usize)
    requires
        i <= to <= bytes@.len(),
    ensures
        r == digit_run(bytes@.subrange(0, to as int), i as int),
        i + r <= to,
{
    let ghost t = bytes@.subrange(0, to as int);
    let mut j = i;
    while j < to && bytes[j] >= 48 && bytes[j] <= 57
        invariant
            i <= j <= to <= bytes@.len(),
            t == bytes@.subrange(0, to as int),
            digit_run(t, i as int) == (j - i) + digit_run(t, j as int),
        decreases to - j,
    {
        assert(t[j as int] == bytes@[j as int]);
        j += 1;
    }
    if j < to {
        assert(t[j as int] == bytes@[j as int]);
    }
    j - i
}

fn spells_exec(bytes: &[u8], from: usize, to: usize, word: &[u8]) -> (r: bool)
    requires
        from <= to <= bytes@.len(),
    ensures
        r == spells(bytes@.subrange(from as int, to as int), word@),
{
    let ghost t = bytes@.subrange(from as int, to as int);
    if to - from != word.len() {
        return false;
    }
    let mut k: usize = 0;
    while k < word.len()
        invariant
            to - from == word@.len(),
            from <= to <= bytes@.len(),
            t == bytes@.subrange(from as int, to as int),
            forall|m: int| 0 <= m < k ==> lower(#[trigger] t[m]) == word@[m],
        decreases word@.len() - k,
    {
        let c = bytes[from + k];
        assert(t[k as int] == c);
        let l = if c >= 65 && c <= 90 {
            c + 32
        } else {
            c
        };
        if l != word[k] {
            return false;
        }
        k += 1;
    }
    true
}

fn is_exponent_exec(bytes: &[u8], from: usize, i: usize, to: usize) -> (r: bool)
    requires
        from <= i <= to <= bytes@.len(),
    ensures
        r == is_exponent(bytes@.subrange(from as int, to as int), (i - from) as int),
{
    let ghost t = bytes@.subrange(from as int, to as int);
    if i >= to {
        return false;
    }
    assert(t[(i - from) as int] == bytes@[i as int]);
    if !(bytes[i] == 101 || bytes[i] == 69) {
        return false;
    }
    let j = if i + 1 < to && (bytes[i + 1] == 43 || bytes[i + 1] == 45) {
        i + 2
    } else {
        i + 1
    };
    if i + 1 < to {
        assert(t[(i + 1 - from) as int] == bytes@[i + 1]);
    }
    let n = digit_run_exec(bytes, j, to);
    proof {
        lemma_digit_run_shift(bytes@, from as int, j as int, to as int);
    }
    n > 0 && j + n == to
}

proof fn lemma_digit_run_shift(b: Seq<u8>, from: int, i: int, to: int)
    requires
        0 <= from <= i <= to <= b.len(),
    ensures
        digit_run(b.subrange(0, to), i) == digit_run(b.subrange(from, to), i - from),
    decreases to - i,
{
    if i < to {
        assert(b.subrange(0, to)[i] == b.subrange(from, to)[i - from]);
        lemma_digit_run_shift(b, from, i + 1, to);
    }
}

/// Whether `bytes[from..to]` is a literal that `str::parse::<f64>` accepts.
pub fn is_float_literal(bytes: &[u8], from: usize, to: usize) -> (r: bool)
    requires
        from <= to <= bytes@.len(),
    ensures
        r == spec_is_float_literal(bytes@.subrange(from as int, to as int)),
{
    let ghost t = bytes@.subrange(from as int, to as int);
    let i = if from < to && (bytes[from] == 43 || bytes[from] == 45) {
        from + 1
    } else {
        from
    };
    if from < to {
        assert(t[0] == bytes@[from as int]);
    }
    assert(t.subrange((i - from) as int, t.len() as int) =~= bytes@.subrange(i as int, to as int));
    let inf: [u8; 3] = [105, 110, 102];
    let infinity: [u8; 8] = [105, 110, 102, 105, 110, 105, 116, 121];
    let nan: [u8; 3] = [110, 97, 110];
    assert(inf@ =~= seq![105u8, 110, 102]);
    assert(infinity@ =~= seq![105u8, 110, 102, 105, 110, 105, 116, 121]);
    assert(nan@ =~= seq![110u8, 97, 110]);
    if spells_exec(bytes, i, to, &inf) || spells_exec(bytes, i, to, &infinity) || spells_exec(
        bytes,
        i,
        to,
        &nan,
    ) {
        return true;
    }
    let a = digit_run_exec(bytes, i, to);
    proof {
        lemma_digit_run_shift(bytes@, from as int, i as int, to as int);
    }
    let p = i + a;
    if p < to && bytes[p] == 46 {
        assert(t[(p - from) as int] == bytes@[p as int]);
        let f = digit_run_exec(bytes, p + 1, to);
        proof {
            lemma_digit_run_shift(bytes@, from as int, (p + 1) as int, to as int);
        }
        let q = p + 1 + f;
        (a > 0 || f > 0) && (q == to || is_exponent_exec(bytes, from, q, to))
    } else {
        if p < to {
            assert(t[(p - from) as int] == bytes@[p as int]);
        }
        a > 0 && (p == to || is_exponent_exec(bytes, from, p, to))
    }
}

// ---------------------------------------------------------------------------
// Pieces between commas
// ---------------------------------------------------------------------------

/// The number of commas in `b`.
pub open spec fn count_commas(b: Seq<u8>) -> nat
    decreases b.len(),
{
    if b.len() == 0 {
        0
    } else {
        (if b[0] == 44 {
            1nat
        } else {
            0nat
        }) + count_commas(b.drop_first())
    }
}

/// The pieces of `b` between the bounds `parts`, joined with commas.
pub open spec fn join_at_commas(b: Seq<u8>, parts: Seq<(int, int)>) -> Seq<u8>
    decreases parts.len(),
{
    if parts.len() == 0 {
        Seq::empty()
    } else if parts.len() == 1 {
        b.subrange(parts[0].0, parts[0].1)
    } else {
        b.subrange(parts[0].0, parts[0].1) + seq![44u8] + join_at_commas(b, parts.drop_first())
    }
}

/// `parts` lays `b[start..]` out in pieces: the first starts at `start`,
/// the last ends at the end, each next one starts one byte, a comma, after
/// the end of the one before, and the starts increase.
pub open spec fn tiles_at_commas(b: Seq<u8>, parts: Seq<(int, int)>, start: int) -> bool {
    &&& parts.len() >= 1
    &&& 0 <= start
    &&& parts[0].0 == start
    &&& parts.last().1 == b.len()
    &&& forall|k: int| 0 <= k < parts.len() ==> start <= (#[trigger] parts[k]).0 <= parts[k].1 <= b.len()
    &&& forall|k: int|
        0 < k < parts.len() ==> (#[trigger] parts[k]).0 == parts[k - 1].1 + 1 && b[parts[k - 1].1]
            == 44
    &&& forall|k1: int, k2: int|
        0 <= k1 < k2 < parts.len() ==> (#[trigger] parts[k1]).0 < (#[trigger] parts[k2]).0
}

/// Joining pieces that tile `b[start..]` with commas gives `b[start..]` back.
pub proof fn lemma_join_tiles(b: Seq<u8>, parts: Seq<(int, int)>, start: int)
    requires
        tiles_at_commas(b, parts, start),
    ensures
        join_at_commas(b, parts) == b.subrange(start, b.len() as int),
    decreases parts.len(),
{
    if parts.len() > 1 {
        let rest = parts.drop_first();
        let s1 = parts[1].0;
        assert(rest[0] == parts[1]);
        assert(parts[1].0 == parts[0].1 + 1);
        assert forall|k: int| 0 <= k < rest.len() implies s1 <= (#[trigger] rest[k]).0 <= rest[k].1
            <= b.len() by {
            assert(rest[k] == parts[k + 1]);
            if k > 0 {
                assert(parts[1].0 < parts[k + 1].0);
            }
        }
        assert forall|k: int| 0 < k < rest.len() implies (#[trigger] rest[k]).0 == rest[k - 1].1
            + 1 && b[rest[k - 1].1] == 44 by {
            assert(rest[k] == parts[k + 1]);
            assert(rest[k - 1] == parts[k]);
        }
        assert forall|k1: int, k2: int| 0 <= k1 < k2 < rest.len() implies (
        #[trigger] rest[k1]).0 < (#[trigger] rest[k2]).0 by {
            assert(rest[k1] == parts[k1 + 1]);
            assert(rest[k2] == parts[k2 + 1]);
        }
        assert(rest.last() == parts.last());
        lemma_join_tiles(b, rest, s1);
        let e0 = parts[0].1;
        assert(b[e0] == 44 && start <= e0 < b.len() && s1 == e0 + 1);
        let whole = b.subrange(start, b.len() as int);
        let joined = b.subrange(start, e0) + seq![44u8] + b.subrange(s1, b.len() as int);
        assert(whole.len() == joined.len());
        assert forall|i: int| 0 <= i < whole.len() implies whole[i] == joined[i] by {
            if i < e0 - start {
            } else if i == e0 - start {
            } else {
                assert(joined[i] == b.subrange(s1, b.len() as int)[i - (e0 - start) - 1]);
            }
        }
        assert(whole =~= joined);
    } else {
        assert(parts.last() == parts[0]);
    }
}

} // verus!

