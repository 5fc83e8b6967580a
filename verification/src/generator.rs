//! Generators: the right of `PATH=GEN`, read into the list of values an
//! axis sweeps.
use vstd::prelude::*;
use vstd::string::*;
use crate::json::{debug_char, debug_str, int_text, items_wf, nat_string, nat_text, parse_json, parsed_view, parsed_wf, keyword_value, spec_debug_char, spec_debug_str, spec_from_str, str_equal, values_view, Json, JsonNumber, JsonV};
use crate::path::{range_count, range_last};
use crate::text::{cut_ok, join_at_commas, lemma_join_tiles, tiles_at_commas, is_float_literal, lemma_cut_after, lemma_str_valid, lemma_trim_cut, parse_i64_range, spec_is_float_literal, spec_parse_i64, str_slice, text_of, trim_end_pos, trim_range, trim_start_pos};

verus! {

broadcast use vstd::seq_lib::group_seq_properties;

// ---------------------------------------------------------------------------
// Types
// ---------------------------------------------------------------------------

/// What a generator expands to.
#[derive(Debug)]
#[allow(inconsistent_fields)]
pub enum Generator {
    /// The literal list `v1,v2,...`.
    List(Vec<Json>),
    /// The integers of `a..b` or `a..=b`.
    RangeInt { start: i64, end: i64, inclusive: bool },
    /// `a..b:s` or `a..=b:s`: the bounds and the step are kept as the
    /// float literals they were written as; the floating-point walk over
    /// them is done by the caller.
    Stepped { start: String, end: String, step: String, inclusive: bool },
}

/// Model of a generator.
#[allow(inconsistent_fields)]
pub enum GeneratorV {
    List(Seq<JsonV>),
    RangeInt { start: int, end: int, inclusive: bool },
    Stepped { start: Seq<char>, end: Seq<char>, step: Seq<char>, inclusive: bool },
}

impl View for Generator {
    type V = GeneratorV;

    open spec fn view(&self) -> GeneratorV {
        match self {
            Generator::List(vs) => GeneratorV::List(values_view(vs@)),
            Generator::RangeInt { start, end, inclusive } => GeneratorV::RangeInt {
                start: *start as int,
                end: *end as int,
                inclusive: *inclusive,
            },
            Generator::Stepped { start, end, step, inclusive } => GeneratorV::Stepped {
                start: start@,
                end: end@,
                step: step@,
                inclusive: *inclusive,
            },
        }
    }
}

/// A generator that could not be read: what is wrong, and at which byte
/// offset.
#[derive(Debug, PartialEq)]
pub struct GenError {
    pub message: String,
    pub offset: usize,
}

/// Model of a `GenError`.
pub struct GenErrorV {
    pub message: Seq<char>,
    pub offset: nat,
}

impl View for GenError {
    type V = GenErrorV;

    open spec fn view(&self) -> GenErrorV {
        GenErrorV { message: self.message@, offset: self.offset as nat }
    }
}

pub open spec fn gerr(offset: int, message: Seq<char>) -> GenErrorV {
    GenErrorV { message, offset: offset as nat }
}

/// `col N: message`, with `N` the 1-based column.
pub open spec fn gen_error_text(e: GenErrorV) -> Seq<char> {
    "col "@ + nat_text(e.offset + 1) + ": "@ + e.message
}

impl GenError {
    pub fn at(offset: usize, message: String) -> (r: GenError)
        ensures
            r@ == gerr(offset as int, message@),
    {
        GenError { message, offset }
    }

    /// The error as text: `col N: message`.
    pub fn describe(&self) -> (r: String)
        requires
            self.offset < usize::MAX,
        ensures
            r@ == gen_error_text(self@),
    {
        let mut s = "col ".to_owned();
        let n = nat_string((self.offset + 1) as u64);
        s.append(n.as_str());
        s.append(": ");
        s.append(self.message.as_str());
        s
    }
}

// ---------------------------------------------------------------------------
// Scanning at the top level: outside quoted strings and `{}` / `[]` nesting
// ---------------------------------------------------------------------------

/// Where a scan stands: the nesting depth, whether it is inside a quoted
/// string, and whether the previous byte was a backslash inside one.
pub struct ScanState {
    pub depth: int,
    pub in_str: bool,
    pub esc: bool,
}

pub open spec fn scan_step(st: ScanState, c: u8) -> ScanState {
    if st.in_str {
        if st.esc {
            ScanState { depth: st.depth, in_str: true, esc: false }
        } else if c == 92 {
            ScanState { depth: st.depth, in_str: true, esc: true }
        } else if c == 34 {
            ScanState { depth: st.depth, in_str: false, esc: false }
        } else {
            st
        }
    } else if c == 34 {
        ScanState { depth: st.depth, in_str: true, esc: st.esc }
    } else if c == 123 || c == 91 {
        ScanState { depth: st.depth + 1, in_str: false, esc: st.esc }
    } else if c == 125 || c == 93 {
        ScanState { depth: st.depth - 1, in_str: false, esc: st.esc }
    } else {
        st
    }
}

/// The state before `b[i]`.
pub open spec fn scan_state(b: Seq<u8>, i: int) -> ScanState
    decreases i,
{
    if i <= 0 {
        ScanState { depth: 0, in_str: false, esc: false }
    } else {
        scan_step(scan_state(b, i - 1), b[i - 1])
    }
}

pub proof fn lemma_scan_depth(b: Seq<u8>, i: int)
    requires
        0 <= i,
    ensures
        -i <= scan_state(b, i).depth <= i,
        !scan_state(b, i).in_str ==> !scan_state(b, i).esc,
    decreases i,
{
    if i > 0 {
        lemma_scan_depth(b, i - 1);
    }
}

/// Whether `c` closes a nesting.
pub open spec fn is_closer(c: u8) -> bool {
    c == 125 || c == 93
}

/// How a whole scan ends: an error for an open string or open nesting.
pub open spec fn scan_end(b: Seq<u8>) -> Option<GenErrorV> {
    let st = scan_state(b, b.len() as int);
    if st.in_str {
        Some(gerr(b.len() as int, "unterminated string"@))
    } else if st.depth != 0 {
        Some(gerr(b.len() as int, "unbalanced braces"@))
    } else {
        None
    }
}

/// Whether the byte at `i` closes more nestings than are open.
pub open spec fn overcloses(b: Seq<u8>, i: int) -> bool {
    !scan_state(b, i).in_str && is_closer(b[i]) && scan_state(b, i).depth - 1 < 0
}

/// The first top-level `..` at or after `i`.
pub open spec fn dotdot_scan(b: Seq<u8>, i: int) -> Result<Option<int>, GenErrorV>
    decreases b.len() - i,
{
    if i < 0 || i >= b.len() {
        match scan_end(b) {
            Some(e) => Err(e),
            None => Ok(None),
        }
    } else if overcloses(b, i) {
        Err(gerr(i, "unbalanced closing brace"@))
    } else if !scan_state(b, i).in_str && b[i] == 46 && scan_state(b, i).depth == 0 && i + 1
        < b.len() && b[i + 1] == 46 {
        Ok(Some(i))
    } else {
        dotdot_scan(b, i + 1)
    }
}

/// The first top-level `:` at or after `i`.
pub open spec fn colon_scan(b: Seq<u8>, i: int) -> Option<int>
    decreases b.len() - i,
{
    if i < 0 || i >= b.len() {
        None
    } else if !scan_state(b, i).in_str && b[i] == 58 && scan_state(b, i).depth == 0 {
        Some(i)
    } else {
        colon_scan(b, i + 1)
    }
}

/// The pieces between top-level commas from `i` on, the current one
/// starting at `start`.
pub open spec fn comma_scan(b: Seq<u8>, i: int, start: int) -> Result<Seq<(int, int)>, GenErrorV>
    decreases b.len() - i,
{
    if i < 0 || i >= b.len() {
        match scan_end(b) {
            Some(e) => Err(e),
            None => Ok(seq![(start, b.len() as int)]),
        }
    } else if overcloses(b, i) {
        Err(gerr(i, "unbalanced closing brace"@))
    } else if !scan_state(b, i).in_str && b[i] == 44 && scan_state(b, i).depth == 0 {
        match comma_scan(b, i + 1, i + 1) {
            Ok(rest) => Ok(seq![(start, i)] + rest),
            Err(e) => Err(e),
        }
    } else {
        comma_scan(b, i + 1, start)
    }
}

/// The pieces of a scan from `i`, the current one starting at `start`, tile
/// the rest of `b`, cut at commas outside strings and nesting.
proof fn lemma_comma_scan_tile(b: Seq<u8>, i: int, start: int)
    requires
        0 <= start <= i <= b.len(),
        comma_scan(b, i, start) is Ok,
    ensures
        tiles_at_commas(b, comma_scan(b, i, start)->Ok_0, start),
        forall|k: int|
            0 < k < comma_scan(b, i, start)->Ok_0.len() ==> {
                let c = (#[trigger] comma_scan(b, i, start)->Ok_0[k]).0 - 1;
                !scan_state(b, c).in_str && scan_state(b, c).depth == 0
            },
    decreases b.len() - i,
{
    let parts = comma_scan(b, i, start)->Ok_0;
    if i < b.len() && !overcloses(b, i) && !scan_state(b, i).in_str && b[i] == 44 && scan_state(
        b,
        i,
    ).depth == 0 {
        let q = comma_scan(b, i + 1, i + 1)->Ok_0;
        lemma_comma_scan_tile(b, i + 1, i + 1);
        assert(parts == seq![(start, i)] + q);
        assert forall|k: int| 1 <= k < parts.len() implies parts[k] == q[k - 1] by {}
        assert(parts.last() == q.last());
        assert forall|k1: int, k2: int| 0 <= k1 < k2 < parts.len() implies (
        #[trigger] parts[k1]).0 < (#[trigger] parts[k2]).0 by {
            assert(parts[k2] == q[k2 - 1]);
            if k1 > 0 {
                assert(parts[k1] == q[k1 - 1]);
            }
        }
        assert forall|k: int| 0 < k < parts.len() implies (#[trigger] parts[k]).0 == parts[k
            - 1].1 + 1 && b[parts[k - 1].1] == 44 by {
            assert(parts[k] == q[k - 1]);
            if k > 1 {
                assert(parts[k - 1] == q[k - 2]);
            }
        }
        assert forall|k: int| 0 <= k < parts.len() implies start <= (#[trigger] parts[k]).0
            <= parts[k].1 <= b.len() by {
            if k > 0 {
                assert(parts[k] == q[k - 1]);
            }
        }
        assert forall|k: int| 0 < k < parts.len() implies {
            let c = (#[trigger] parts[k]).0 - 1;
            !scan_state(b, c).in_str && scan_state(b, c).depth == 0
        } by {
            assert(parts[k] == q[k - 1]);
        }
    } else if i < b.len() {
        lemma_comma_scan_tile(b, i + 1, start);
    }
}

/// `split_top_level_commas` cuts only at commas outside strings and
/// nesting: its pieces follow one another from offset 0 to the end, their
/// offsets increase, and joined with commas they give the input back.
pub proof fn law_split_top_level_commas(b: Seq<u8>)
    requires
        comma_scan(b, 0, 0) is Ok,
    ensures
        tiles_at_commas(b, comma_scan(b, 0, 0)->Ok_0, 0),
        join_at_commas(b, comma_scan(b, 0, 0)->Ok_0) == b,
        forall|k: int|
            0 < k < comma_scan(b, 0, 0)->Ok_0.len() ==> {
                let c = (#[trigger] comma_scan(b, 0, 0)->Ok_0[k]).0 - 1;
                !scan_state(b, c).in_str && scan_state(b, c).depth == 0
            },
{
    lemma_comma_scan_tile(b, 0, 0);
    lemma_join_tiles(b, comma_scan(b, 0, 0)->Ok_0, 0);
    assert(b.subrange(0, b.len() as int) =~= b);
}

pub proof fn lemma_dotdot_scan_bounds(b: Seq<u8>, i: int)
    ensures
        dotdot_scan(b, i) matches Ok(Some(op)) ==> i <= op && op + 1 < b.len() && b[op] == 46
            && b[op + 1] == 46,
    decreases b.len() - i,
{
    if 0 <= i < b.len() {
        lemma_dotdot_scan_bounds(b, i + 1);
    }
}

pub proof fn lemma_colon_scan_bounds(b: Seq<u8>, i: int)
    ensures
        colon_scan(b, i) matches Some(c) ==> i <= c < b.len() && b[c] == 58,
    decreases b.len() - i,
{
    if 0 <= i < b.len() {
        lemma_colon_scan_bounds(b, i + 1);
    }
}

/// Position of the first `..` outside strings and nesting; an error for a
/// closing brace with nothing open, or, when there is no `..`, for a string
/// or nesting left open.
pub fn find_top_level_dotdot(s: &str) -> (r: Result<Option<usize>, GenError>)
    ensures
        match r {
            Ok(p) => dotdot_scan(s.spec_bytes(), 0) == Ok::<Option<int>, GenErrorV>(
                match p {
                    Some(i) => Some(i as int),
                    None => None,
                },
            ),
            Err(e) => dotdot_scan(s.spec_bytes(), 0) == Err::<Option<int>, GenErrorV>(e@),
        },
        r matches Err(e) ==> e.offset <= s.spec_bytes().len(),
{
    let bytes = s.as_bytes();
    let ghost b = bytes@;
    let mut depth: i128 = 0;
    let mut in_str = false;
    let mut esc = false;
    let mut i: usize = 0;
    while i < bytes.len()
        invariant
            b == bytes@,
            b == s.spec_bytes(),
            i <= b.len(),
            scan_state(b, i as int) == (ScanState { depth: depth as int, in_str, esc }),
            dotdot_scan(b, 0) == dotdot_scan(b, i as int),
        decreases b.len() - i,
    {
        proof {
            lemma_scan_depth(b, i as int);
        }
        let c = bytes[i];
        if in_str {
            if esc {
                esc = false;
            } else if c == 92 {
                esc = true;
            } else if c == 34 {
                in_str = false;
            }
            i += 1;
            continue;
        }
        if c == 34 {
            in_str = true;
        } else if c == 123 || c == 91 {
            depth += 1;
        } else if c == 125 || c == 93 {
            depth -= 1;
            if depth < 0 {
                return Err(GenError::at(i, "unbalanced closing brace".to_owned()));
            }
        } else if c == 46 && depth == 0 && i + 1 < bytes.len() && bytes[i + 1] == 46 {
            return Ok(Some(i));
        }
        i += 1;
    }
    if in_str {
        return Err(GenError::at(bytes.len(), "unterminated string".to_owned()));
    }
    if depth != 0 {
        return Err(GenError::at(bytes.len(), "unbalanced braces".to_owned()));
    }
    Ok(None)
}

/// Position of the first `:` outside strings and nesting.
pub fn find_top_level_colon(s: &str) -> (r: Option<usize>)
    ensures
        match r {
            Some(i) => colon_scan(s.spec_bytes(), 0) == Some(i as int),
            None => colon_scan(s.spec_bytes(), 0) is None,
        },
{
    let bytes = s.as_bytes();
    let ghost b = bytes@;
    let mut depth: i128 = 0;
    let mut in_str = false;
    let mut esc = false;
    let mut i: usize = 0;
    while i < bytes.len()
        invariant
            b == bytes@,
            b == s.spec_bytes(),
            i <= b.len(),
            scan_state(b, i as int) == (ScanState { depth: depth as int, in_str, esc }),
            colon_scan(b, 0) == colon_scan(b, i as int),
        decreases b.len() - i,
    {
        proof {
            lemma_scan_depth(b, i as int);
        }
        let c = bytes[i];
        if in_str {
            if esc {
                esc = false;
            } else if c == 92 {
                esc = true;
            } else if c == 34 {
                in_str = false;
            }
        } else if c == 34 {
            in_str = true;
        } else if c == 123 || c == 91 {
            depth += 1;
        } else if c == 125 || c == 93 {
            depth -= 1;
        } else if c == 58 && depth == 0 {
            return Some(i);
        }
        i += 1;
    }
    None
}

/// `done` before the pieces of a later scan, or its error.
pub open spec fn after_pieces(done: Seq<(int, int)>, r: Result<Seq<(int, int)>, GenErrorV>) -> Result<
    Seq<(int, int)>,
    GenErrorV,
> {
    match r {
        Ok(rest) => Ok(done + rest),
        Err(e) => Err(e),
    }
}

/// The `(start, end)` of each piece.
pub open spec fn piece_bounds(parts: Seq<(usize, &str)>) -> Seq<(int, int)> {
    Seq::new(parts.len(), |k: int| (parts[k].0 as int, parts[k].0 + parts[k].1.spec_bytes().len()))
}

/// Each piece is the text of `b` between its bounds, which are cut
/// positions.
pub open spec fn pieces_of(b: Seq<u8>, parts: Seq<(usize, &str)>) -> bool {
    forall|k: int|
        0 <= k < parts.len() ==> {
            let (s, e) = piece_bounds(parts)[k];
            &&& (#[trigger] parts[k]).1.spec_bytes() == b.subrange(s, e)
            &&& parts[k].1@ == text_of(b, s, e)
            &&& 0 <= s <= e <= b.len()
            &&& cut_ok(b, s)
            &&& cut_ok(b, e)
        }
}

/// Splits `input` at its top-level commas: each piece with its offset.
pub fn split_top_level_commas(input: &str) -> (r: Result<Vec<(usize, &str)>, GenError>)
    ensures
        match r {
            Ok(parts) => comma_scan(input.spec_bytes(), 0, 0) == Ok::<
                Seq<(int, int)>,
                GenErrorV,
            >(piece_bounds(parts@)) && pieces_of(input.spec_bytes(), parts@),
            Err(e) => comma_scan(input.spec_bytes(), 0, 0) == Err::<Seq<(int, int)>, GenErrorV>(
                e@,
            ),
        },
        r matches Err(e) ==> e.offset <= input.spec_bytes().len(),
{
    let bytes = input.as_bytes();
    let ghost b = bytes@;
    proof {
        lemma_str_valid(input);
    }
    let mut depth: i128 = 0;
    let mut in_str = false;
    let mut esc = false;
    let mut start: usize = 0;
    let mut parts: Vec<(usize, &str)> = Vec::new();
    let mut i: usize = 0;
    while i < bytes.len()
        invariant
            b == bytes@,
            b == input.spec_bytes(),
            vstd::utf8::valid_utf8(b),
            start <= i <= b.len(),
            cut_ok(b, start as int),
            cut_ok(b, b.len() as int),
            scan_state(b, i as int) == (ScanState { depth: depth as int, in_str, esc }),
            comma_scan(b, 0, 0) == after_pieces(
                piece_bounds(parts@),
                comma_scan(b, i as int, start as int),
            ),
            pieces_of(b, parts@),
        decreases b.len() - i,
    {
        proof {
            lemma_scan_depth(b, i as int);
        }
        let c = bytes[i];
        if in_str {
            if esc {
                esc = false;
            } else if c == 92 {
                esc = true;
            } else if c == 34 {
                in_str = false;
            }
        } else if c == 34 {
            in_str = true;
        } else if c == 123 || c == 91 {
            depth += 1;
        } else if c == 125 || c == 93 {
            depth -= 1;
            if depth < 0 {
                return Err(GenError::at(i, "unbalanced closing brace".to_owned()));
            }
        } else if c == 44 && depth == 0 {
            proof {
                lemma_cut_after(b, i as int);
            }
            let piece = str_slice(input, start, i);
            let ghost before = parts@;
            parts.push((start, piece));
            proof {
                assert(piece_bounds(parts@) =~= piece_bounds(before).push((start as int, i as int)));
                assert(piece_bounds(before) + seq![(start as int, i as int)] =~= piece_bounds(
                    parts@,
                ));
                let rest = comma_scan(b, i + 1, i + 1);
                if rest is Ok {
                    assert(piece_bounds(before) + (seq![(start as int, i as int)] + rest->Ok_0)
                        =~= piece_bounds(parts@) + rest->Ok_0);
                }
            }
            start = i + 1;
        }
        i += 1;
    }
    if in_str {
        return Err(GenError::at(bytes.len(), "unterminated string".to_owned()));
    }
    if depth != 0 {
        return Err(GenError::at(bytes.len(), "unbalanced braces".to_owned()));
    }
    let piece = str_slice(input, start, bytes.len());
    let ghost before = parts@;
    parts.push((start, piece));
    proof {
        assert(piece_bounds(parts@) =~= piece_bounds(before) + seq![(start as int, b.len() as int)]);
    }
    Ok(parts)
}

// ---------------------------------------------------------------------------
// Values
// ---------------------------------------------------------------------------

/// What `parse_int` gives for the string with bytes `bs` and text `t`.
pub open spec fn spec_gen_int(bs: Seq<u8>, t: Seq<char>, offset: int) -> Result<i64, GenErrorV> {
    match spec_parse_i64(bs) {
        Some(v) => Ok(v),
        None => Err(gerr(offset, "expected integer, found "@ + spec_debug_str(t))),
    }
}

/// Reads an `i64`, as `str::parse` does.
pub fn parse_int(s: &str, offset: usize) -> (r: Result<i64, GenError>)
    ensures
        match r {
            Ok(v) => spec_gen_int(s.spec_bytes(), s@, offset as int) == Ok::<i64, GenErrorV>(v),
            Err(e) => spec_gen_int(s.spec_bytes(), s@, offset as int) == Err::<i64, GenErrorV>(
                e@,
            ),
        },
        r matches Err(e) ==> e.offset == offset,
{
    let bytes = s.as_bytes();
    assert(bytes@.subrange(0, bytes@.len() as int) =~= bytes@);
    match parse_i64_range(bytes, 0, bytes.len()) {
        Some(v) => Ok(v),
        None => {
            let mut m = "expected integer, found ".to_owned();
            let d = debug_str(s);
            m.append(d.as_str());
            Err(GenError::at(offset, m))
        },
    }
}

/// What `parse_float` gives: the literal itself when `str::parse::<f64>`
/// accepts it.
pub open spec fn spec_gen_float(bs: Seq<u8>, t: Seq<char>, offset: int) -> Result<
    Seq<char>,
    GenErrorV,
> {
    if spec_is_float_literal(bs) {
        Ok(t)
    } else {
        Err(gerr(offset, "expected number, found "@ + spec_debug_str(t)))
    }
}

/// Checks that `s` reads as an `f64` and gives it back.
fn parse_float(s: &str, offset: usize) -> (r: Result<String, GenError>)
    ensures
        match r {
            Ok(v) => spec_gen_float(s.spec_bytes(), s@, offset as int) == Ok::<
                Seq<char>,
                GenErrorV,
            >(v@),
            Err(e) => spec_gen_float(s.spec_bytes(), s@, offset as int) == Err::<
                Seq<char>,
                GenErrorV,
            >(e@),
        },
        r matches Err(e) ==> e.offset == offset,
{
    let bytes = s.as_bytes();
    assert(bytes@.subrange(0, bytes@.len() as int) =~= bytes@);
    if is_float_literal(bytes, 0, bytes.len()) {
        Ok(s.to_owned())
    } else {
        let mut m = "expected number, found ".to_owned();
        let d = debug_str(s);
        m.append(d.as_str());
        Err(GenError::at(offset, m))
    }
}

pub open spec fn is_digit_char(c: char) -> bool {
    '0' <= c <= '9'
}

pub open spec fn is_alpha_char(c: char) -> bool {
    ('a' <= c <= 'z') || ('A' <= c <= 'Z')
}

/// What `parse_number_value` gives.
pub open spec fn spec_number_value(t: Seq<char>, offset: int) -> Result<JsonV, GenErrorV> {
    number_token_outcome(spec_from_str(t), t, offset)
}

/// What a token `t` that starts like a number is, given what reading it as
/// JSON gave: the value read, or an error naming `t`.
pub open spec fn number_token_outcome(parsed: Result<JsonV, Seq<char>>, t: Seq<char>, offset: int) -> Result<
    JsonV,
    GenErrorV,
> {
    match parsed {
        Ok(v) => Ok(v),
        Err(_) => Err(gerr(offset, "expected number, found "@ + spec_debug_str(t))),
    }
}

/// What a quoted string or JSON literal token is, given what reading it as
/// JSON gave: the value read, or an error of `what` quoting the reader's
/// message.
pub open spec fn json_token_outcome(parsed: Result<JsonV, Seq<char>>, what: Seq<char>, offset: int) -> Result<
    JsonV,
    GenErrorV,
> {
    match parsed {
        Ok(v) => Ok(v),
        Err(m) => Err(gerr(offset, what + m)),
    }
}

/// A number token `s` from what reading it as JSON gave.
pub fn number_token(parsed: Result<Json, String>, s: &str, offset: usize) -> (r: Result<
    Json,
    GenError,
>)
    requires
        parsed_wf(parsed),
    ensures
        match r {
            Ok(v) => number_token_outcome(parsed_view(parsed), s@, offset as int) == Ok::<
                JsonV,
                GenErrorV,
            >(v@) && v@.wf(),
            Err(e) => number_token_outcome(parsed_view(parsed), s@, offset as int) == Err::<
                JsonV,
                GenErrorV,
            >(e@),
        },
        r matches Err(e) ==> e.offset == offset,
{
    match parsed {
        Ok(v) => Ok(v),
        Err(_) => {
            let mut m = "expected number, found ".to_owned();
            let d = debug_str(s);
            m.append(d.as_str());
            Err(GenError::at(offset, m))
        },
    }
}

/// A quoted string or JSON literal token from what reading it as JSON gave;
/// `what` heads the error message.
pub fn json_token(parsed: Result<Json, String>, what: &str, offset: usize) -> (r: Result<
    Json,
    GenError,
>)
    requires
        parsed_wf(parsed),
    ensures
        match r {
            Ok(v) => json_token_outcome(parsed_view(parsed), what@, offset as int) == Ok::<
                JsonV,
                GenErrorV,
            >(v@) && v@.wf(),
            Err(e) => json_token_outcome(parsed_view(parsed), what@, offset as int) == Err::<
                JsonV,
                GenErrorV,
            >(e@),
        },
        r matches Err(e) ==> e.offset == offset,
{
    match parsed {
        Ok(v) => Ok(v),
        Err(e) => {
            let mut m = what.to_owned();
            m.append(e.as_str());
            Err(GenError::at(offset, m))
        },
    }
}

/// What `parse_value` gives for a non-empty trimmed token: a quoted string
/// or JSON literal as JSON reads it; `true`, `false`, `null`; a number; a
/// bare string starting with a letter, `_`, `/` or `.`.
pub open spec fn spec_parse_value(t: Seq<char>, offset: int) -> Result<JsonV, GenErrorV> {
    let first = t[0];
    if first == '"' {
        json_token_outcome(spec_from_str(t), "invalid JSON string: "@, offset)
    } else if first == '{' || first == '[' {
        json_token_outcome(spec_from_str(t), "invalid JSON literal: "@, offset)
    } else if t == "true"@ {
        Ok(JsonV::Bool(true))
    } else if t == "false"@ {
        Ok(JsonV::Bool(false))
    } else if t == "null"@ {
        Ok(JsonV::Null)
    } else if first == '-' || is_digit_char(first) {
        spec_number_value(t, offset)
    } else if is_alpha_char(first) || first == '_' || first == '/' || first == '.' {
        Ok(JsonV::String(t))
    } else {
        Err(gerr(offset, "unrecognized value start "@ + spec_debug_char(first)))
    }
}

/// Reads a token as a JSON value.
pub fn parse_number_value(s: &str, offset: usize) -> (r: Result<Json, GenError>)
    ensures
        match r {
            Ok(v) => spec_number_value(s@, offset as int) == Ok::<JsonV, GenErrorV>(v@)
                && v@.wf(),
            Err(e) => spec_number_value(s@, offset as int) == Err::<JsonV, GenErrorV>(e@),
        },
        r matches Err(e) ==> e.offset == offset,
{
    number_token(parse_json(s), s, offset)
}

/// Reads one list value.
pub fn parse_value(s: &str, offset: usize) -> (r: Result<Json, GenError>)
    requires
        s.spec_bytes().len() > 0,
    ensures
        match r {
            Ok(v) => spec_parse_value(s@, offset as int) == Ok::<JsonV, GenErrorV>(v@) && v@.wf(),
            Err(e) => spec_parse_value(s@, offset as int) == Err::<JsonV, GenErrorV>(e@),
        },
        r matches Err(e) ==> e.offset == offset,
{
    broadcast use vstd::string::axiom_spec_iter, vstd::string::next_postcondition;

    let mut chars = s.chars();
    let first = match chars.next() {
        Some(c) => c,
        None => {
            proof {
                assert(s@ =~= seq![]);
            }
            return vstd::pervasive::unreached();
        },
    };
    if first == '"' {
        return json_token(parse_json(s), "invalid JSON string: ", offset);
    }
    if first == '{' || first == '[' {
        return json_token(parse_json(s), "invalid JSON literal: ", offset);
    }
    if str_equal(s, "true") {
        return Ok(Json::Bool(true));
    }
    if str_equal(s, "false") {
        return Ok(Json::Bool(false));
    }
    if str_equal(s, "null") {
        return Ok(Json::Null);
    }
    if first == '-' || (first >= '0' && first <= '9') {
        return parse_number_value(s, offset);
    }
    if (first >= 'a' && first <= 'z') || (first >= 'A' && first <= 'Z') || first == '_' || first
        == '/' || first == '.' {
        return Ok(Json::String(s.to_owned()));
    }
    let mut m = "unrecognized value start ".to_owned();
    let d = debug_char(first);
    m.append(d.as_str());
    Err(GenError::at(offset, m))
}

// ---------------------------------------------------------------------------
// Lists, ranges, generators
// ---------------------------------------------------------------------------

/// The values of the first `k` pieces of a list, or the first error.
pub open spec fn list_upto(b: Seq<u8>, parts: Seq<(int, int)>, k: int) -> Result<
    Seq<JsonV>,
    GenErrorV,
>
    decreases k,
{
    if k <= 0 {
        Ok(seq![])
    } else {
        match list_upto(b, parts, k - 1) {
            Err(e) => Err(e),
            Ok(vs) => {
                let s = parts[k - 1].0;
                let e = parts[k - 1].1;
                let ts = trim_start_pos(b, s, e);
                let te = trim_end_pos(b, ts, e);
                if ts == te {
                    Err(gerr(s, "empty value (trailing comma?)"@))
                } else {
                    match spec_parse_value(text_of(b, ts, te), ts) {
                        Ok(v) => Ok(vs.push(v)),
                        Err(e) => Err(e),
                    }
                }
            },
        }
    }
}

proof fn lemma_list_err(b: Seq<u8>, parts: Seq<(int, int)>, k: int, n: int)
    requires
        0 <= k <= n,
        list_upto(b, parts, k) is Err,
    ensures
        list_upto(b, parts, n) == list_upto(b, parts, k),
    decreases n - k,
{
    if k < n {
        lemma_list_err(b, parts, k, n - 1);
    }
}

/// What `parse_list` gives for the bytes `b`.
pub open spec fn spec_parse_list(b: Seq<u8>) -> Result<Seq<JsonV>, GenErrorV> {
    match comma_scan(b, 0, 0) {
        Err(e) => Err(e),
        Ok(parts) => list_upto(b, parts, parts.len() as int),
    }
}

/// Reads a comma-separated list of values.
pub fn parse_list(input: &str) -> (r: Result<Vec<Json>, GenError>)
    ensures
        match r {
            Ok(vs) => spec_parse_list(input.spec_bytes()) == Ok::<Seq<JsonV>, GenErrorV>(
                values_view(vs@),
            ) && items_wf(values_view(vs@)),
            Err(e) => spec_parse_list(input.spec_bytes()) == Err::<Seq<JsonV>, GenErrorV>(e@),
        },
        r matches Err(e) ==> e.offset <= input.spec_bytes().len(),
{
    let ghost b = input.spec_bytes();
    let bytes = input.as_bytes();
    proof {
        lemma_str_valid(input);
    }
    let parts = match split_top_level_commas(input) {
        Ok(p) => p,
        Err(e) => {
            return Err(e);
        },
    };
    let ghost pb = piece_bounds(parts@);
    let n = bytes.len();
    let mut out: Vec<Json> = Vec::new();
    let mut k: usize = 0;
    assert(values_view(out@) =~= seq![]);
    while k < parts.len()
        invariant
            k <= parts@.len(),
            b == input.spec_bytes(),
            bytes@ == b,
            vstd::utf8::valid_utf8(b),
            pb == piece_bounds(parts@),
            comma_scan(b, 0, 0) == Ok::<Seq<(int, int)>, GenErrorV>(pb),
            pieces_of(b, parts@),
            n == b.len(),
            list_upto(b, pb, k as int) == Ok::<Seq<JsonV>, GenErrorV>(values_view(out@)),
            items_wf(values_view(out@)),
        decreases parts@.len() - k,
    {
        let s = parts[k].0;
        let raw = parts[k].1;
        proof {
            assert(pb[k as int] == (s as int, s + raw.spec_bytes().len()));
            assert(parts@[k as int].1.spec_bytes() == b.subrange(pb[k as int].0, pb[k as int].1));
        }
        let e = s + raw.as_bytes().len();
        let (ts, te) = trim_range(bytes, s, e);
        if ts == te {
            proof {
                lemma_list_err(b, pb, k + 1, pb.len() as int);
            }
            return Err(GenError::at(s, "empty value (trailing comma?)".to_owned()));
        }
        proof {
            lemma_trim_cut(b, s as int, e as int);
            lemma_trim_cut(b, ts as int, e as int);
        }
        let trimmed = str_slice(input, ts, te);
        let v = match parse_value(trimmed, ts) {
            Ok(v) => v,
            Err(err) => {
                proof {
                    lemma_list_err(b, pb, k + 1, pb.len() as int);
                }
                return Err(err);
            },
        };
        let ghost before = values_view(out@);
        out.push(v);
        proof {
            assert(values_view(out@) =~= before.push(out@.last()@));
        }
        k += 1;
    }
    Ok(out)
}

/// An integer range whose trimmed bounds are `b[ls..le]` and `b[rs..re]`,
/// the end read at offset `after`.
pub open spec fn spec_int_range(
    b: Seq<u8>,
    ls: int,
    le: int,
    rs: int,
    re: int,
    after: int,
    inclusive: bool,
) -> Result<Option<GeneratorV>, GenErrorV> {
    match spec_gen_int(b.subrange(ls, le), text_of(b, ls, le), 0) {
        Err(e) => Err(e),
        Ok(start) => match spec_gen_int(b.subrange(rs, re), text_of(b, rs, re), after) {
            Err(e) => Err(e),
            Ok(end) => Ok(
                Some(GeneratorV::RangeInt { start: start as int, end: end as int, inclusive }),
            ),
        },
    }
}

/// A stepped range: bounds as for `spec_int_range`, the step after the
/// colon, from `sp`.
pub open spec fn spec_stepped_range(
    b: Seq<u8>,
    ls: int,
    le: int,
    rs: int,
    re: int,
    after: int,
    sp: int,
    inclusive: bool,
) -> Result<Option<GeneratorV>, GenErrorV> {
    let ss = trim_start_pos(b, sp, b.len() as int);
    let se = trim_end_pos(b, ss, b.len() as int);
    if ss == se {
        Err(gerr(sp, "stepped range missing step"@))
    } else {
        match spec_gen_float(b.subrange(ls, le), text_of(b, ls, le), 0) {
            Err(e) => Err(e),
            Ok(start) => match spec_gen_float(b.subrange(rs, re), text_of(b, rs, re), after) {
                Err(e) => Err(e),
                Ok(end) => match spec_gen_float(b.subrange(ss, se), text_of(b, ss, se), sp) {
                    Err(e) => Err(e),
                    Ok(step) => Ok(Some(GeneratorV::Stepped { start, end, step, inclusive })),
                },
            },
        }
    }
}

/// A range whose `..` is at `op`: an integer range, or a stepped range
/// when a top-level `:` follows the `..`.
pub open spec fn spec_range_at(b: Seq<u8>, op: int) -> Result<Option<GeneratorV>, GenErrorV> {
    let n = b.len() as int;
    let inclusive = op + 2 < n && b[op + 2] == 61;
    let after = if inclusive {
        op + 3
    } else {
        op + 2
    };
    let colon = colon_scan(b.subrange(after, n), 0);
    let rhs_end = match colon {
        Some(c) => after + c,
        None => n,
    };
    let ls = trim_start_pos(b, 0, op);
    let le = trim_end_pos(b, ls, op);
    let rs = trim_start_pos(b, after, rhs_end);
    let re = trim_end_pos(b, rs, rhs_end);
    if ls == le {
        Err(gerr(0, "range missing start"@))
    } else if rs == re {
        Err(gerr(after, "range missing end"@))
    } else {
        match colon {
            None => spec_int_range(b, ls, le, rs, re, after, inclusive),
            Some(c) => spec_stepped_range(b, ls, le, rs, re, after, after + c + 1, inclusive),
        }
    }
}

/// What `try_range_form` gives for the bytes `b`: `None` when there is no
/// top-level `..`, else the range it starts.
pub open spec fn spec_range_form(b: Seq<u8>) -> Result<Option<GeneratorV>, GenErrorV> {
    match dotdot_scan(b, 0) {
        Err(e) => Err(e),
        Ok(None) => Ok(None),
        Ok(Some(op)) => spec_range_at(b, op),
    }
}

/// What `parse_generator` gives for the bytes `b`.
#[verifier::opaque]
pub open spec fn spec_parse_generator(b: Seq<u8>) -> Result<GeneratorV, GenErrorV> {
    if b.len() == 0 {
        Err(gerr(0, "empty generator"@))
    } else {
        match spec_range_form(b) {
            Err(e) => Err(e),
            Ok(Some(g)) => Ok(g),
            Ok(None) => match spec_parse_list(b) {
                Ok(vs) => Ok(GeneratorV::List(vs)),
                Err(e) => Err(e),
            },
        }
    }
}

/// Every value of a list generator is well-formed JSON.
pub open spec fn generator_wf(g: GeneratorV) -> bool {
    match g {
        GeneratorV::List(vs) => items_wf(vs),
        _ => true,
    }
}

/// The model of an optional generator.
pub open spec fn opt_generator_view(g: Option<Generator>) -> Option<GeneratorV> {
    match g {
        Some(g) => Some(g@),
        None => None,
    }
}

/// The result of a range reader, as the range specs give it.
pub open spec fn range_outcome(r: Result<Option<Generator>, GenError>) -> Result<
    Option<GeneratorV>,
    GenErrorV,
> {
    match r {
        Ok(g) => Ok(opt_generator_view(g)),
        Err(e) => Err(e@),
    }
}

fn int_range(input: &str, ls: usize, le: usize, rs: usize, re: usize, after_op: usize, inclusive: bool) -> (r: Result<
    Option<Generator>,
    GenError,
>)
    requires
        ls <= le,
        rs <= re,
        after_op <= input.spec_bytes().len(),
        cut_ok(input.spec_bytes(), ls as int),
        cut_ok(input.spec_bytes(), le as int),
        cut_ok(input.spec_bytes(), rs as int),
        cut_ok(input.spec_bytes(), re as int),
    ensures
        r matches Err(e) ==> e.offset <= input.spec_bytes().len(),
        range_outcome(r) == spec_int_range(
            input.spec_bytes(),
            ls as int,
            le as int,
            rs as int,
            re as int,
            after_op as int,
            inclusive,
        ),
{
    let start = match parse_int(str_slice(input, ls, le), 0) {
        Ok(v) => v,
        Err(e) => {
            return Err(e);
        },
    };
    let end = match parse_int(str_slice(input, rs, re), after_op) {
        Ok(v) => v,
        Err(e) => {
            return Err(e);
        },
    };
    Ok(Some(Generator::RangeInt { start, end, inclusive }))
}

fn stepped_range(
    input: &str,
    ls: usize,
    le: usize,
    rs: usize,
    re: usize,
    after_op: usize,
    step_offset: usize,
    inclusive: bool,
) -> (r: Result<Option<Generator>, GenError>)
    requires
        ls <= le,
        rs <= re,
        step_offset <= input.spec_bytes().len(),
        after_op <= input.spec_bytes().len(),
        cut_ok(input.spec_bytes(), ls as int),
        cut_ok(input.spec_bytes(), le as int),
        cut_ok(input.spec_bytes(), rs as int),
        cut_ok(input.spec_bytes(), re as int),
        cut_ok(input.spec_bytes(), step_offset as int),
    ensures
        r matches Err(e) ==> e.offset <= input.spec_bytes().len(),
        range_outcome(r) == spec_stepped_range(
            input.spec_bytes(),
            ls as int,
            le as int,
            rs as int,
            re as int,
            after_op as int,
            step_offset as int,
            inclusive,
        ),
{
    let ghost b = input.spec_bytes();
    let bytes = input.as_bytes();
    proof {
        lemma_str_valid(input);
    }
    let n = bytes.len();
    let (ss, se) = trim_range(bytes, step_offset, n);
    if ss == se {
        return Err(GenError::at(step_offset, "stepped range missing step".to_owned()));
    }
    proof {
        lemma_trim_cut(b, step_offset as int, n as int);
        lemma_trim_cut(b, ss as int, n as int);
    }
    let start = match parse_float(str_slice(input, ls, le), 0) {
        Ok(v) => v,
        Err(e) => {
            return Err(e);
        },
    };
    let end = match parse_float(str_slice(input, rs, re), after_op) {
        Ok(v) => v,
        Err(e) => {
            return Err(e);
        },
    };
    let step = match parse_float(str_slice(input, ss, se), step_offset) {
        Ok(v) => v,
        Err(e) => {
            return Err(e);
        },
    };
    Ok(Some(Generator::Stepped { start, end, step, inclusive }))
}

/// Reads the range whose `..` is at `op`.
fn range_at(input: &str, op: usize) -> (r: Result<Option<Generator>, GenError>)
    requires
        op + 1 < input.spec_bytes().len(),
        input.spec_bytes()[op as int] == 46,
        input.spec_bytes()[op + 1] == 46,
    ensures
        range_outcome(r) == spec_range_at(input.spec_bytes(), op as int),
        r matches Err(e) ==> e.offset <= input.spec_bytes().len(),
{
    let ghost b = input.spec_bytes();
    let bytes = input.as_bytes();
    proof {
        lemma_str_valid(input);
        lemma_cut_after(b, op as int);
        lemma_cut_after(b, op + 1);
    }
    let n = bytes.len();
    let inclusive = op + 2 < n && bytes[op + 2] == 61;
    let after_op = if inclusive {
        op + 3
    } else {
        op + 2
    };
    proof {
        if inclusive {
            lemma_cut_after(b, op + 2);
        }
    }
    let rest = str_slice(input, after_op, n);
    proof {
        lemma_colon_scan_bounds(rest.spec_bytes(), 0);
    }
    let colon = find_top_level_colon(rest);
    let rhs_end = match colon {
        Some(c) => after_op + c,
        None => n,
    };
    proof {
        if colon is Some {
            assert(b[rhs_end as int] == rest.spec_bytes()[colon->Some_0 as int]);
            lemma_cut_after(b, rhs_end as int);
        }
    }
    let (ls, le) = trim_range(bytes, 0, op);
    let (rs, re) = trim_range(bytes, after_op, rhs_end);
    if ls == le {
        return Err(GenError::at(0, "range missing start".to_owned()));
    }
    if rs == re {
        return Err(GenError::at(after_op, "range missing end".to_owned()));
    }
    proof {
        lemma_trim_cut(b, 0, op as int);
        lemma_trim_cut(b, ls as int, op as int);
        lemma_trim_cut(b, after_op as int, rhs_end as int);
        lemma_trim_cut(b, rs as int, rhs_end as int);
    }
    match colon {
        None => int_range(input, ls, le, rs, re, after_op, inclusive),
        // The step starts just past the colon.
        Some(c) => stepped_range(input, ls, le, rs, re, after_op, after_op + c + 1, inclusive),
    }
}

/// Reads `a..b`, `a..=b`, `a..b:s` or `a..=b:s`; `None` when `input` holds
/// no top-level `..`.
pub fn try_range_form(input: &str) -> (r: Result<Option<Generator>, GenError>)
    ensures
        range_outcome(r) == spec_range_form(input.spec_bytes()),
        r matches Err(e) ==> e.offset <= input.spec_bytes().len(),
{
    proof {
        lemma_dotdot_scan_bounds(input.spec_bytes(), 0);
    }
    match find_top_level_dotdot(input) {
        Err(e) => Err(e),
        Ok(None) => Ok(None),
        Ok(Some(op)) => range_at(input, op),
    }
}

/// Reads a generator: a range form when the input holds a top-level `..`,
/// else a list.
pub fn parse_generator(input: &str) -> (r: Result<Generator, GenError>)
    ensures
        match r {
            Ok(g) => spec_parse_generator(input.spec_bytes()) == Ok::<GeneratorV, GenErrorV>(g@)
                && generator_wf(g@),
            Err(e) => spec_parse_generator(input.spec_bytes()) == Err::<GeneratorV, GenErrorV>(
                e@,
            ),
        },
        r matches Err(e) ==> e.offset <= input.spec_bytes().len(),
{
    proof {
        reveal(spec_parse_generator);
    }
    if input.as_bytes().len() == 0 {
        return Err(GenError::at(0, "empty generator".to_owned()));
    }
    match try_range_form(input) {
        Err(e) => {
            return Err(e);
        },
        Ok(Some(g)) => {
            return Ok(g);
        },
        Ok(None) => {},
    }
    match parse_list(input) {
        Ok(vs) => Ok(Generator::List(vs)),
        Err(e) => Err(e),
    }
}

/// The integers from `start` to `last`, as JSON numbers.
pub open spec fn int_values(start: int, last: int) -> Seq<JsonV> {
    Seq::new(range_count(start, last), |k: int| JsonV::Number(int_text(start + k)))
}

/// What a list or an integer range expands to.
pub open spec fn spec_generator_values(g: GeneratorV) -> Seq<JsonV> {
    match g {
        GeneratorV::List(vs) => vs,
        GeneratorV::RangeInt { start, end, inclusive } => int_values(
            start,
            range_last(end, inclusive),
        ),
        GeneratorV::Stepped { .. } => seq![],
    }
}

/// A list or integer range whose walk does not overflow.
pub open spec fn expandable(g: GeneratorV) -> bool {
    match g {
        GeneratorV::List(_) => true,
        GeneratorV::RangeInt { start, end, inclusive } => if inclusive {
            end < i64::MAX
        } else {
            end > i64::MIN
        },
        GeneratorV::Stepped { .. } => false,
    }
}

impl Generator {
    /// The values of a list or an integer range.
    pub fn expand(&self) -> (r: Vec<Json>)
        requires
            expandable(self@),
        ensures
            values_view(r@) == spec_generator_values(self@),
            generator_wf(self@) ==> items_wf(values_view(r@)),
    {
        match self {
            Generator::List(vs) => {
                let mut out: Vec<Json> = Vec::new();
                let mut i: usize = 0;
                while i < vs.len()
                    invariant
                        i <= vs@.len(),
                        out@.len() == i,
                        forall|k: int| 0 <= k < i ==> (#[trigger] out@[k])@ == vs@[k]@,
                    decreases vs@.len() - i,
                {
                    out.push(vs[i].deep_clone());
                    i += 1;
                }
                assert(values_view(out@) =~= values_view(vs@));
                out
            },
            Generator::RangeInt { start, end, inclusive } => {
                let mut out: Vec<Json> = Vec::new();
                let last = if *inclusive {
                    *end
                } else {
                    *end - 1
                };
                let ghost want = int_values(*start as int, last as int);
                let mut i = *start;
                while i <= last
                    invariant
                        *start <= i,
                        i <= last + 1 || i == *start,
                        last < i64::MAX,
                        want == int_values(*start as int, last as int),
                        values_view(out@) == want.take(i - *start),
                    decreases last - i + 1,
                {
                    let ghost before = values_view(out@);
                    out.push(Json::Number(JsonNumber::from_i64(i)));
                    proof {
                        assert(values_view(out@) =~= before.push(JsonV::Number(int_text(i as int))));
                        assert(want.take(i + 1 - *start) =~= want.take(i - *start).push(
                            want[i - *start],
                        ));
                    }
                    i += 1;
                }
                assert(want.take(i - *start) =~= want);
                out
            },
            Generator::Stepped { .. } => vstd::pervasive::unreached(),
        }
    }
}

// ---------------------------------------------------------------------------
// What list tokens read as
// ---------------------------------------------------------------------------

/// How a list token reads, by its first character: a JSON keyword as its
/// value; a token that starts with an ASCII letter of either case, `_`, `/`
/// or `.` and is no keyword as the string of its text; a token that starts
/// with anything no value starts with is refused at its own offset.
pub proof fn law_list_tokens(t: Seq<char>, offset: int)
    requires
        t.len() > 0,
        offset >= 0,
    ensures
        keyword_value(t) matches Some(v) ==> spec_parse_value(t, offset) == Ok::<JsonV, GenErrorV>(v),
        ('a' <= t[0] <= 'z' || 'A' <= t[0] <= 'Z' || t[0] == '_' || t[0] == '/' || t[0] == '.')
            && keyword_value(t) is None ==> spec_parse_value(t, offset) == Ok::<JsonV, GenErrorV>(
            JsonV::String(t),
        ),
        !('a' <= t[0] <= 'z' || 'A' <= t[0] <= 'Z' || t[0] == '_' || t[0] == '/' || t[0] == '.'
            || t[0] == '"' || t[0] == '{' || t[0] == '[' || t[0] == '-' || '0' <= t[0] <= '9')
            && keyword_value(t) is None ==> (spec_parse_value(t, offset) matches Err(e) && e.offset
            == offset),
{
    if keyword_value(t) is Some {
        reveal_strlit("true");
        reveal_strlit("false");
        reveal_strlit("null");
        assert(t[0] == 't' || t[0] == 'f' || t[0] == 'n');
    }
}

} // verus!

