//! Axis paths: the segments that address a slot in a JSON value, the
//! templates that `parse_path` reads from the left of `PATH=GEN`, and their
//! expansion into axes.
use vstd::prelude::*;
use vstd::string::*;
use vstd::utf8::{decode_utf8_encode_utf8, encode_scalar, encode_utf8, encode_utf8_decode_utf8, is_leading_byte_width_1, leading_byte_width_1, partial_valid_utf8_extend_ascii_block};
use crate::json::{digit_char, debug_char, debug_str, int_string, int_text, nat_string, nat_text, spec_debug_char, spec_debug_str, spec_from_str, spec_to_string, str_equal, parse_json, parsed_view, parsed_wf, keyword_value, Json, JsonV};
use crate::text::{all_digits, ws_len_at, count_commas, join_at_commas, lemma_join_tiles, tiles_at_commas, digits_value, cut_ok, lemma_cut_after, lemma_str_valid, lemma_trim_cut, parse_i64_range, spec_ident_continue, spec_ident_start, spec_is_digit, spec_is_ident, spec_parse_i64, str_slice, text_of, trim_end_pos, trim_range, trim_start_pos, is_ident_continue, is_ident_range, is_ident_start, lemma_ident_shift, lemma_trim_start_bounds, lemma_trim_end_bounds};

verus! {

broadcast use vstd::seq_lib::group_seq_properties;

// ---------------------------------------------------------------------------
// Segments
// ---------------------------------------------------------------------------

/// One step of a concrete path.
#[derive(Debug, PartialEq)]
pub enum Segment {
    Key(String),
    Index(usize),
    Filter { key: String, value: Json },
}

/// Model of a segment.
pub enum SegV {
    Key(Seq<char>),
    Index(nat),
    Filter { key: Seq<char>, value: JsonV },
}

impl View for Segment {
    type V = SegV;

    open spec fn view(&self) -> SegV {
        match self {
            Segment::Key(k) => SegV::Key(k@),
            Segment::Index(i) => SegV::Index(*i as nat),
            Segment::Filter { key, value } => SegV::Filter { key: key@, value: value@ },
        }
    }
}

/// Model of a sequence of segments.
pub open spec fn segs_view(s: Seq<Segment>) -> Seq<SegV> {
    Seq::new(s.len(), |i: int| s[i]@)
}

impl Segment {
    /// A copy of the segment.
    pub fn copy(&self) -> (r: Segment)
        ensures
            r@ == self@,
    {
        match self {
            Segment::Key(k) => Segment::Key(k.clone()),
            Segment::Index(i) => Segment::Index(*i),
            Segment::Filter { key, value } => Segment::Filter {
                key: key.clone(),
                value: value.deep_clone(),
            },
        }
    }
}

/// Text of a filter value in a label: a string as it is, a number as its
/// text, `null`, `true` or `false`, and an array or object as compact JSON.
pub open spec fn filter_value_text(v: JsonV) -> Seq<char> {
    match v {
        JsonV::Null => "null"@,
        JsonV::Bool(b) => if b {
            "true"@
        } else {
            "false"@
        },
        JsonV::Number(t) => t,
        JsonV::String(s) => s,
        _ => spec_to_string(v),
    }
}

/// Renders a filter value for a label.
pub fn render_filter_value(v: &Json) -> (r: String)
    ensures
        r@ == filter_value_text(v@),
{
    match v {
        Json::Null => "null".to_owned(),
        Json::Bool(b) => if *b {
            "true".to_owned()
        } else {
            "false".to_owned()
        },
        Json::Number(n) => n.as_str().to_owned(),
        Json::String(s) => s.clone(),
        other => other.to_json_string(),
    }
}

/// `[i]`.
pub open spec fn index_label(i: nat) -> Seq<char> {
    seq!['['] + nat_text(i) + seq![']']
}

/// `[key=value]`.
pub open spec fn filter_label(key: Seq<char>, v: JsonV) -> Seq<char> {
    seq!['['] + key + seq!['='] + filter_value_text(v) + seq![']']
}

/// Renders `[i]`.
pub fn render_index(i: usize) -> (r: String)
    ensures
        r@ == index_label(i as nat),
{
    let mut s = "[".to_owned();
    let n = nat_string(i as u64);
    s.append(n.as_str());
    s.append("]");
    proof {
        reveal_strlit("[");
        reveal_strlit("]");
        assert(s@ =~= index_label(i as nat));
    }
    s
}

/// Renders `[key=value]`.
pub fn render_filter(key: &str, value: &Json) -> (r: String)
    ensures
        r@ == filter_label(key@, value@),
{
    let mut s = "[".to_owned();
    s.append(key);
    s.append("=");
    let v = render_filter_value(value);
    s.append(v.as_str());
    s.append("]");
    proof {
        reveal_strlit("[");
        reveal_strlit("=");
        reveal_strlit("]");
        assert(s@ =~= filter_label(key@, value@));
    }
    s
}

} // verus!

verus! {

// ---------------------------------------------------------------------------
// Templates and errors
// ---------------------------------------------------------------------------

/// One step of a path template, as `parse_path` reads it.
#[derive(Debug, PartialEq)]
pub enum SegmentTemplate {
    Key(String),
    Index(usize),
    IndexRange { start: i64, end: i64, inclusive: bool },
    Filter { key: String, value: Json },
    /// `.{k1,k2,...}` — fans the same swept value to multiple coupled keys
    /// within one axis. Distinct from `IndexRange`, which fans out to
    /// multiple *independent* axes.
    KeyGroup(Vec<String>),
}

/// Model of a segment template.
pub enum TemplateV {
    Key(Seq<char>),
    Index(nat),
    IndexRange { start: int, end: int, inclusive: bool },
    Filter { key: Seq<char>, value: JsonV },
    KeyGroup(Seq<Seq<char>>),
}

/// Model of a list of strings.
pub open spec fn strings_view(s: Seq<String>) -> Seq<Seq<char>> {
    Seq::new(s.len(), |i: int| s[i]@)
}

impl View for SegmentTemplate {
    type V = TemplateV;

    open spec fn view(&self) -> TemplateV {
        match self {
            SegmentTemplate::Key(k) => TemplateV::Key(k@),
            SegmentTemplate::Index(i) => TemplateV::Index(*i as nat),
            SegmentTemplate::IndexRange { start, end, inclusive } => TemplateV::IndexRange {
                start: *start as int,
                end: *end as int,
                inclusive: *inclusive,
            },
            SegmentTemplate::Filter { key, value } => TemplateV::Filter { key: key@, value: value@ },
            SegmentTemplate::KeyGroup(ks) => TemplateV::KeyGroup(strings_view(ks@)),
        }
    }
}

/// Model of a list of templates.
pub open spec fn templates_view(s: Seq<SegmentTemplate>) -> Seq<TemplateV> {
    Seq::new(s.len(), |i: int| s[i]@)
}

/// A path that could not be read: what is wrong, and at which byte offset.
#[derive(Debug, PartialEq)]
pub struct PathError {
    pub message: String,
    pub offset: usize,
}

/// Model of a `PathError`.
pub struct PathErrorV {
    pub message: Seq<char>,
    pub offset: nat,
}

impl View for PathError {
    type V = PathErrorV;

    open spec fn view(&self) -> PathErrorV {
        PathErrorV { message: self.message@, offset: self.offset as nat }
    }
}

pub open spec fn perr(offset: int, message: Seq<char>) -> PathErrorV {
    PathErrorV { message, offset: offset as nat }
}

/// `col N: message`, with `N` the 1-based column.
pub open spec fn path_error_text(e: PathErrorV) -> Seq<char> {
    "col "@ + nat_text(e.offset + 1) + ": "@ + e.message
}

impl PathError {
    pub fn at(offset: usize, message: String) -> (r: PathError)
        ensures
            r@ == perr(offset as int, message@),
    {
        PathError { message, offset }
    }

    /// The error as text: `col N: message`.
    pub fn describe(&self) -> (r: String)
        requires
            self.offset < usize::MAX,
        ensures
            r@ == path_error_text(self@),
    {
        let mut s = "col ".to_owned();
        let n = nat_string((self.offset + 1) as u64);
        s.append(n.as_str());
        s.append(": ");
        s.append(self.message.as_str());
        s
    }
}

} // verus!

verus! {

// ---------------------------------------------------------------------------
// Scanning
// ---------------------------------------------------------------------------

/// The quote state (inside a string, just after a backslash) before `b[i]`
/// when scanning from `from`.
pub open spec fn quote_state(b: Seq<u8>, from: int, i: int) -> (bool, bool)
    decreases i - from,
{
    if i <= from {
        (false, false)
    } else {
        quote_step(quote_state(b, from, i - 1), b[i - 1])
    }
}

pub open spec fn quote_step(st: (bool, bool), c: u8) -> (bool, bool) {
    if st.0 {
        if st.1 {
            (true, false)
        } else if c == 92 {
            (true, true)
        } else if c == 34 {
            (false, false)
        } else {
            (true, false)
        }
    } else if c == 34 {
        (true, false)
    } else {
        (false, false)
    }
}

/// The first `]` at or after `i` outside a quoted string, scanning from
/// `from`.
pub open spec fn close_bracket_from(b: Seq<u8>, from: int, i: int) -> Option<int>
    decreases b.len() - i,
{
    if i < from || i >= b.len() {
        None
    } else if !quote_state(b, from, i).0 && b[i] == 93 {
        Some(i)
    } else {
        close_bracket_from(b, from, i + 1)
    }
}

/// The first `=` at or after `i` outside a quoted string.
pub open spec fn eq_from(b: Seq<u8>, i: int) -> Option<int>
    decreases b.len() - i,
{
    if i < 0 || i >= b.len() {
        None
    } else if !quote_state(b, 0, i).0 && b[i] == 61 {
        Some(i)
    } else {
        eq_from(b, i + 1)
    }
}

/// The first `}` at or after `i`.
pub open spec fn close_brace_from(b: Seq<u8>, i: int) -> Option<int>
    decreases b.len() - i,
{
    if i < 0 || i >= b.len() {
        None
    } else if b[i] == 125 {
        Some(i)
    } else {
        close_brace_from(b, i + 1)
    }
}

/// The first `..` at or after `i`.
pub open spec fn dotdot_from(b: Seq<u8>, i: int) -> Option<int>
    decreases b.len() - i,
{
    if i < 0 || i + 1 >= b.len() {
        None
    } else if b[i] == 46 && b[i + 1] == 46 {
        Some(i)
    } else {
        dotdot_from(b, i + 1)
    }
}

/// The pieces of `b` between commas, from `start`, as `(start, end)`.
pub open spec fn comma_parts_from(b: Seq<u8>, start: int, i: int) -> Seq<(int, int)>
    decreases b.len() - i,
{
    if i < 0 || i >= b.len() {
        seq![(start, b.len() as int)]
    } else if b[i] == 44 {
        seq![(start, i)] + comma_parts_from(b, i + 1, i + 1)
    } else {
        comma_parts_from(b, start, i + 1)
    }
}

/// The pieces from `start` tile the rest of `b` at its commas, and hold
/// none.
#[verifier::spinoff_prover]
proof fn lemma_comma_parts_tile(b: Seq<u8>, start: int, i: int)
    requires
        0 <= start <= i <= b.len(),
        forall|j: int| start <= j < i ==> b[j] != 44,
    ensures
        tiles_at_commas(b, comma_parts_from(b, start, i), start),
        comma_parts_from(b, start, i).len() == count_commas(b.skip(i)) + 1,
        forall|k: int, j: int|
            #![trigger comma_parts_from(b, start, i)[k], b[j]]
            0 <= k < comma_parts_from(b, start, i).len() && comma_parts_from(b, start, i)[k].0 <= j
                < comma_parts_from(b, start, i)[k].1 ==> b[j] != 44,
    decreases b.len() - i,
{
    let parts = comma_parts_from(b, start, i);
    let t = b.skip(i);
    if i >= b.len() {
        assert(t.len() == 0);
    } else {
        assert(t[0] == b[i]);
        assert(t.drop_first() =~= b.skip(i + 1));
        if b[i] == 44 {
            let q = comma_parts_from(b, i + 1, i + 1);
            lemma_comma_parts_tile(b, i + 1, i + 1);
            assert(parts == seq![(start, i)] + q);
            assert forall|k: int| 1 <= k < parts.len() implies parts[k] == q[k - 1] by {}
            assert(parts.last() == q.last());
            assert(parts[1] == q[0]);
            assert forall|k1: int, k2: int| 0 <= k1 < k2 < parts.len() implies (
            #[trigger] parts[k1]).0 < (#[trigger] parts[k2]).0 by {
                assert(parts[k2] == q[k2 - 1]);
                if k1 > 0 {
                    assert(parts[k1] == q[k1 - 1]);
                }
            }
            assert forall|k: int| 0 < k < parts.len() implies (#[trigger] parts[k]).0
                == parts[k - 1].1 + 1 && b[parts[k - 1].1] == 44 by {
                assert(parts[k] == q[k - 1]);
                if k > 1 {
                    assert(parts[k - 1] == q[k - 2]);
                }
            }
            assert forall|k: int| 0 <= k < parts.len() implies start <= (#[trigger] parts[k]).0
                <= parts[k].1 <= b.len() by {
                if k > 0 {
                    assert(parts[k] == q[k - 1]);
                }
            }
            assert forall|k: int, j: int|
                #![trigger parts[k], b[j]]
                0 <= k < parts.len() && parts[k].0 <= j < parts[k].1 implies b[j] != 44 by {
                if k > 0 {
                    assert(parts[k] == q[k - 1]);
                    assert(q[k - 1].0 <= j < q[k - 1].1);
                }
            }
        } else {
            lemma_comma_parts_tile(b, start, i + 1);
        }
    }
}

/// `split_commas` cuts at every comma and nowhere else: there is one piece
/// more than there are commas, no piece holds a comma, the pieces follow
/// one another from offset 0 to the end, and joined with commas they give
/// the body back.
pub proof fn law_split_commas(b: Seq<u8>)
    ensures
        comma_parts_from(b, 0, 0).len() == count_commas(b) + 1,
        tiles_at_commas(b, comma_parts_from(b, 0, 0), 0),
        join_at_commas(b, comma_parts_from(b, 0, 0)) == b,
        forall|k: int, j: int|
            #![trigger comma_parts_from(b, 0, 0)[k], b[j]]
            0 <= k < comma_parts_from(b, 0, 0).len() && comma_parts_from(b, 0, 0)[k].0 <= j
                < comma_parts_from(b, 0, 0)[k].1 ==> b[j] != 44,
{
    lemma_comma_parts_tile(b, 0, 0);
    assert(b.skip(0) =~= b);
    lemma_join_tiles(b, comma_parts_from(b, 0, 0), 0);
    assert(b.subrange(0, b.len() as int) =~= b);
}

pub proof fn lemma_close_bracket_bounds(b: Seq<u8>, from: int, i: int)
    ensures
        close_bracket_from(b, from, i) matches Some(c) ==> i <= c < b.len() && b[c] == 93,
    decreases b.len() - i,
{
    if from <= i < b.len() && !(!quote_state(b, from, i).0 && b[i] == 93) {
        lemma_close_bracket_bounds(b, from, i + 1);
    }
}

pub proof fn lemma_close_brace_bounds(b: Seq<u8>, i: int)
    ensures
        close_brace_from(b, i) matches Some(c) ==> i <= c < b.len() && b[c] == 125,
    decreases b.len() - i,
{
    if 0 <= i < b.len() && b[i] != 125 {
        lemma_close_brace_bounds(b, i + 1);
    }
}

pub proof fn lemma_eq_bounds(b: Seq<u8>, i: int)
    ensures
        eq_from(b, i) matches Some(c) ==> i <= c < b.len() && b[c] == 61,
    decreases b.len() - i,
{
    if 0 <= i < b.len() && !(!quote_state(b, 0, i).0 && b[i] == 61) {
        lemma_eq_bounds(b, i + 1);
    }
}

pub proof fn lemma_dotdot_bounds(b: Seq<u8>, i: int)
    ensures
        dotdot_from(b, i) matches Some(c) ==> i <= c && c + 1 < b.len() && b[c] == 46 && b[c + 1]
            == 46,
    decreases b.len() - i,
{
    if 0 <= i && i + 1 < b.len() && !(b[i] == 46 && b[i + 1] == 46) {
        lemma_dotdot_bounds(b, i + 1);
    }
}

/// Whether `s` is an identifier: `[A-Za-z_][A-Za-z0-9_-]*`.
pub fn is_valid_ident(s: &str) -> (r: bool)
    ensures
        r == spec_is_ident(s.spec_bytes(), 0, s.spec_bytes().len() as int),
{
    let bytes = s.as_bytes();
    is_ident_range(bytes, 0, bytes.len())
}

/// Position of the first `}` at or after `from`.
pub fn find_close_brace(input: &str, from: usize) -> (r: Option<usize>)
    ensures
        match r {
            Some(c) => close_brace_from(input.spec_bytes(), from as int) == Some(c as int),
            None => close_brace_from(input.spec_bytes(), from as int) is None,
        },
{
    let bytes = input.as_bytes();
    let mut i = from;
    while i < bytes.len()
        invariant
            from <= i,
            bytes@ == input.spec_bytes(),
            close_brace_from(bytes@, from as int) == close_brace_from(bytes@, i as int),
        decreases bytes@.len() - i,
    {
        if bytes[i] == 125 {
            return Some(i);
        }
        i += 1;
    }
    None
}

/// Position of the first `]` at or after `from` that is not inside a
/// double-quoted string.
pub fn find_close_bracket(input: &str, from: usize) -> (r: Option<usize>)
    ensures
        match r {
            Some(c) => close_bracket_from(input.spec_bytes(), from as int, from as int) == Some(
                c as int,
            ),
            None => close_bracket_from(input.spec_bytes(), from as int, from as int) is None,
        },
{
    let bytes = input.as_bytes();
    let mut i = from;
    let mut in_str = false;
    let mut esc = false;
    while i < bytes.len()
        invariant
            from <= i,
            bytes@ == input.spec_bytes(),
            (in_str, esc) == quote_state(bytes@, from as int, i as int),
            close_bracket_from(bytes@, from as int, from as int) == close_bracket_from(
                bytes@,
                from as int,
                i as int,
            ),
        decreases bytes@.len() - i,
    {
        let b = bytes[i];
        if in_str {
            if esc {
                esc = false;
            } else if b == 92 {
                esc = true;
            } else if b == 34 {
                in_str = false;
            }
        } else {
            if b == 34 {
                in_str = true;
            } else if b == 93 {
                return Some(i);
            }
        }
        i += 1;
    }
    None
}

/// Position of the first `=` that is not inside a double-quoted string.
pub fn find_top_level_eq(s: &str) -> (r: Option<usize>)
    ensures
        match r {
            Some(c) => eq_from(s.spec_bytes(), 0) == Some(c as int),
            None => eq_from(s.spec_bytes(), 0) is None,
        },
{
    let bytes = s.as_bytes();
    let mut i: usize = 0;
    let mut in_str = false;
    let mut esc = false;
    while i < bytes.len()
        invariant
            bytes@ == s.spec_bytes(),
            (in_str, esc) == quote_state(bytes@, 0, i as int),
            eq_from(bytes@, 0) == eq_from(bytes@, i as int),
        decreases bytes@.len() - i,
    {
        let b = bytes[i];
        if in_str {
            if esc {
                esc = false;
            } else if b == 92 {
                esc = true;
            } else if b == 34 {
                in_str = false;
            }
        } else {
            if b == 34 {
                in_str = true;
            } else if b == 61 {
                return Some(i);
            }
        }
        i += 1;
    }
    None
}

/// Position of the first `..`.
pub fn find_dotdot(s: &str) -> (r: Option<usize>)
    ensures
        match r {
            Some(c) => dotdot_from(s.spec_bytes(), 0) == Some(c as int),
            None => dotdot_from(s.spec_bytes(), 0) is None,
        },
{
    let bytes = s.as_bytes();
    let mut i: usize = 0;
    while bytes.len() > 1 && i < bytes.len() - 1
        invariant
            bytes@ == s.spec_bytes(),
            dotdot_from(bytes@, 0) == dotdot_from(bytes@, i as int),
        decreases bytes@.len() - i,
    {
        if bytes[i] == 46 && bytes[i + 1] == 46 {
            return Some(i);
        }
        i += 1;
    }
    None
}

/// Splits `body` at every comma: each piece with its offset in `body`.
pub fn split_commas(body: &str) -> (r: Vec<(usize, &str)>)
    ensures
        r@.len() == comma_parts_from(body.spec_bytes(), 0, 0).len(),
        forall|k: int|
            0 <= k < r@.len() ==> {
                let (s, e) = comma_parts_from(body.spec_bytes(), 0, 0)[k];
                &&& (#[trigger] r@[k]).0 == s
                &&& r@[k].1.spec_bytes() == body.spec_bytes().subrange(s, e)
                &&& r@[k].1@ == text_of(body.spec_bytes(), s, e)
                &&& 0 <= s <= e <= body.spec_bytes().len()
                &&& cut_ok(body.spec_bytes(), s)
                &&& cut_ok(body.spec_bytes(), e)
            },
{
    let bytes = body.as_bytes();
    let ghost b = body.spec_bytes();
    proof {
        lemma_str_valid(body);
    }
    let mut parts: Vec<(usize, &str)> = Vec::new();
    let mut start: usize = 0;
    let mut i: usize = 0;
    while i < bytes.len()
        invariant
            start <= i <= b.len(),
            bytes@ == b,
            b == body.spec_bytes(),
            vstd::utf8::valid_utf8(b),
            cut_ok(b, start as int),
            cut_ok(b, b.len() as int),
            comma_parts_from(b, 0, 0) == seq_of_parts(b, parts@) + comma_parts_from(
                b,
                start as int,
                i as int,
            ),
            forall|k: int|
                0 <= k < parts@.len() ==> {
                    let (s, e) = seq_of_parts(b, parts@)[k];
                    &&& (#[trigger] parts@[k]).0 == s
                    &&& parts@[k].1.spec_bytes() == b.subrange(s, e)
                    &&& parts@[k].1@ == text_of(b, s, e)
                    &&& 0 <= s <= e <= b.len()
                    &&& cut_ok(b, s)
                    &&& cut_ok(b, e)
                },
        decreases b.len() - i,
    {
        if bytes[i] == 44 {
            proof {
                lemma_cut_after(b, i as int);
            }
            let piece = str_slice(body, start, i);
            let ghost before = parts@;
            parts.push((start, piece));
            proof {
                assert(seq_of_parts(b, parts@) =~= seq_of_parts(b, before) + seq![(start as int, i as int)]);
            }
            start = i + 1;
        }
        i += 1;
    }
    let piece = str_slice(body, start, bytes.len());
    let ghost before = parts@;
    parts.push((start, piece));
    proof {
        assert(seq_of_parts(b, parts@) =~= seq_of_parts(b, before) + seq![(start as int, b.len() as int)]);
    }
    parts
}

/// The `(start, end)` of each piece.
pub open spec fn seq_of_parts(b: Seq<u8>, parts: Seq<(usize, &str)>) -> Seq<(int, int)> {
    Seq::new(parts.len(), |k: int| (parts[k].0 as int, parts[k].0 + parts[k].1.spec_bytes().len()))
}

} // verus!

verus! {

// ---------------------------------------------------------------------------
// Bracket bodies
// ---------------------------------------------------------------------------

/// What `parse_int` gives for the string with bytes `bs` and text `t`.
pub open spec fn spec_parse_int(bs: Seq<u8>, t: Seq<char>, offset: int) -> Result<i64, PathErrorV> {
    match spec_parse_i64(bs) {
        Some(v) => Ok(v),
        None => Err(perr(offset, "expected integer, found "@ + spec_debug_str(t))),
    }
}

/// Reads an `i64`, as `str::parse` does.
pub fn parse_int(s: &str, offset: usize) -> (r: Result<i64, PathError>)
    ensures
        match r {
            Ok(v) => spec_parse_int(s.spec_bytes(), s@, offset as int) == Ok::<i64, PathErrorV>(v),
            Err(e) => spec_parse_int(s.spec_bytes(), s@, offset as int) == Err::<i64, PathErrorV>(
                e@,
            ),
        },
{
    let bytes = s.as_bytes();
    assert(bytes@.subrange(0, bytes@.len() as int) =~= bytes@);
    match parse_i64_range(bytes, 0, bytes.len()) {
        Some(v) => Ok(v),
        None => {
            let mut m = "expected integer, found ".to_owned();
            let d = debug_str(s);
            m.append(d.as_str());
            Err(PathError::at(offset, m))
        },
    }
}

pub open spec fn is_bracket(c: u8) -> bool {
    c == 91 || c == 93
}

pub open spec fn has_bracket(bs: Seq<u8>) -> bool {
    exists|j: int| 0 <= j < bs.len() && #[trigger] is_bracket(bs[j])
}

/// What `parse_filter_value` gives for a non-empty trimmed value: `true`,
/// `false`, `null`; a quoted JSON string; a JSON number; or a bare string
/// without brackets.
pub open spec fn spec_filter_value(bs: Seq<u8>, t: Seq<char>, offset: int) -> Result<
    JsonV,
    PathErrorV,
> {
    if t == "true"@ {
        Ok(JsonV::Bool(true))
    } else if t == "false"@ {
        Ok(JsonV::Bool(false))
    } else if t == "null"@ {
        Ok(JsonV::Null)
    } else if bs[0] == 34 {
        quoted_filter_outcome(spec_from_str(t), offset)
    } else if bs[0] == 45 || spec_is_digit(bs[0]) {
        number_filter_outcome(spec_from_str(t), t, offset)
    } else if has_bracket(bs) {
        Err(perr(offset, "unexpected bracket in filter value "@ + spec_debug_str(t)))
    } else {
        Ok(JsonV::String(t))
    }
}

/// What a quoted filter value is, given what reading its text as JSON gave:
/// the value read, or an error quoting the reader's message.
pub open spec fn quoted_filter_outcome(parsed: Result<JsonV, Seq<char>>, offset: int) -> Result<
    JsonV,
    PathErrorV,
> {
    match parsed {
        Ok(v) => Ok(v),
        Err(m) => Err(perr(offset, "invalid JSON string: "@ + m)),
    }
}

/// What a filter value `t` that starts like a number is, given what reading
/// it as JSON gave: the number read, or, for anything else, an error naming
/// `t`.
pub open spec fn number_filter_outcome(
    parsed: Result<JsonV, Seq<char>>,
    t: Seq<char>,
    offset: int,
) -> Result<JsonV, PathErrorV> {
    match parsed {
        Ok(v) => if v is Number {
            Ok(v)
        } else {
            Err(perr(offset, "expected number, found "@ + spec_debug_str(t)))
        },
        Err(_) => Err(perr(offset, "expected number, found "@ + spec_debug_str(t))),
    }
}

/// A quoted filter value from what reading its text as JSON gave.
pub fn quoted_filter_value(parsed: Result<Json, String>, offset: usize) -> (r: Result<
    Json,
    PathError,
>)
    requires
        parsed_wf(parsed),
    ensures
        match r {
            Ok(v) => quoted_filter_outcome(parsed_view(parsed), offset as int) == Ok::<
                JsonV,
                PathErrorV,
            >(v@) && v@.wf(),
            Err(e) => quoted_filter_outcome(parsed_view(parsed), offset as int) == Err::<
                JsonV,
                PathErrorV,
            >(e@),
        },
{
    match parsed {
        Ok(v) => Ok(v),
        Err(e) => {
            let mut m = "invalid JSON string: ".to_owned();
            m.append(e.as_str());
            Err(PathError::at(offset, m))
        },
    }
}

/// A numeric filter value `s` from what reading it as JSON gave.
pub fn number_filter_value(parsed: Result<Json, String>, s: &str, offset: usize) -> (r: Result<
    Json,
    PathError,
>)
    requires
        parsed_wf(parsed),
    ensures
        match r {
            Ok(v) => number_filter_outcome(parsed_view(parsed), s@, offset as int) == Ok::<
                JsonV,
                PathErrorV,
            >(v@) && v@.wf(),
            Err(e) => number_filter_outcome(parsed_view(parsed), s@, offset as int) == Err::<
                JsonV,
                PathErrorV,
            >(e@),
        },
{
    if let Ok(v) = parsed {
        if let Json::Number(_) = v {
            return Ok(v);
        }
    }
    let mut m = "expected number, found ".to_owned();
    let d = debug_str(s);
    m.append(d.as_str());
    Err(PathError::at(offset, m))
}

/// Parse a filter value: number, bool, null, quoted string, or bare string.
pub fn parse_filter_value(s: &str, offset: usize) -> (r: Result<Json, PathError>)
    requires
        s.spec_bytes().len() > 0,
    ensures
        match r {
            Ok(v) => spec_filter_value(s.spec_bytes(), s@, offset as int) == Ok::<
                JsonV,
                PathErrorV,
            >(v@) && v@.wf(),
            Err(e) => spec_filter_value(s.spec_bytes(), s@, offset as int) == Err::<
                JsonV,
                PathErrorV,
            >(e@),
        },
{
    if str_equal(s, "true") {
        return Ok(Json::Bool(true));
    }
    if str_equal(s, "false") {
        return Ok(Json::Bool(false));
    }
    if str_equal(s, "null") {
        return Ok(Json::Null);
    }
    let bytes = s.as_bytes();
    let first = bytes[0];
    if first == 34 {
        return quoted_filter_value(parse_json(s), offset);
    }
    if first == 45 || (first >= 48 && first <= 57) {
        return number_filter_value(parse_json(s), s, offset);
    }
    if contains_bracket(bytes) {
        let mut m = "unexpected bracket in filter value ".to_owned();
        let d = debug_str(s);
        m.append(d.as_str());
        return Err(PathError::at(offset, m));
    }
    Ok(Json::String(s.to_owned()))
}

/// Whether `bytes` holds `[` or `]`.
fn contains_bracket(bytes: &[u8]) -> (r: bool)
    ensures
        r == has_bracket(bytes@),
{
    let mut j: usize = 0;
    while j < bytes.len()
        invariant
            forall|k: int| 0 <= k < j ==> !#[trigger] is_bracket(bytes@[k]),
        decreases bytes@.len() - j,
    {
        if bytes[j] == 91 || bytes[j] == 93 {
            assert(is_bracket(bytes@[j as int]));
            return true;
        }
        j += 1;
    }
    false
}

pub open spec fn msg_negative(v: int) -> Seq<char> {
    "array index must be non-negative, found "@ + int_text(v)
}

/// A range `a..b` or `a..=b` of non-negative integers, whose `..` is at
/// `op`.
pub open spec fn spec_range_body(bb: Seq<u8>, off: int, op: int) -> Result<TemplateV, PathErrorV> {
    let n = bb.len() as int;
    let inclusive = op + 2 < n && bb[op + 2] == 61;
    let after = if inclusive {
        op + 3
    } else {
        op + 2
    };
    let ls = trim_start_pos(bb, 0, op);
    let le = trim_end_pos(bb, ls, op);
    let rs = trim_start_pos(bb, after, n);
    let re = trim_end_pos(bb, rs, n);
    if ls == le {
        Err(perr(off, "range missing start"@))
    } else if rs == re {
        Err(perr(off + after, "range missing end"@))
    } else {
        match spec_parse_int(bb.subrange(ls, le), text_of(bb, ls, le), off + ls) {
            Err(e) => Err(e),
            Ok(start) => match spec_parse_int(bb.subrange(rs, re), text_of(bb, rs, re), off + rs) {
                Err(e) => Err(e),
                Ok(end) => if start < 0 {
                    Err(perr(off + ls, msg_negative(start as int)))
                } else if end < 0 {
                    Err(perr(off + rs, msg_negative(end as int)))
                } else {
                    Ok(TemplateV::IndexRange { start: start as int, end: end as int, inclusive })
                },
            },
        }
    }
}

/// A filter `key=value`, whose `=` is at `eq`.
pub open spec fn spec_filter_body(bb: Seq<u8>, off: int, eq: int) -> Result<TemplateV, PathErrorV> {
    let n = bb.len() as int;
    let ks = trim_start_pos(bb, 0, eq);
    let ke = trim_end_pos(bb, ks, eq);
    let vs = trim_start_pos(bb, eq + 1, n);
    let ve = trim_end_pos(bb, vs, n);
    if ks == ke {
        Err(perr(off, "filter is missing key"@))
    } else if !spec_is_ident(bb, ks, ke) {
        Err(
            perr(
                off + ks,
                "filter key must be an identifier, found "@ + spec_debug_str(text_of(bb, ks, ke)),
            ),
        )
    } else if vs == ve {
        Err(perr(off + eq + 1, "filter is missing value"@))
    } else {
        match spec_filter_value(bb.subrange(vs, ve), text_of(bb, vs, ve), off + vs) {
            Ok(v) => Ok(TemplateV::Filter { key: text_of(bb, ks, ke), value: v }),
            Err(e) => Err(e),
        }
    }
}

/// A non-negative index.
pub open spec fn spec_index_body(bb: Seq<u8>, off: int) -> Result<TemplateV, PathErrorV> {
    let n = bb.len() as int;
    let ts = trim_start_pos(bb, 0, n);
    let te = trim_end_pos(bb, ts, n);
    match spec_parse_int(bb.subrange(ts, te), text_of(bb, ts, te), off + ts) {
        Err(e) => Err(e),
        Ok(v) => if v < 0 {
            Err(perr(off + ts, msg_negative(v as int)))
        } else {
            Ok(TemplateV::Index((v as usize) as nat))
        },
    }
}

/// What `parse_bracket_body` gives for the bytes `bb` between `[` and `]`,
/// which start at byte `off` of the path: a range if `bb` holds `..`, else a
/// filter if it holds `=` outside quotes, else an index.
pub open spec fn spec_bracket_body(bb: Seq<u8>, off: int) -> Result<TemplateV, PathErrorV> {
    match dotdot_from(bb, 0) {
        Some(op) => spec_range_body(bb, off, op),
        None => match eq_from(bb, 0) {
            Some(eq) => spec_filter_body(bb, off, eq),
            None => spec_index_body(bb, off),
        },
    }
}

/// The model of a template result.
pub open spec fn template_outcome(r: Result<SegmentTemplate, PathError>) -> Result<
    TemplateV,
    PathErrorV,
> {
    match r {
        Ok(t) => Ok(t@),
        Err(e) => Err(e@),
    }
}

/// The model of a template, as far as well-formedness goes.
pub open spec fn template_wf(t: TemplateV) -> bool {
    match t {
        TemplateV::Filter { key, value } => value.wf(),
        _ => true,
    }
}

fn negative_index_error(offset: usize, v: i64) -> (r: PathError)
    ensures
        r@ == perr(offset as int, msg_negative(v as int)),
{
    let mut m = "array index must be non-negative, found ".to_owned();
    let t = int_string(v);
    m.append(t.as_str());
    PathError::at(offset, m)
}

#[verifier::spinoff_prover]
#[verifier::rlimit(40)]
fn parse_range_body(body: &str, body_offset: usize, op: usize) -> (r: Result<
    SegmentTemplate,
    PathError,
>)
    requires
        body_offset + body.spec_bytes().len() <= usize::MAX,
        dotdot_from(body.spec_bytes(), 0) == Some(op as int),
    ensures
        template_outcome(r) == spec_range_body(body.spec_bytes(), body_offset as int, op as int),
        r matches Ok(t) ==> template_wf(t@),
{
    let ghost bb = body.spec_bytes();
    let bytes = body.as_bytes();
    let n = bytes.len();
    proof {
        lemma_str_valid(body);
        lemma_dotdot_bounds(bb, 0);
        lemma_cut_after(bb, op as int);
        lemma_cut_after(bb, op + 1);
    }
    let inclusive = op + 2 < n && bytes[op + 2] == 61;
    let after_op = if inclusive {
        op + 3
    } else {
        op + 2
    };
    proof {
        if inclusive {
            lemma_cut_after(bb, op + 2);
        }
    }
    let (ls, le) = trim_range(bytes, 0, op);
    let (rs, re) = trim_range(bytes, after_op, n);
    if ls == le {
        return Err(PathError::at(body_offset, "range missing start".to_owned()));
    }
    if rs == re {
        return Err(PathError::at(body_offset + after_op, "range missing end".to_owned()));
    }
    proof {
        lemma_trim_cut(bb, 0, op as int);
        lemma_trim_cut(bb, ls as int, op as int);
        lemma_trim_cut(bb, after_op as int, n as int);
        lemma_trim_cut(bb, rs as int, n as int);
    }
    let start = match parse_int(str_slice(body, ls, le), body_offset + ls) {
        Ok(v) => v,
        Err(e) => {
            return Err(e);
        },
    };
    let end = match parse_int(str_slice(body, rs, re), body_offset + rs) {
        Ok(v) => v,
        Err(e) => {
            return Err(e);
        },
    };
    if start < 0 {
        return Err(negative_index_error(body_offset + ls, start));
    }
    if end < 0 {
        return Err(negative_index_error(body_offset + rs, end));
    }
    Ok(SegmentTemplate::IndexRange { start, end, inclusive })
}

#[verifier::rlimit(40)]
fn parse_filter_body(body: &str, body_offset: usize, eq: usize) -> (r: Result<
    SegmentTemplate,
    PathError,
>)
    requires
        body_offset + body.spec_bytes().len() <= usize::MAX,
        eq_from(body.spec_bytes(), 0) == Some(eq as int),
    ensures
        template_outcome(r) == spec_filter_body(body.spec_bytes(), body_offset as int, eq as int),
        r matches Ok(t) ==> template_wf(t@),
{
    let ghost bb = body.spec_bytes();
    let bytes = body.as_bytes();
    let n = bytes.len();
    proof {
        lemma_str_valid(body);
        lemma_eq_bounds(bb, 0);
        lemma_cut_after(bb, eq as int);
    }
    let (ks, ke) = trim_range(bytes, 0, eq);
    let (vs, ve) = trim_range(bytes, eq + 1, n);
    if ks == ke {
        return Err(PathError::at(body_offset, "filter is missing key".to_owned()));
    }
    proof {
        lemma_trim_cut(bb, 0, eq as int);
        lemma_trim_cut(bb, ks as int, eq as int);
        lemma_trim_cut(bb, eq + 1, n as int);
        lemma_trim_cut(bb, vs as int, n as int);
    }
    let key_str = str_slice(body, ks, ke);
    proof {
        lemma_trim_start_bounds(bb, 0, eq as int);
        lemma_trim_end_bounds(bb, ks as int, eq as int);
        lemma_trim_start_bounds(bb, eq + 1, n as int);
        lemma_trim_end_bounds(bb, vs as int, n as int);
        lemma_ident_shift(bb, ks as int, ke as int);
    }
    if !is_valid_ident(key_str) {
        let mut m = "filter key must be an identifier, found ".to_owned();
        let d = debug_str(key_str);
        m.append(d.as_str());
        return Err(PathError::at(body_offset + ks, m));
    }
    if vs == ve {
        return Err(PathError::at(body_offset + eq + 1, "filter is missing value".to_owned()));
    }
    let val_str = str_slice(body, vs, ve);
    let value = match parse_filter_value(val_str, body_offset + vs) {
        Ok(v) => v,
        Err(e) => {
            return Err(e);
        },
    };
    Ok(SegmentTemplate::Filter { key: key_str.to_owned(), value })
}

fn parse_index_body(body: &str, body_offset: usize) -> (r: Result<SegmentTemplate, PathError>)
    requires
        body_offset + body.spec_bytes().len() <= usize::MAX,
    ensures
        template_outcome(r) == spec_index_body(body.spec_bytes(), body_offset as int),
        r matches Ok(t) ==> template_wf(t@),
{
    let ghost bb = body.spec_bytes();
    let bytes = body.as_bytes();
    let n = bytes.len();
    proof {
        lemma_str_valid(body);
    }
    let (ts, te) = trim_range(bytes, 0, n);
    proof {
        lemma_trim_cut(bb, 0, n as int);
        lemma_trim_cut(bb, ts as int, n as int);
    }
    let v = match parse_int(str_slice(body, ts, te), body_offset + ts) {
        Ok(v) => v,
        Err(e) => {
            return Err(e);
        },
    };
    if v < 0 {
        return Err(negative_index_error(body_offset + ts, v));
    }
    Ok(SegmentTemplate::Index(v as usize))
}

fn parse_bracket_body(body: &str, body_offset: usize) -> (r: Result<SegmentTemplate, PathError>)
    requires
        body_offset + body.spec_bytes().len() <= usize::MAX,
    ensures
        template_outcome(r) == spec_bracket_body(body.spec_bytes(), body_offset as int),
        r matches Ok(t) ==> template_wf(t@),
{
    // Check for `..` first so that `0..=2` (range) isn't mis-detected as a
    // filter due to the `=` in `..=`.
    match find_dotdot(body) {
        Some(op) => parse_range_body(body, body_offset, op),
        None => match find_top_level_eq(body) {
            Some(eq) => parse_filter_body(body, body_offset, eq),
            None => parse_index_body(body, body_offset),
        },
    }
}

} // verus!

verus! {

// ---------------------------------------------------------------------------
// Cursor
// ---------------------------------------------------------------------------

/// The byte at `i`, if there is one.
pub open spec fn byte_at(b: Seq<u8>, i: int) -> Option<u8> {
    if 0 <= i < b.len() {
        Some(b[i])
    } else {
        None
    }
}

/// Minimal forward-only cursor over a `&str`: the input and a byte offset
/// into it, never past its end.
pub struct Cursor<'a> {
    input: &'a str,
    pos: usize,
}

impl<'a> Cursor<'a> {
    #[verifier::type_invariant]
    spec fn inv(self) -> bool {
        self.pos <= self.input.spec_bytes().len() <= usize::MAX
    }

    /// The bytes of the input.
    pub closed spec fn bytes(self) -> Seq<u8> {
        self.input.spec_bytes()
    }

    /// The input text.
    pub closed spec fn text(self) -> Seq<char> {
        self.input@
    }

    /// The byte offset.
    pub closed spec fn at(self) -> int {
        self.pos as int
    }

    pub fn new(input: &'a str) -> (r: Cursor<'a>)
        ensures
            r.bytes() == input.spec_bytes(),
            r.text() == input@,
            r.at() == 0,
    {
        let _n = input.as_bytes().len();
        Cursor { input, pos: 0 }
    }

    pub fn pos(&self) -> (r: usize)
        ensures
            r == self.at(),
            r <= self.bytes().len() <= usize::MAX,
    {
        proof {
            use_type_invariant(self);
        }
        self.pos
    }

    pub fn input(&self) -> (r: &'a str)
        ensures
            r.spec_bytes() == self.bytes(),
            r@ == self.text(),
    {
        self.input
    }

    /// The byte under the cursor.
    pub fn peek(&self) -> (r: Option<u8>)
        ensures
            r == byte_at(self.bytes(), self.at()),
    {
        proof {
            use_type_invariant(self);
        }
        let bytes = self.input.as_bytes();
        if self.pos < bytes.len() {
            Some(bytes[self.pos])
        } else {
            None
        }
    }

    /// Moves past the byte under the cursor, if there is one, and gives it.
    pub fn bump(&mut self) -> (r: Option<u8>)
        ensures
            r == byte_at(old(self).bytes(), old(self).at()),
            final(self).bytes() == old(self).bytes(),
            final(self).text() == old(self).text(),
            final(self).at() == if r is Some {
                old(self).at() + 1
            } else {
                old(self).at()
            },
    {
        proof {
            use_type_invariant(&*self);
        }
        let bytes = self.input.as_bytes();
        if self.pos < bytes.len() {
            let b = bytes[self.pos];
            self.pos = self.pos + 1;
            Some(b)
        } else {
            None
        }
    }

    /// Moves past every byte that `pred` accepts, and gives the text moved
    /// past. Every position at which `pred` can stop the scan (its first
    /// refused byte, or the end) must lie on a character boundary.
    pub fn eat_while(&mut self, pred: impl Fn(u8) -> bool) -> (r: &'a str)
        requires
            forall|c: u8| call_requires(pred, (c,)),
            cut_ok(old(self).bytes(), old(self).at()),
            forall|j: int|
                old(self).at() <= j <= old(self).bytes().len() && (forall|k: int|
                    old(self).at() <= k < j ==> call_ensures(
                        pred,
                        (#[trigger] old(self).bytes()[k],),
                        true,
                    )) && (j == old(self).bytes().len() || call_ensures(
                    pred,
                    (old(self).bytes()[j],),
                    false,
                )) ==> #[trigger] cut_ok(old(self).bytes(), j),
        ensures
            final(self).bytes() == old(self).bytes(),
            final(self).text() == old(self).text(),
            old(self).at() <= final(self).at() <= old(self).bytes().len(),
            forall|k: int|
                old(self).at() <= k < final(self).at() ==> call_ensures(
                    pred,
                    (#[trigger] old(self).bytes()[k],),
                    true,
                ),
            final(self).at() == old(self).bytes().len() || call_ensures(
                pred,
                (old(self).bytes()[final(self).at()],),
                false,
            ),
            cut_ok(old(self).bytes(), final(self).at()),
            r.spec_bytes() == old(self).bytes().subrange(old(self).at(), final(self).at()),
            r@ == text_of(old(self).bytes(), old(self).at(), final(self).at()),
    {
        proof {
            use_type_invariant(&*self);
        }
        let ghost b = self.input.spec_bytes();
        let start = self.pos;
        let bytes = self.input.as_bytes();
        let mut i = start;
        while i < bytes.len()
            invariant_except_break
                start <= i <= b.len(),
                bytes@ == b,
                forall|c: u8| call_requires(pred, (c,)),
                forall|k: int| start <= k < i ==> call_ensures(pred, (#[trigger] b[k],), true),
            ensures
                start <= i <= b.len(),
                forall|k: int| start <= k < i ==> call_ensures(pred, (#[trigger] b[k],), true),
                i == b.len() || call_ensures(pred, (b[i as int],), false),
            decreases b.len() - i,
        {
            let c = bytes[i];
            let ok = pred(c);
            if !ok {
                break;
            }
            i += 1;
        }
        assert(cut_ok(b, i as int));
        self.pos = i;
        str_slice(self.input, start, i)
    }

    /// Jumps forward to `offset`.
    pub fn seek_to(&mut self, offset: usize)
        requires
            old(self).at() <= offset <= old(self).bytes().len(),
        ensures
            final(self).bytes() == old(self).bytes(),
            final(self).text() == old(self).text(),
            final(self).at() == offset,
    {
        proof {
            use_type_invariant(&*self);
        }
        self.pos = offset;
    }
}

} // verus!

verus! {

// ---------------------------------------------------------------------------
// The path grammar
// ---------------------------------------------------------------------------

/// End of the run of identifier bytes that starts at `i`.
pub open spec fn ident_end(b: Seq<u8>, i: int) -> int
    decreases b.len() - i,
{
    if 0 <= i < b.len() && spec_ident_continue(b[i]) {
        ident_end(b, i + 1)
    } else {
        i
    }
}

pub proof fn lemma_ident_end(b: Seq<u8>, i: int, e: int)
    requires
        0 <= i <= e <= b.len(),
        forall|k: int| i <= k < e ==> spec_ident_continue(#[trigger] b[k]),
        e == b.len() || !spec_ident_continue(b[e]),
    ensures
        ident_end(b, i) == e,
    decreases e - i,
{
    if i < e {
        lemma_ident_end(b, i + 1, e);
    }
}

pub proof fn lemma_ident_end_bounds(b: Seq<u8>, i: int)
    requires
        0 <= i <= b.len(),
    ensures
        i <= ident_end(b, i) <= b.len(),
    decreases b.len() - i,
{
    if i < b.len() && spec_ident_continue(b[i]) {
        lemma_ident_end_bounds(b, i + 1);
    }
}

/// A key at `p`: the template and the position after it.
pub open spec fn spec_key_segment(b: Seq<u8>, p: int) -> Result<(TemplateV, int), PathErrorV> {
    if 0 <= p < b.len() && spec_ident_start(b[p]) {
        let e = ident_end(b, p + 1);
        Ok((TemplateV::Key(text_of(b, p, e)), e))
    } else {
        Err(perr(p, "expected key"@))
    }
}

/// A bracket whose `[` is at `p`: the template and the position after the
/// closing `]`.
pub open spec fn spec_bracket(b: Seq<u8>, p: int) -> Result<(TemplateV, int), PathErrorV> {
    match close_bracket_from(b, p + 1, p + 1) {
        None => Err(perr(p, "unterminated '['"@)),
        Some(c) => {
            let body = b.subrange(p + 1, c);
            let ts = trim_start_pos(body, 0, body.len() as int);
            if ts == trim_end_pos(body, ts, body.len() as int) {
                Err(perr(p + 1, "empty brackets"@))
            } else {
                match spec_bracket_body(body, p + 1) {
                    Ok(t) => Ok((t, c + 1)),
                    Err(e) => Err(e),
                }
            }
        },
    }
}

/// The keys of the first `k` comma-separated entries of a key group whose
/// body `body` starts at byte `base` of the path, or the first entry that
/// is blank or not an identifier.
pub open spec fn group_upto(body: Seq<u8>, parts: Seq<(int, int)>, base: int, k: int) -> Result<
    Seq<Seq<char>>,
    PathErrorV,
>
    decreases k,
{
    if k <= 0 {
        Ok(seq![])
    } else {
        match group_upto(body, parts, base, k - 1) {
            Err(e) => Err(e),
            Ok(keys) => {
                let s = parts[k - 1].0;
                let e = parts[k - 1].1;
                let ts = trim_start_pos(body, s, e);
                let te = trim_end_pos(body, ts, e);
                if ts == te {
                    Err(perr(base + s, "empty key in {...} group"@))
                } else if !spec_is_ident(body, ts, te) {
                    Err(
                        perr(
                            base + ts,
                            "key-group entry must be an identifier, found "@ + spec_debug_str(
                                text_of(body, ts, te),
                            ),
                        ),
                    )
                } else {
                    Ok(keys.push(text_of(body, ts, te)))
                }
            },
        }
    }
}

proof fn lemma_group_err(body: Seq<u8>, parts: Seq<(int, int)>, base: int, k: int, n: int)
    requires
        0 <= k <= n,
        group_upto(body, parts, base, k) is Err,
    ensures
        group_upto(body, parts, base, n) == group_upto(body, parts, base, k),
    decreases n - k,
{
    if k < n {
        lemma_group_err(body, parts, base, k, n - 1);
    }
}

/// A key group whose `{` is at `p`: the template and the position after the
/// closing `}`.
pub open spec fn spec_key_group(b: Seq<u8>, p: int) -> Result<(TemplateV, int), PathErrorV> {
    match close_brace_from(b, p + 1) {
        None => Err(perr(p, "unterminated '{'"@)),
        Some(c) => {
            let body = b.subrange(p + 1, c);
            let parts = comma_parts_from(body, 0, 0);
            match group_upto(body, parts, p + 1, parts.len() as int) {
                Err(e) => Err(e),
                Ok(keys) => if keys.len() == 0 {
                    Err(perr(p + 1, "empty key group"@))
                } else {
                    Ok((TemplateV::KeyGroup(keys), c + 1))
                },
            }
        },
    }
}

/// The first segment of a path.
pub open spec fn spec_head(b: Seq<u8>) -> Result<(TemplateV, int), PathErrorV> {
    if b.len() == 0 {
        Err(perr(0, "empty path"@))
    } else if b[0] == 91 {
        spec_bracket(b, 0)
    } else if spec_ident_start(b[0]) {
        spec_key_segment(b, 0)
    } else {
        Err(
            perr(
                0,
                "path must start with a key or '[', found "@ + spec_debug_char(b[0] as char),
            ),
        )
    }
}

/// A later segment, at `p`: `.key`, `.{keys}` or a bracket.
pub open spec fn spec_step(b: Seq<u8>, p: int) -> Result<(TemplateV, int), PathErrorV> {
    if b[p] == 46 {
        if p + 1 < b.len() && b[p + 1] == 123 {
            spec_key_group(b, p + 1)
        } else {
            spec_key_segment(b, p + 1)
        }
    } else if b[p] == 91 {
        spec_bracket(b, p)
    } else {
        Err(perr(p, "unexpected character "@ + spec_debug_char(b[p] as char)))
    }
}

pub proof fn lemma_step_advances(b: Seq<u8>, p: int)
    requires
        0 <= p < b.len(),
    ensures
        spec_step(b, p) matches Ok((t, q)) ==> p < q <= b.len(),
{
    if b[p] == 46 {
        if p + 1 < b.len() && b[p + 1] == 123 {
            lemma_close_brace_bounds(b, p + 2);
        } else if p + 1 < b.len() {
            lemma_ident_end_bounds(b, p + 2);
        }
    } else if b[p] == 91 {
        lemma_close_bracket_bounds(b, p + 1, p + 1);
    }
}

/// The templates after `acc`, read from `p` to the end of the path.
pub open spec fn spec_rest(b: Seq<u8>, p: int, acc: Seq<TemplateV>) -> Result<
    Seq<TemplateV>,
    PathErrorV,
>
    decreases b.len() - p,
{
    if p < 0 || p >= b.len() {
        Ok(acc)
    } else {
        match spec_step(b, p) {
            Err(e) => Err(e),
            Ok((t, q)) => {
                proof {
                    lemma_step_advances(b, p);
                }
                spec_rest(b, q, acc.push(t))
            },
        }
    }
}

/// What `parse_path` gives for the path with bytes `b`.
#[verifier::opaque]
pub open spec fn spec_parse_path(b: Seq<u8>) -> Result<Seq<TemplateV>, PathErrorV> {
    if b.len() == 0 {
        Err(perr(0, "empty path"@))
    } else {
        match spec_head(b) {
            Err(e) => Err(e),
            Ok((t, q)) => spec_rest(b, q, seq![t]),
        }
    }
}

/// Every filter value in the templates is a well-formed JSON value.
pub open spec fn templates_wf(ts: Seq<TemplateV>) -> bool {
    forall|i: int| 0 <= i < ts.len() ==> template_wf(#[trigger] ts[i])
}

} // verus!

verus! {

// ---------------------------------------------------------------------------
// The parser
// ---------------------------------------------------------------------------

/// The parser's state: a cursor over the path and the templates read so far.
struct Parser<'a> {
    cur: Cursor<'a>,
    out: Vec<SegmentTemplate>,
}

/// The outcome of reading one segment, as the grammar's functions give it.
pub open spec fn step_outcome(r: Result<SegmentTemplate, PathError>, next: int) -> Result<
    (TemplateV, int),
    PathErrorV,
> {
    match r {
        Ok(t) => Ok((t@, next)),
        Err(e) => Err(e@),
    }
}

/// The keys of a key-group body whose first byte is byte `body_start` of
/// the path: each comma-separated entry, trimmed, must be an identifier.
fn group_keys(body: &str, body_start: usize) -> (r: Result<Vec<String>, PathError>)
    requires
        body_start + body.spec_bytes().len() <= usize::MAX,
    ensures
        match r {
            Ok(keys) => group_upto(
                body.spec_bytes(),
                comma_parts_from(body.spec_bytes(), 0, 0),
                body_start as int,
                comma_parts_from(body.spec_bytes(), 0, 0).len() as int,
            ) == Ok::<Seq<Seq<char>>, PathErrorV>(strings_view(keys@)),
            Err(e) => group_upto(
                body.spec_bytes(),
                comma_parts_from(body.spec_bytes(), 0, 0),
                body_start as int,
                comma_parts_from(body.spec_bytes(), 0, 0).len() as int,
            ) == Err::<Seq<Seq<char>>, PathErrorV>(e@),
        },
{
    let ghost bb = body.spec_bytes();
    let ghost cp = comma_parts_from(bb, 0, 0);
    let bytes = body.as_bytes();
    proof {
        lemma_str_valid(body);
    }
    let parts = split_commas(body);
    let mut keys: Vec<String> = Vec::new();
    let mut k: usize = 0;
    assert(strings_view(keys@) =~= seq![]);
    while k < parts.len()
        invariant
            k <= parts@.len(),
            bytes@ == bb,
            bb == body.spec_bytes(),
            cp == comma_parts_from(bb, 0, 0),
            vstd::utf8::valid_utf8(bb),
            body_start + bb.len() <= usize::MAX,
            parts@.len() == cp.len(),
            forall|j: int|
                0 <= j < parts@.len() ==> {
                    let (s, e) = cp[j];
                    &&& (#[trigger] parts@[j]).0 == s
                    &&& parts@[j].1.spec_bytes() == bb.subrange(s, e)
                    &&& parts@[j].1@ == text_of(bb, s, e)
                    &&& 0 <= s <= e <= bb.len()
                    &&& cut_ok(bb, s)
                    &&& cut_ok(bb, e)
                },
            group_upto(bb, cp, body_start as int, k as int) == Ok::<Seq<Seq<char>>, PathErrorV>(
                strings_view(keys@),
            ),
        decreases parts@.len() - k,
    {
        let s = parts[k].0;
        let raw = parts[k].1;
        let e = s + raw.as_bytes().len();
        let (ts, te) = trim_range(bytes, s, e);
        if ts == te {
            proof {
                lemma_group_err(bb, cp, body_start as int, k + 1, cp.len() as int);
            }
            return Err(PathError::at(body_start + s, "empty key in {...} group".to_owned()));
        }
        proof {
            lemma_trim_cut(bb, s as int, e as int);
            lemma_trim_cut(bb, ts as int, e as int);
            lemma_ident_shift(bb, ts as int, te as int);
        }
        let trimmed = str_slice(body, ts, te);
        if !is_valid_ident(trimmed) {
            let mut m = "key-group entry must be an identifier, found ".to_owned();
            let d = debug_str(trimmed);
            m.append(d.as_str());
            proof {
                lemma_group_err(bb, cp, body_start as int, k + 1, cp.len() as int);
            }
            return Err(PathError::at(body_start + ts, m));
        }
        let ghost before = keys@;
        keys.push(trimmed.to_owned());
        proof {
            assert(strings_view(keys@) =~= strings_view(before).push(
                text_of(bb, ts as int, te as int),
            ));
        }
        k += 1;
    }
    Ok(keys)
}

impl<'a> Parser<'a> {
    fn parse_head(&mut self) -> (r: Result<(), PathError>)
        requires
            old(self).cur.at() == 0,
        ensures
            final(self).cur.bytes() == old(self).cur.bytes(),
            final(self).cur.text() == old(self).cur.text(),
            match r {
                Ok(_) => {
                    &&& final(self).out@.len() == old(self).out@.len() + 1
                    &&& final(self).out@.drop_last() == old(self).out@
                    &&& spec_head(old(self).cur.bytes()) == Ok::<(TemplateV, int), PathErrorV>(
                        (final(self).out@.last()@, final(self).cur.at()),
                    )
                    &&& template_wf(final(self).out@.last()@)
                    &&& cut_ok(old(self).cur.bytes(), final(self).cur.at())
                },
                Err(e) => spec_head(old(self).cur.bytes()) == Err::<(TemplateV, int), PathErrorV>(
                    e@,
                ),
            },
    {
        proof {
            lemma_str_valid(self.cur.input);
        }
        match self.cur.peek() {
            Some(c) => {
                if c == 91 {
                    let seg = match self.parse_bracket() {
                        Ok(t) => t,
                        Err(e) => {
                            return Err(e);
                        },
                    };
                    self.out.push(seg);
                    Ok(())
                } else if is_ident_start(c) {
                    let seg = match self.parse_key_segment() {
                        Ok(t) => t,
                        Err(e) => {
                            return Err(e);
                        },
                    };
                    self.out.push(seg);
                    Ok(())
                } else {
                    let mut m = "path must start with a key or '[', found ".to_owned();
                    let d = debug_char(c as char);
                    m.append(d.as_str());
                    Err(PathError::at(0, m))
                }
            },
            None => Err(PathError::at(0, "empty path".to_owned())),
        }
    }

    fn parse_key_segment(&mut self) -> (r: Result<SegmentTemplate, PathError>)
        requires
            cut_ok(old(self).cur.bytes(), old(self).cur.at()),
        ensures
            final(self).cur.bytes() == old(self).cur.bytes(),
            final(self).cur.text() == old(self).cur.text(),
            final(self).out@ == old(self).out@,
            step_outcome(r, final(self).cur.at()) == spec_key_segment(
                old(self).cur.bytes(),
                old(self).cur.at(),
            ),
            r matches Ok(t) ==> template_wf(t@) && cut_ok(
                old(self).cur.bytes(),
                final(self).cur.at(),
            ),
    {
        let ghost b = self.cur.bytes();
        proof {
            lemma_str_valid(self.cur.input);
        }
        let start = self.cur.pos();
        match self.cur.peek() {
            Some(c) => {
                if !is_ident_start(c) {
                    return Err(PathError::at(start, "expected key".to_owned()));
                }
            },
            None => {
                return Err(PathError::at(start, "expected key".to_owned()));
            },
        }
        self.cur.bump();
        proof {
            lemma_cut_after(b, start as int);
            assert forall|j: int|
                start + 1 <= j <= b.len() && (forall|k: int|
                    start + 1 <= k < j ==> call_ensures(
                        is_ident_continue,
                        (#[trigger] b[k],),
                        true,
                    )) && (j == b.len() || call_ensures(
                    is_ident_continue,
                    (b[j],),
                    false,
                )) implies #[trigger] cut_ok(b, j) by {
                if j > start + 1 {
                    assert(call_ensures(is_ident_continue, (b[j - 1],), true));
                    assert(cut_ok(b, j - 1));
                    lemma_cut_after(b, j - 1);
                }
            }
        }
        self.cur.eat_while(is_ident_continue);
        let end = self.cur.pos();
        proof {
            assert forall|k: int| start + 1 <= k < end implies spec_ident_continue(
                #[trigger] b[k],
            ) by {
                assert(call_ensures(is_ident_continue, (b[k],), true));
            }
            if end < b.len() {
                assert(call_ensures(is_ident_continue, (b[end as int],), false));
            }
            lemma_ident_end(b, start + 1, end as int);
        }
        let key = str_slice(self.cur.input(), start, end).to_owned();
        Ok(SegmentTemplate::Key(key))
    }

    fn parse_bracket(&mut self) -> (r: Result<SegmentTemplate, PathError>)
        requires
            byte_at(old(self).cur.bytes(), old(self).cur.at()) == Some(91u8),
        ensures
            final(self).cur.bytes() == old(self).cur.bytes(),
            final(self).cur.text() == old(self).cur.text(),
            final(self).out@ == old(self).out@,
            step_outcome(r, final(self).cur.at()) == spec_bracket(
                old(self).cur.bytes(),
                old(self).cur.at(),
            ),
            r matches Ok(t) ==> template_wf(t@) && cut_ok(
                old(self).cur.bytes(),
                final(self).cur.at(),
            ),
    {
        let ghost b = self.cur.bytes();
        proof {
            lemma_str_valid(self.cur.input);
        }
        let open = self.cur.pos();
        self.cur.bump();
        let body_start = self.cur.pos();
        let input = self.cur.input();
        let close = match find_close_bracket(input, body_start) {
            Some(c) => c,
            None => {
                return Err(PathError::at(open, "unterminated '['".to_owned()));
            },
        };
        proof {
            lemma_close_bracket_bounds(b, body_start as int, body_start as int);
            lemma_cut_after(b, open as int);
            lemma_cut_after(b, close as int);
        }
        let body = str_slice(input, body_start, close);
        let bb = body.as_bytes();
        let (ts, te) = trim_range(bb, 0, bb.len());
        if ts == te {
            return Err(PathError::at(body_start, "empty brackets".to_owned()));
        }
        let seg = match parse_bracket_body(body, body_start) {
            Ok(t) => t,
            Err(e) => {
                return Err(e);
            },
        };
        self.cur.seek_to(close + 1);
        Ok(seg)
    }

    /// Reads `{key1,key2,...}`; the cursor is on the `{`.
    fn parse_key_group(&mut self) -> (r: Result<SegmentTemplate, PathError>)
        requires
            byte_at(old(self).cur.bytes(), old(self).cur.at()) == Some(123u8),
        ensures
            final(self).cur.bytes() == old(self).cur.bytes(),
            final(self).cur.text() == old(self).cur.text(),
            final(self).out@ == old(self).out@,
            step_outcome(r, final(self).cur.at()) == spec_key_group(
                old(self).cur.bytes(),
                old(self).cur.at(),
            ),
            r matches Ok(t) ==> template_wf(t@) && cut_ok(
                old(self).cur.bytes(),
                final(self).cur.at(),
            ),
    {
        let ghost b = self.cur.bytes();
        proof {
            lemma_str_valid(self.cur.input);
        }
        let open = self.cur.pos();
        self.cur.bump();
        let body_start = self.cur.pos();
        let input = self.cur.input();
        let close = match find_close_brace(input, body_start) {
            Some(c) => c,
            None => {
                return Err(PathError::at(open, "unterminated '{'".to_owned()));
            },
        };
        proof {
            lemma_close_brace_bounds(b, body_start as int);
            lemma_cut_after(b, open as int);
            lemma_cut_after(b, close as int);
        }
        let body = str_slice(input, body_start, close);
        let keys = match group_keys(body, body_start) {
            Ok(ks) => ks,
            Err(e) => {
                return Err(e);
            },
        };
        if keys.len() == 0 {
            return Err(PathError::at(body_start, "empty key group".to_owned()));
        }
        self.cur.seek_to(close + 1);
        Ok(SegmentTemplate::KeyGroup(keys))
    }
}

/// Parse a path into a list of segment templates.
///
/// Grammar:
///   path    = head ( "." key | "." group | bracket )*
///   head    = key | bracket
///   key     = [A-Za-z_] [A-Za-z0-9_-]*
///   group   = "{" key ( "," key )* "}"
///   bracket = "[" ( index_or_range | filter ) "]"
///   index_or_range = uint ( ".." "="? uint )?
///   filter         = key "=" value_token
pub fn parse_path(input: &str) -> (r: Result<Vec<SegmentTemplate>, PathError>)
    ensures
        match r {
            Ok(ts) => spec_parse_path(input.spec_bytes()) == Ok::<Seq<TemplateV>, PathErrorV>(
                templates_view(ts@),
            ) && templates_wf(templates_view(ts@)),
            Err(e) => spec_parse_path(input.spec_bytes()) == Err::<Seq<TemplateV>, PathErrorV>(
                e@,
            ),
        },
{
    let ghost b = input.spec_bytes();
    proof {
        reveal(spec_parse_path);
    }
    if input.as_bytes().len() == 0 {
        return Err(PathError::at(0, "empty path".to_owned()));
    }
    let mut p = Parser { cur: Cursor::new(input), out: Vec::new() };
    match p.parse_head() {
        Ok(()) => {},
        Err(e) => {
            return Err(e);
        },
    }
    proof {
        lemma_str_valid(input);
        assert(templates_view(p.out@) =~= seq![p.out@.last()@]);
    }
    loop
        invariant
            p.cur.bytes() == b,
            b == input.spec_bytes(),
            b.len() > 0,
            vstd::utf8::valid_utf8(b),
            cut_ok(b, p.cur.at()),
            spec_parse_path(b) == spec_rest(b, p.cur.at(), templates_view(p.out@)),
            templates_wf(templates_view(p.out@)),
        decreases b.len() - p.cur.at(),
    {
        let here = p.cur.pos();
        let c = match p.cur.peek() {
            Some(c) => c,
            None => {
                return Ok(p.out);
            },
        };
        proof {
            lemma_step_advances(b, here as int);
        }
        let seg = if c == 46 {
            p.cur.bump();
            proof {
                lemma_cut_after(b, here as int);
            }
            match p.cur.peek() {
                Some(c2) => {
                    if c2 == 123 {
                        p.parse_key_group()
                    } else {
                        p.parse_key_segment()
                    }
                },
                None => p.parse_key_segment(),
            }
        } else if c == 91 {
            p.parse_bracket()
        } else {
            let mut m = "unexpected character ".to_owned();
            let d = debug_char(c as char);
            m.append(d.as_str());
            return Err(PathError::at(here, m));
        };
        match seg {
            Ok(t) => {
                let ghost before = p.out@;
                p.out.push(t);
                proof {
                    assert(templates_view(p.out@) =~= templates_view(before).push(t@));
                }
            },
            Err(e) => {
                return Err(e);
            },
        }
    }
}

} // verus!

verus! {

// ---------------------------------------------------------------------------
// Expansion of a template into axes
// ---------------------------------------------------------------------------

/// Result of expanding one path template into the set of axes (and, within
/// each axis, the set of coupled paths) it represents.
///
/// - A vanilla `a.b.c` template produces one expansion with one path.
/// - A bracket range `a[0..=2].x` produces three expansions, each with one
///   path (`a[0].x`, `a[1].x`, `a[2].x`) — independent axes.
/// - A key group `a.{x,y}` produces one expansion with two paths
///   (`a.x`, `a.y`) — same axis, coupled.
/// - Both combine cartesian: `a[0..=1].{x,y}` is two expansions of two
///   paths each.
#[derive(Debug, PartialEq)]
pub struct AxisExpansion {
    pub paths: Vec<Vec<Segment>>,
    /// Display label for this axis, rendered back from the template with
    /// range positions substituted but key-groups left as `{a,b}`.
    pub label: String,
}

/// Model of an expansion.
pub struct ExpansionV {
    pub paths: Seq<Seq<SegV>>,
    pub label: Seq<char>,
}

/// Model of a list of paths.
pub open spec fn paths_view(s: Seq<Vec<Segment>>) -> Seq<Seq<SegV>> {
    Seq::new(s.len(), |i: int| segs_view(s[i]@))
}

impl View for AxisExpansion {
    type V = ExpansionV;

    open spec fn view(&self) -> ExpansionV {
        ExpansionV { paths: paths_view(self.paths@), label: self.label@ }
    }
}

/// Model of a list of expansions.
pub open spec fn expansions_view(s: Seq<AxisExpansion>) -> Seq<ExpansionV> {
    Seq::new(s.len(), |i: int| s[i]@)
}

/// The keys of a group joined by commas.
pub open spec fn join_keys(keys: Seq<Seq<char>>) -> Seq<char>
    decreases keys.len(),
{
    if keys.len() == 0 {
        seq![]
    } else if keys.len() == 1 {
        keys[0]
    } else {
        join_keys(keys.drop_last()) + seq![','] + keys.last()
    }
}

/// `k` at the start of a path, `.k` after it.
pub open spec fn key_label(k: Seq<char>, first: bool) -> Seq<char> {
    if first {
        k
    } else {
        seq!['.'] + k
    }
}

/// `{k1,k2}` at the start of a path, `.{k1,k2}` after it.
pub open spec fn group_label(keys: Seq<Seq<char>>, first: bool) -> Seq<char> {
    key_label(seq!['{'] + join_keys(keys) + seq!['}'], first)
}

/// Every expansion with `part` added to its label and `seg` to each path.
pub open spec fn extend_all(es: Seq<ExpansionV>, part: Seq<char>, seg: SegV) -> Seq<ExpansionV> {
    Seq::new(
        es.len(),
        |i: int|
            ExpansionV {
                paths: Seq::new(es[i].paths.len(), |j: int| es[i].paths[j].push(seg)),
                label: es[i].label + part,
            },
    )
}

/// The last index of a range.
pub open spec fn range_last(end: int, inclusive: bool) -> int {
    if inclusive {
        end
    } else {
        end - 1
    }
}

/// The number of indices from `start` to `last`.
pub open spec fn range_count(start: int, last: int) -> nat {
    if last >= start {
        (last - start + 1) as nat
    } else {
        0
    }
}

/// One expansion for each index from `start` to `last`.
pub open spec fn range_axes(e: ExpansionV, start: int, last: int) -> Seq<ExpansionV> {
    Seq::new(
        range_count(start, last),
        |k: int|
            {
                let i = ((start + k) as usize) as nat;
                ExpansionV {
                    paths: Seq::new(e.paths.len(), |j: int| e.paths[j].push(SegV::Index(i))),
                    label: e.label + index_label(i),
                }
            },
    )
}

/// Each path followed by each key, in order.
pub open spec fn fan_paths(paths: Seq<Seq<SegV>>, keys: Seq<Seq<char>>) -> Seq<Seq<SegV>> {
    paths.map_values(|p: Seq<SegV>| keys.map_values(|k: Seq<char>| p.push(SegV::Key(k)))).flatten()
}

/// The expansions after one more template, which is the first when
/// `first`.
pub open spec fn expand_step(es: Seq<ExpansionV>, t: TemplateV, first: bool) -> Seq<ExpansionV> {
    match t {
        TemplateV::Key(k) => extend_all(es, key_label(k, first), SegV::Key(k)),
        TemplateV::Index(i) => extend_all(es, index_label(i), SegV::Index(i)),
        TemplateV::Filter { key, value } => extend_all(
            es,
            filter_label(key, value),
            SegV::Filter { key, value },
        ),
        TemplateV::IndexRange { start, end, inclusive } => es.map_values(
            |e: ExpansionV| range_axes(e, start, range_last(end, inclusive)),
        ).flatten(),
        TemplateV::KeyGroup(keys) => Seq::new(
            es.len(),
            |i: int|
                ExpansionV {
                    paths: fan_paths(es[i].paths, keys),
                    label: es[i].label + group_label(keys, first),
                },
        ),
    }
}

/// The expansions of the first `n` templates.
pub open spec fn expand_upto(ts: Seq<TemplateV>, n: int) -> Seq<ExpansionV>
    decreases n,
{
    if n <= 0 {
        seq![ExpansionV { paths: seq![seq![]], label: seq![] }]
    } else {
        expand_step(expand_upto(ts, n - 1), ts[n - 1], n - 1 == 0)
    }
}

/// What `expand_template` gives: index ranges in cartesian order with the
/// leftmost varying slowest, key groups fanning out the paths of each axis.
pub open spec fn spec_expand_template(ts: Seq<TemplateV>) -> Seq<ExpansionV> {
    expand_upto(ts, ts.len() as int)
}

/// Every index range can be walked without overflow.
pub open spec fn ranges_bounded(ts: Seq<TemplateV>) -> bool {
    forall|i: int|
        0 <= i < ts.len() ==> match #[trigger] ts[i] {
            TemplateV::IndexRange { start, end, inclusive } => if inclusive {
                end < i64::MAX
            } else {
                end > i64::MIN
            },
            _ => true,
        }
}

/// A copy of the path `p` with `seg` added at its end.
fn extended_path(p: &Vec<Segment>, seg: &Segment) -> (r: Vec<Segment>)
    ensures
        segs_view(r@) == segs_view(p@).push(seg@),
{
    let mut r: Vec<Segment> = Vec::new();
    let mut i: usize = 0;
    while i < p.len()
        invariant
            i <= p@.len(),
            r@.len() == i,
            forall|k: int| 0 <= k < i ==> (#[trigger] r@[k])@ == p@[k]@,
        decreases p@.len() - i,
    {
        r.push(p[i].copy());
        i += 1;
    }
    r.push(seg.copy());
    assert(segs_view(r@) =~= segs_view(p@).push(seg@));
    r
}

/// Copies of the paths, each with `seg` added at its end.
fn extend_paths(paths: &Vec<Vec<Segment>>, seg: &Segment) -> (r: Vec<Vec<Segment>>)
    ensures
        paths_view(r@) == Seq::new(
            paths@.len(),
            |j: int| paths_view(paths@)[j].push(seg@),
        ),
{
    let mut r: Vec<Vec<Segment>> = Vec::new();
    let mut j: usize = 0;
    while j < paths.len()
        invariant
            j <= paths@.len(),
            r@.len() == j,
            forall|k: int| 0 <= k < j ==> segs_view((#[trigger] r@[k])@) == segs_view(paths@[k]@).push(seg@),
        decreases paths@.len() - j,
    {
        r.push(extended_path(&paths[j], seg));
        j += 1;
    }
    assert(paths_view(r@) =~= Seq::new(paths@.len(), |j: int| paths_view(paths@)[j].push(seg@)));
    r
}

/// A string followed by another.
fn joined(a: &String, b: &str) -> (r: String)
    ensures
        r@ == a@ + b@,
{
    let mut s = a.clone();
    s.append(b);
    s
}

/// Every expansion with `part` added to its label and `seg` to each path.
fn extend_each(out: &Vec<AxisExpansion>, part: &str, seg: &Segment) -> (r: Vec<AxisExpansion>)
    ensures
        expansions_view(r@) == extend_all(expansions_view(out@), part@, seg@),
{
    let mut r: Vec<AxisExpansion> = Vec::new();
    let mut i: usize = 0;
    while i < out.len()
        invariant
            i <= out@.len(),
            r@.len() == i,
            forall|k: int|
                0 <= k < i ==> (#[trigger] r@[k])@ == extend_all(expansions_view(out@), part@, seg@)[k],
        decreases out@.len() - i,
    {
        let e = &out[i];
        let paths = extend_paths(&e.paths, seg);
        let label = joined(&e.label, part);
        r.push(AxisExpansion { paths, label });
        proof {
            assert(r@[i as int]@.paths =~= extend_all(expansions_view(out@), part@, seg@)[i as int].paths);
        }
        i += 1;
    }
    assert(expansions_view(r@) =~= extend_all(expansions_view(out@), part@, seg@));
    r
}

/// One expansion of each of `out` for each index from `start` to `last`,
/// the index varying fastest.
fn fan_ranges(out: &Vec<AxisExpansion>, start: i64, last: i64) -> (r: Vec<AxisExpansion>)
    requires
        last < i64::MAX,
    ensures
        expansions_view(r@) == expansions_view(out@).map_values(
            |e: ExpansionV| range_axes(e, start as int, last as int),
        ).flatten(),
{
    let ghost f = |e: ExpansionV| range_axes(e, start as int, last as int);
    let mut r: Vec<AxisExpansion> = Vec::new();
    let mut a: usize = 0;
    assert(expansions_view(out@).take(0).map_values(f) =~= seq![]);
    while a < out.len()
        invariant
            a <= out@.len(),
            last < i64::MAX,
            f == (|e: ExpansionV| range_axes(e, start as int, last as int)),
            expansions_view(r@) == expansions_view(out@).take(a as int).map_values(f).flatten(),
        decreases out@.len() - a,
    {
        let e = &out[a];
        let ghost prev = expansions_view(r@);
        let ghost whole = range_axes(e@, start as int, last as int);
        let mut i = start;
        while i <= last
            invariant
                start <= i,
                i <= last + 1 || i == start,
                last < i64::MAX,
                whole == range_axes(e@, start as int, last as int),
                expansions_view(r@) == prev + whole.take(i - start),
            decreases last - i + 1,
        {
            let paths = extend_paths(&e.paths, &Segment::Index(i as usize));
            let idx = render_index(i as usize);
            let label = joined(&e.label, idx.as_str());
            let ghost before = expansions_view(r@);
            r.push(AxisExpansion { paths, label });
            proof {
                assert(r@.last()@.paths =~= whole[i - start].paths);
                assert(expansions_view(r@) =~= before.push(r@.last()@));
                assert(whole.take(i + 1 - start) =~= whole.take(i - start).push(whole[i - start]));
            }
            i += 1;
        }
        proof {
            assert(whole.take(i - start) =~= whole);
            let s = expansions_view(out@).take(a as int).map_values(f);
            assert(expansions_view(out@).take(a + 1).map_values(f) =~= s.push(f(e@)));
            s.lemma_flatten_push(f(e@));
        }
        a += 1;
    }
    assert(expansions_view(out@).take(out@.len() as int) =~= expansions_view(out@));
    r
}

/// Each path followed by each key, the key varying fastest.
fn fan_path_keys(paths: &Vec<Vec<Segment>>, keys: &Vec<String>) -> (r: Vec<Vec<Segment>>)
    ensures
        paths_view(r@) == fan_paths(paths_view(paths@), strings_view(keys@)),
{
    let ghost ks = strings_view(keys@);
    let ghost f = |p: Seq<SegV>| ks.map_values(|k: Seq<char>| p.push(SegV::Key(k)));
    let mut r: Vec<Vec<Segment>> = Vec::new();
    let mut a: usize = 0;
    assert(paths_view(paths@).take(0).map_values(f) =~= seq![]);
    while a < paths.len()
        invariant
            a <= paths@.len(),
            ks == strings_view(keys@),
            f == (|p: Seq<SegV>| ks.map_values(|k: Seq<char>| p.push(SegV::Key(k)))),
            paths_view(r@) == paths_view(paths@).take(a as int).map_values(f).flatten(),
        decreases paths@.len() - a,
    {
        let p = &paths[a];
        let ghost prev = paths_view(r@);
        let ghost whole = f(segs_view(p@));
        let mut i: usize = 0;
        while i < keys.len()
            invariant
                i <= keys@.len(),
                ks == strings_view(keys@),
                whole == ks.map_values(|k: Seq<char>| segs_view(p@).push(SegV::Key(k))),
                paths_view(r@) == prev + whole.take(i as int),
            decreases keys@.len() - i,
        {
            let q = extended_path(p, &Segment::Key(keys[i].clone()));
            let ghost before = paths_view(r@);
            r.push(q);
            proof {
                assert(paths_view(r@) =~= before.push(segs_view(r@.last()@)));
                assert(whole.take(i + 1) =~= whole.take(i as int).push(whole[i as int]));
            }
            i += 1;
        }
        proof {
            assert(whole.take(i as int) =~= whole);
            let s = paths_view(paths@).take(a as int).map_values(f);
            assert(paths_view(paths@).take(a + 1).map_values(f) =~= s.push(f(segs_view(p@))));
            s.lemma_flatten_push(f(segs_view(p@)));
        }
        a += 1;
    }
    assert(paths_view(paths@).take(paths@.len() as int) =~= paths_view(paths@));
    r
}

/// The keys joined by commas.
fn join_with_commas(keys: &Vec<String>) -> (r: String)
    ensures
        r@ == join_keys(strings_view(keys@)),
{
    let ghost ks = strings_view(keys@);
    let mut s = String::new();
    let mut i: usize = 0;
    proof {
        assert(ks.take(0) =~= seq![]);
    }
    while i < keys.len()
        invariant
            i <= keys@.len(),
            ks == strings_view(keys@),
            s@ == join_keys(ks.take(i as int)),
        decreases keys@.len() - i,
    {
        if i > 0 {
            s.append(",");
        }
        s.append(keys[i].as_str());
        proof {
            reveal_strlit(",");
            assert(ks.take(i + 1).drop_last() =~= ks.take(i as int));
            if i == 0 {
                assert(ks.take(1) =~= seq![ks[0]]);
            }
        }
        i += 1;
    }
    assert(ks.take(keys@.len() as int) =~= ks);
    s
}

/// Every expansion with the group's label added and its paths fanned out
/// over the keys.
fn fan_keys(out: &Vec<AxisExpansion>, keys: &Vec<String>, part: &str) -> (r: Vec<AxisExpansion>)
    ensures
        expansions_view(r@) == Seq::new(
            out@.len(),
            |i: int|
                ExpansionV {
                    paths: fan_paths(expansions_view(out@)[i].paths, strings_view(keys@)),
                    label: expansions_view(out@)[i].label + part@,
                },
        ),
{
    let mut r: Vec<AxisExpansion> = Vec::new();
    let mut i: usize = 0;
    while i < out.len()
        invariant
            i <= out@.len(),
            r@.len() == i,
            forall|k: int|
                0 <= k < i ==> (#[trigger] r@[k])@ == (ExpansionV {
                    paths: fan_paths(out@[k]@.paths, strings_view(keys@)),
                    label: out@[k]@.label + part@,
                }),
        decreases out@.len() - i,
    {
        let e = &out[i];
        let paths = fan_path_keys(&e.paths, keys);
        let label = joined(&e.label, part);
        r.push(AxisExpansion { paths, label });
        i += 1;
    }
    assert(expansions_view(r@) =~= Seq::new(
        out@.len(),
        |i: int|
            ExpansionV {
                paths: fan_paths(expansions_view(out@)[i].paths, strings_view(keys@)),
                label: expansions_view(out@)[i].label + part@,
            },
    ));
    r
}

/// A key's label: the key, after a `.` unless it comes first.
fn render_key_label(k: &String, first: bool) -> (r: String)
    ensures
        r@ == key_label(k@, first),
{
    if first {
        k.clone()
    } else {
        let mut s = ".".to_owned();
        s.append(k.as_str());
        proof {
            reveal_strlit(".");
        }
        s
    }
}

/// The expansions after one more template.
fn expand_one(out: &Vec<AxisExpansion>, t: &SegmentTemplate, first: bool) -> (r: Vec<
    AxisExpansion,
>)
    requires
        match t@ {
            TemplateV::IndexRange { start, end, inclusive } => if inclusive {
                end < i64::MAX
            } else {
                end > i64::MIN
            },
            _ => true,
        },
    ensures
        expansions_view(r@) == expand_step(expansions_view(out@), t@, first),
{
    match t {
        SegmentTemplate::Key(k) => {
            let part = render_key_label(k, first);
            extend_each(out, part.as_str(), &Segment::Key(k.clone()))
        },
        SegmentTemplate::Index(i) => {
            let part = render_index(*i);
            extend_each(out, part.as_str(), &Segment::Index(*i))
        },
        SegmentTemplate::Filter { key, value } => {
            let part = render_filter(key.as_str(), value);
            extend_each(
                out,
                part.as_str(),
                &Segment::Filter { key: key.clone(), value: value.deep_clone() },
            )
        },
        SegmentTemplate::IndexRange { start, end, inclusive } => {
            let last = if *inclusive {
                *end
            } else {
                *end - 1
            };
            fan_ranges(out, *start, last)
        },
        SegmentTemplate::KeyGroup(keys) => {
            let mut inner = "{".to_owned();
            let joined_keys = join_with_commas(keys);
            inner.append(joined_keys.as_str());
            inner.append("}");
            let part = render_key_label(&inner, first);
            proof {
                reveal_strlit("{");
                reveal_strlit("}");
                assert(inner@ =~= seq!['{'] + join_keys(strings_view(keys@)) + seq!['}']);
            }
            let r = fan_keys(out, keys, part.as_str());
            proof {
                assert(expansions_view(r@) =~= expand_step(expansions_view(out@), t@, first));
            }
            r
        },
    }
}

/// Expand a path template into the axes (and per-axis coupled paths) it
/// represents. See `AxisExpansion` for the semantic split between
/// `IndexRange` (independent axes) and `KeyGroup` (coupled paths).
///
/// `IndexRange`s in cartesian order with leftmost varying slowest.
pub fn expand_template(template: &[SegmentTemplate]) -> (r: Vec<AxisExpansion>)
    requires
        ranges_bounded(templates_view(template@)),
    ensures
        expansions_view(r@) == spec_expand_template(templates_view(template@)),
{
    let ghost tv = templates_view(template@);
    let mut out: Vec<AxisExpansion> = Vec::new();
    let empty: Vec<Segment> = Vec::new();
    let mut paths: Vec<Vec<Segment>> = Vec::new();
    paths.push(empty);
    out.push(AxisExpansion { paths, label: String::new() });
    proof {
        assert(segs_view(out@[0].paths@[0]@) =~= seq![]);
        assert(paths_view(out@[0].paths@) =~= seq![seq![]]);
        assert(expansions_view(out@) =~= expand_upto(tv, 0));
    }
    let mut pos: usize = 0;
    while pos < template.len()
        invariant
            pos <= template@.len(),
            tv == templates_view(template@),
            ranges_bounded(tv),
            expansions_view(out@) == expand_upto(tv, pos as int),
        decreases template@.len() - pos,
    {
        proof {
            assert(tv[pos as int] == template@[pos as int]@);
        }
        out = expand_one(&out, &template[pos], pos == 0);
        pos += 1;
    }
    out
}

// ---------------------------------------------------------------------------
// Rendering a concrete path
// ---------------------------------------------------------------------------

/// The source-style text of a segment; `first` when it starts the path.
pub open spec fn seg_text(s: SegV, first: bool) -> Seq<char> {
    match s {
        SegV::Key(k) => key_label(k, first),
        SegV::Index(i) => index_label(i),
        SegV::Filter { key, value } => filter_label(key, value),
    }
}

/// The source-style text of a path.
pub open spec fn path_text(segs: Seq<SegV>) -> Seq<char>
    decreases segs.len(),
{
    if segs.len() == 0 {
        seq![]
    } else {
        path_text(segs.drop_last()) + seg_text(segs.last(), segs.len() == 1)
    }
}

/// Render a concrete path back into source-style notation, e.g.
/// `classes[5].weight` or `classes[name=Treasury].weight`.
pub fn segments_to_string(segs: &[Segment]) -> (r: String)
    ensures
        r@ == path_text(segs_view(segs@)),
{
    let ghost sv = segs_view(segs@);
    let mut s = String::new();
    let mut i: usize = 0;
    proof {
        assert(sv.take(0) =~= seq![]);
    }
    while i < segs.len()
        invariant
            i <= segs@.len(),
            sv == segs_view(segs@),
            s@ == path_text(sv.take(i as int)),
        decreases segs@.len() - i,
    {
        let part = match &segs[i] {
            Segment::Key(k) => render_key_label(k, i == 0),
            Segment::Index(idx) => render_index(*idx),
            Segment::Filter { key, value } => render_filter(key.as_str(), value),
        };
        s.append(part.as_str());
        proof {
            assert(sv.take(i + 1).drop_last() =~= sv.take(i as int));
        }
        i += 1;
    }
    assert(sv.take(segs@.len() as int) =~= sv);
    s
}

// ---------------------------------------------------------------------------
// Laws of expansion
// ---------------------------------------------------------------------------

/// How many axes the templates expand to: the product of the sizes of
/// their index ranges.
pub open spec fn axis_count(ts: Seq<TemplateV>) -> nat
    decreases ts.len(),
{
    if ts.len() == 0 {
        1
    } else {
        axis_count(ts.drop_last()) * match ts.last() {
            TemplateV::IndexRange { start, end, inclusive } => range_count(
                start,
                range_last(end, inclusive),
            ),
            _ => 1nat,
        }
    }
}

/// How many coupled paths each axis holds: the product of the sizes of the
/// key groups.
pub open spec fn path_count(ts: Seq<TemplateV>) -> nat
    decreases ts.len(),
{
    if ts.len() == 0 {
        1
    } else {
        path_count(ts.drop_last()) * match ts.last() {
            TemplateV::KeyGroup(keys) => keys.len(),
            _ => 1nat,
        }
    }
}

/// Every expansion holds `np` paths of `len` segments each.
pub open spec fn expansions_shaped(es: Seq<ExpansionV>, np: nat, len: nat) -> bool {
    forall|i: int|
        0 <= i < es.len() ==> {
            &&& (#[trigger] es[i]).paths.len() == np
            &&& forall|j: int| 0 <= j < es[i].paths.len() ==> (#[trigger] es[i].paths[j]).len() == len
        }
}

proof fn lemma_flatten_uniform<A>(ss: Seq<Seq<A>>, c: nat)
    requires
        forall|i: int| 0 <= i < ss.len() ==> (#[trigger] ss[i]).len() == c,
    ensures
        ss.flatten().len() == ss.len() * c,
    decreases ss.len(),
{
    if ss.len() > 0 {
        let rest = ss.drop_first();
        assert forall|i: int| 0 <= i < rest.len() implies (#[trigger] rest[i]).len() == c by {
            assert(rest[i] == ss[i + 1]);
        }
        lemma_flatten_uniform(rest, c);
        assert(ss.flatten() == ss.first() + rest.flatten());
        assert(ss.len() * c == c + rest.len() * c) by (nonlinear_arith)
            requires
                rest.len() == ss.len() - 1,
        ;
    }
}

proof fn lemma_flatten_all<A>(ss: Seq<Seq<A>>, p: spec_fn(A) -> bool)
    requires
        forall|i: int, j: int| 0 <= i < ss.len() && 0 <= j < ss[i].len() ==> p(#[trigger] ss[i][j]),
    ensures
        forall|k: int| 0 <= k < ss.flatten().len() ==> p(#[trigger] ss.flatten()[k]),
    decreases ss.len(),
{
    if ss.len() > 0 {
        let rest = ss.drop_first();
        assert forall|i: int, j: int| 0 <= i < rest.len() && 0 <= j < rest[i].len() implies p(
            #[trigger] rest[i][j],
        ) by {
            assert(rest[i] == ss[i + 1]);
        }
        lemma_flatten_all(rest, p);
        let f = ss.flatten();
        assert(f == ss.first() + rest.flatten());
        assert forall|k: int| 0 <= k < f.len() implies p(#[trigger] f[k]) by {
            if k < ss[0].len() {
                assert(f[k] == ss[0][k]);
            } else {
                assert(f[k] == rest.flatten()[k - ss[0].len()]);
            }
        }
    }
}

proof fn lemma_expand_step_shape(es: Seq<ExpansionV>, t: TemplateV, first: bool, np: nat, len: nat)
    requires
        expansions_shaped(es, np, len),
    ensures
        expand_step(es, t, first).len() == es.len() * match t {
            TemplateV::IndexRange { start, end, inclusive } => range_count(
                start,
                range_last(end, inclusive),
            ),
            _ => 1nat,
        },
        expansions_shaped(
            expand_step(es, t, first),
            np * match t {
                TemplateV::KeyGroup(keys) => keys.len(),
                _ => 1nat,
            },
            len + 1,
        ),
{
    let r = expand_step(es, t, first);
    match t {
        TemplateV::IndexRange { start, end, inclusive } => {
            let last = range_last(end, inclusive);
            let c = range_count(start, last);
            let ss = es.map_values(|e: ExpansionV| range_axes(e, start, last));
            lemma_flatten_uniform(ss, c);
            let p = |x: ExpansionV|
                x.paths.len() == np && forall|j: int|
                    0 <= j < x.paths.len() ==> (#[trigger] x.paths[j]).len() == len + 1;
            assert forall|i: int, j: int| 0 <= i < ss.len() && 0 <= j < ss[i].len() implies p(
                #[trigger] ss[i][j],
            ) by {
                assert(es[i].paths.len() == np);
                assert forall|k: int| 0 <= k < ss[i][j].paths.len() implies (
                #[trigger] ss[i][j].paths[k]).len() == len + 1 by {
                    assert(es[i].paths[k].len() == len);
                }
            }
            lemma_flatten_all(ss, p);
            assert forall|i: int| 0 <= i < r.len() implies {
                &&& (#[trigger] r[i]).paths.len() == np * 1
                &&& forall|j: int| 0 <= j < r[i].paths.len() ==> (#[trigger] r[i].paths[j]).len()
                    == len + 1
            } by {
                assert(p(r[i]));
            }
        },
        TemplateV::KeyGroup(keys) => {
            assert forall|i: int| 0 <= i < r.len() implies {
                &&& (#[trigger] r[i]).paths.len() == np * keys.len()
                &&& forall|j: int| 0 <= j < r[i].paths.len() ==> (#[trigger] r[i].paths[j]).len()
                    == len + 1
            } by {
                let ps = es[i].paths;
                let ss = ps.map_values(
                    |q: Seq<SegV>| keys.map_values(|k: Seq<char>| q.push(SegV::Key(k))),
                );
                lemma_flatten_uniform(ss, keys.len());
                let p = |x: Seq<SegV>| x.len() == len + 1;
                assert forall|a: int, b: int| 0 <= a < ss.len() && 0 <= b < ss[a].len() implies p(
                    #[trigger] ss[a][b],
                ) by {
                    assert(ps[a].len() == len);
                }
                lemma_flatten_all(ss, p);
                assert forall|j: int| 0 <= j < r[i].paths.len() implies (
                #[trigger] r[i].paths[j]).len() == len + 1 by {
                    assert(p(r[i].paths[j]));
                }
            }
        },
        _ => {
            assert forall|i: int| 0 <= i < r.len() implies {
                &&& (#[trigger] r[i]).paths.len() == np * 1
                &&& forall|j: int| 0 <= j < r[i].paths.len() ==> (#[trigger] r[i].paths[j]).len()
                    == len + 1
            } by {
                assert forall|j: int| 0 <= j < r[i].paths.len() implies (
                #[trigger] r[i].paths[j]).len() == len + 1 by {
                    assert(es[i].paths[j].len() == len);
                }
            }
        },
    }
}

proof fn lemma_expand_upto_shape(ts: Seq<TemplateV>, n: int)
    requires
        0 <= n <= ts.len(),
    ensures
        expand_upto(ts, n).len() == axis_count(ts.take(n)),
        expansions_shaped(expand_upto(ts, n), path_count(ts.take(n)), n as nat),
    decreases n,
{
    if n == 0 {
        assert(ts.take(0) =~= seq![]);
        let e = expand_upto(ts, 0);
        assert(e[0].paths[0].len() == 0);
    } else {
        lemma_expand_upto_shape(ts, n - 1);
        assert(ts.take(n).drop_last() =~= ts.take(n - 1));
        assert(ts.take(n).last() == ts[n - 1]);
        lemma_expand_step_shape(
            expand_upto(ts, n - 1),
            ts[n - 1],
            n - 1 == 0,
            path_count(ts.take(n - 1)),
            (n - 1) as nat,
        );
    }
}

/// A template list expands to one axis for each combination of the indices
/// of its ranges, and each axis holds one path for each combination of the
/// keys of its key groups; every path has one segment per template.
pub proof fn law_expand_counts(ts: Seq<TemplateV>)
    ensures
        spec_expand_template(ts).len() == axis_count(ts),
        expansions_shaped(spec_expand_template(ts), path_count(ts), ts.len()),
{
    lemma_expand_upto_shape(ts, ts.len() as int);
    assert(ts.take(ts.len() as int) =~= ts);
}

/// No template is a key group.
pub open spec fn no_groups(ts: Seq<TemplateV>) -> bool {
    forall|i: int| 0 <= i < ts.len() ==> !(#[trigger] ts[i] is KeyGroup)
}

/// The expansion holds one path, of `len` segments, and its label is the
/// source-style text of that path.
pub open spec fn labelled_by_path(e: ExpansionV, len: nat) -> bool {
    &&& e.paths.len() == 1
    &&& e.paths[0].len() == len
    &&& e.label == path_text(e.paths[0])
}

proof fn lemma_label_step(es: Seq<ExpansionV>, t: TemplateV, n: nat, first: bool)
    requires
        !(t is KeyGroup),
        first == (n == 0),
        forall|i: int| 0 <= i < es.len() ==> labelled_by_path(#[trigger] es[i], n),
    ensures
        forall|i: int|
            0 <= i < expand_step(es, t, first).len() ==> labelled_by_path(
                #[trigger] expand_step(es, t, first)[i],
                n + 1,
            ),
{
    let r = expand_step(es, t, first);
    match t {
        TemplateV::IndexRange { start, end, inclusive } => {
            let last = range_last(end, inclusive);
            let ss = es.map_values(|e: ExpansionV| range_axes(e, start, last));
            let p = |x: ExpansionV| labelled_by_path(x, n + 1);
            assert forall|i: int, j: int| 0 <= i < ss.len() && 0 <= j < ss[i].len() implies p(
                #[trigger] ss[i][j],
            ) by {
                let e = es[i];
                assert(labelled_by_path(e, n));
                let x = ss[i][j];
                assert(x.paths[0].drop_last() =~= e.paths[0]);
            }
            lemma_flatten_all(ss, p);
            assert forall|i: int| 0 <= i < r.len() implies labelled_by_path(
                #[trigger] r[i],
                n + 1,
            ) by {
                assert(p(r[i]));
            }
        },
        _ => {
            assert forall|i: int| 0 <= i < r.len() implies labelled_by_path(
                #[trigger] r[i],
                n + 1,
            ) by {
                let e = es[i];
                assert(labelled_by_path(e, n));
                assert(r[i].paths[0].drop_last() =~= e.paths[0]);
            }
        },
    }
}

proof fn lemma_label_upto(ts: Seq<TemplateV>, n: int)
    requires
        0 <= n <= ts.len(),
        no_groups(ts),
    ensures
        forall|i: int|
            0 <= i < expand_upto(ts, n).len() ==> labelled_by_path(
                #[trigger] expand_upto(ts, n)[i],
                n as nat,
            ),
    decreases n,
{
    if n == 0 {
        let e = expand_upto(ts, 0);
        assert(labelled_by_path(e[0], 0));
    } else {
        lemma_label_upto(ts, n - 1);
        assert(!(ts[n - 1] is KeyGroup));
        lemma_label_step(expand_upto(ts, n - 1), ts[n - 1], (n - 1) as nat, n - 1 == 0);
    }
}

/// Without key groups, every axis holds a single path and its label is
/// that path rendered back as `segments_to_string` renders it.
pub proof fn law_label_is_path_text(ts: Seq<TemplateV>)
    requires
        no_groups(ts),
    ensures
        forall|i: int|
            0 <= i < spec_expand_template(ts).len() ==> {
                &&& (#[trigger] spec_expand_template(ts)[i]).paths.len() == 1
                &&& spec_expand_template(ts)[i].label == path_text(
                    spec_expand_template(ts)[i].paths[0],
                )
            },
{
    lemma_label_upto(ts, ts.len() as int);
    assert forall|i: int| 0 <= i < spec_expand_template(ts).len() implies {
        &&& (#[trigger] spec_expand_template(ts)[i]).paths.len() == 1
        &&& spec_expand_template(ts)[i].label == path_text(spec_expand_template(ts)[i].paths[0])
    } by {
        assert(labelled_by_path(spec_expand_template(ts)[i], ts.len()));
    }
}

// ---------------------------------------------------------------------------
// Rendering reads back
// ---------------------------------------------------------------------------

/// A segment whose text reads back as itself: a key that is an identifier,
/// or an index that fits in an `i64`.
pub open spec fn simple_seg(s: SegV) -> bool {
    match s {
        SegV::Key(k) => spec_is_ident(encode_utf8(k), 0, encode_utf8(k).len() as int),
        SegV::Index(i) => i <= i64::MAX && i <= usize::MAX,
        SegV::Filter { .. } => false,
    }
}

/// The template that reads as the segment.
pub open spec fn seg_template(s: SegV) -> TemplateV {
    match s {
        SegV::Key(k) => TemplateV::Key(k),
        SegV::Index(i) => TemplateV::Index(i),
        SegV::Filter { key, value } => TemplateV::Filter { key, value },
    }
}

proof fn lemma_encode_append(a: Seq<char>, b: Seq<char>)
    ensures
        encode_utf8(a + b) == encode_utf8(a) + encode_utf8(b),
    decreases a.len(),
{
    if a.len() == 0 {
        assert(a + b =~= b);
        assert(encode_utf8(a) =~= Seq::<u8>::empty());
        assert(encode_utf8(a) + encode_utf8(b) =~= encode_utf8(b));
    } else {
        lemma_encode_append(a.drop_first(), b);
        assert((a + b).drop_first() =~= a.drop_first() + b);
        assert((a + b)[0] == a[0]);
        assert(encode_utf8(a + b) =~= encode_utf8(a) + encode_utf8(b));
    }
}

proof fn lemma_encode_ascii(c: char)
    requires
        (c as u32) < 128,
    ensures
        encode_utf8(seq![c]) == seq![(c as u32) as u8],
{
    let v = c as u32;
    assert((v & 0x7F) as u8 == v as u8) by (bit_vector)
        requires
            v < 128,
    ;
    let cs = seq![c];
    assert(cs.drop_first() =~= Seq::<char>::empty());
    assert(encode_utf8(cs.drop_first()) =~= Seq::<u8>::empty());
    assert(cs[0] as u32 == v);
    assert(encode_scalar(v) =~= seq![leading_byte_width_1(v)]);
    assert(encode_utf8(cs) == encode_scalar(cs[0] as u32) + encode_utf8(cs.drop_first()));
    assert(encode_utf8(cs) =~= seq![(c as u32) as u8]);
}

proof fn lemma_nat_text_bytes(n: nat)
    ensures
        encode_utf8(nat_text(n)).len() >= 1,
        all_digits(encode_utf8(nat_text(n))),
        digits_value(encode_utf8(nat_text(n))) == n,
    decreases n,
{
    if n < 10 {
        let c = digit_char(n as int);
        assert(c as u32 == n + 48);
        lemma_encode_ascii(c);
        let d = encode_utf8(nat_text(n));
        assert(d =~= seq![(n + 48) as u8]);
        assert(d.drop_last() =~= Seq::<u8>::empty());
        assert(digits_value(d.drop_last()) == 0);
        assert(d.last() == n + 48);
        assert(digits_value(d) == n);
    } else {
        lemma_nat_text_bytes(n / 10);
        let c = digit_char((n % 10) as int);
        lemma_encode_ascii(c);
        assert(nat_text(n) =~= nat_text(n / 10) + seq![c]);
        lemma_encode_append(nat_text(n / 10), seq![c]);
        let d = encode_utf8(nat_text(n));
        let d0 = encode_utf8(nat_text(n / 10));
        assert(c as u32 == n % 10 + 48);
        assert(d =~= d0.push((n % 10 + 48) as u8));
        assert(d.drop_last() =~= d0);
        assert(d.last() == n % 10 + 48);
        assert(digits_value(d) == (n / 10) * 10 + n % 10);
        assert(n == (n / 10) * 10 + n % 10);
        assert forall|j: int| 0 <= j < d.len() implies #[trigger] spec_is_digit(d[j]) by {
            if j < d0.len() {
                assert(d[j] == d0[j]);
            }
        }
    }
}

proof fn lemma_close_at(b: Seq<u8>, from: int, c: int)
    requires
        0 <= from <= c < b.len(),
        b[c] == 93,
        forall|j: int| from <= j < c ==> spec_is_digit(#[trigger] b[j]),
    ensures
        close_bracket_from(b, from, from) == Some(c),
{
    assert forall|j: int| from <= j <= c implies quote_state(b, from, j) == (false, false) by {
        lemma_quote_digits(b, from, j);
    }
    lemma_close_down(b, from, c, c);
}

proof fn lemma_quote_digits(b: Seq<u8>, from: int, j: int)
    requires
        0 <= from <= j <= b.len(),
        forall|k: int| from <= k < j ==> spec_is_digit(#[trigger] b[k]),
    ensures
        quote_state(b, from, j) == (false, false),
    decreases j - from,
{
    if j > from {
        lemma_quote_digits(b, from, j - 1);
        assert(spec_is_digit(b[j - 1]));
    }
}

proof fn lemma_close_down(b: Seq<u8>, from: int, c: int, j: int)
    requires
        0 <= from <= j <= c < b.len(),
        b[c] == 93,
        forall|k: int| from <= k < c ==> spec_is_digit(#[trigger] b[k]),
        forall|k: int| from <= k <= c ==> quote_state(b, from, k) == (false, false),
    ensures
        close_bracket_from(b, from, from) == Some(c),
    decreases j - from,
{
    if j == c {
        assert(quote_state(b, from, c) == (false, false));
    } else {
        assert(spec_is_digit(b[j]));
    }
    assert(close_bracket_from(b, from, j) == Some(c)) by {
        lemma_close_from(b, from, c, j);
    }
    if j > from {
        lemma_close_down(b, from, c, j - 1);
    }
}

proof fn lemma_close_from(b: Seq<u8>, from: int, c: int, j: int)
    requires
        0 <= from <= j <= c < b.len(),
        b[c] == 93,
        forall|k: int| from <= k < c ==> spec_is_digit(#[trigger] b[k]),
        forall|k: int| from <= k <= c ==> quote_state(b, from, k) == (false, false),
    ensures
        close_bracket_from(b, from, j) == Some(c),
    decreases c - j,
{
    assert(quote_state(b, from, j) == (false, false));
    if j < c {
        assert(spec_is_digit(b[j]));
        lemma_close_from(b, from, c, j + 1);
    }
}

proof fn lemma_digits_no_dotdot(d: Seq<u8>, i: int)
    requires
        all_digits(d),
    ensures
        dotdot_from(d, i) is None,
    decreases d.len() - i,
{
    if 0 <= i && i + 1 < d.len() {
        assert(spec_is_digit(d[i]));
        lemma_digits_no_dotdot(d, i + 1);
    }
}

proof fn lemma_digits_no_eq(d: Seq<u8>, i: int)
    requires
        all_digits(d),
    ensures
        eq_from(d, i) is None,
    decreases d.len() - i,
{
    if 0 <= i < d.len() {
        assert(spec_is_digit(d[i]));
        lemma_digits_no_eq(d, i + 1);
    }
}

proof fn lemma_key_at(b: Seq<u8>, p: int, k: Seq<char>)
    requires
        0 <= p,
        p + encode_utf8(k).len() <= b.len(),
        b.subrange(p, p + encode_utf8(k).len()) == encode_utf8(k),
        spec_is_ident(encode_utf8(k), 0, encode_utf8(k).len() as int),
        p + encode_utf8(k).len() == b.len() || !spec_ident_continue(b[p + encode_utf8(k).len()]),
    ensures
        spec_key_segment(b, p) == Ok::<(TemplateV, int), PathErrorV>(
            (TemplateV::Key(k), p + encode_utf8(k).len()),
        ),
{
    let e = encode_utf8(k);
    let n = e.len() as int;
    assert(b[p] == e[0]);
    assert forall|j: int| p + 1 <= j < p + n implies spec_ident_continue(#[trigger] b[j]) by {
        assert(b[j] == e[j - p]);
    }
    lemma_ident_end(b, p + 1, p + n);
    encode_utf8_decode_utf8(k);
}

/// The bytes of `[i]`: the brackets around the digits of `i`.
proof fn lemma_index_bytes(i: nat)
    ensures
        encode_utf8(index_label(i)) == seq![91u8] + encode_utf8(nat_text(i)) + seq![93u8],
        encode_utf8(nat_text(i)).len() >= 1,
        all_digits(encode_utf8(nat_text(i))),
        digits_value(encode_utf8(nat_text(i))) == i,
{
    lemma_nat_text_bytes(i);
    lemma_encode_append(seq!['['] + nat_text(i), seq![']']);
    lemma_encode_append(seq!['['], nat_text(i));
    lemma_encode_ascii('[');
    lemma_encode_ascii(']');
}

/// A body of digits reads as the index they spell.
proof fn lemma_digits_body(d: Seq<u8>, i: nat, off: int)
    requires
        d.len() >= 1,
        all_digits(d),
        digits_value(d) == i,
        i <= i64::MAX,
        i <= usize::MAX,
    ensures
        trim_start_pos(d, 0, d.len() as int) == 0,
        trim_end_pos(d, 0, d.len() as int) == d.len(),
        spec_bracket_body(d, off) == Ok::<TemplateV, PathErrorV>(TemplateV::Index(i)),
{
    let n = d.len() as int;
    lemma_digits_no_dotdot(d, 0);
    lemma_digits_no_eq(d, 0);
    assert(spec_is_digit(d[0]));
    assert(spec_is_digit(d[n - 1]));
    if n >= 2 {
        assert(spec_is_digit(d[n - 2]));
    }
    if n >= 3 {
        assert(spec_is_digit(d[n - 3]));
    }
    assert(trim_start_pos(d, 0, n) == 0);
    assert(trim_end_pos(d, 0, n) == n);
    assert(d.subrange(0, n) =~= d);
    assert(spec_parse_i64(d) == Some(i as i64));
}

/// Where the bytes of `[i]` stand at `p`: digits, then `]`.
proof fn lemma_index_parts(b: Seq<u8>, p: int, i: nat)
    requires
        0 <= p,
        p + encode_utf8(index_label(i)).len() <= b.len(),
        b.subrange(p, p + encode_utf8(index_label(i)).len()) == encode_utf8(index_label(i)),
    ensures
        ({
            let d = encode_utf8(nat_text(i));
            &&& encode_utf8(index_label(i)).len() == d.len() + 2
            &&& forall|j: int| p + 1 <= j < p + 1 + d.len() ==> spec_is_digit(#[trigger] b[j])
            &&& b[p + 1 + d.len()] == 93
            &&& b.subrange(p + 1, p + 1 + d.len()) == d
        }),
{
    let d = encode_utf8(nat_text(i));
    lemma_index_bytes(i);
    let s = encode_utf8(index_label(i));
    let w = b.subrange(p, p + s.len());
    let n = d.len() as int;
    assert forall|j: int| p + 1 <= j < p + 1 + n implies spec_is_digit(#[trigger] b[j]) by {
        assert(b[j] == w[j - p]);
        assert(s[j - p] == d[j - p - 1]);
    }
    assert(b[p + 1 + n] == w[1 + n]);
    assert(b.subrange(p + 1, p + 1 + n) =~= d) by {
        assert forall|j: int| 0 <= j < n implies b.subrange(p + 1, p + 1 + n)[j] == d[j] by {
            assert(b.subrange(p + 1, p + 1 + n)[j] == w[j + 1]);
        }
    }
}

#[verifier::spinoff_prover]
proof fn lemma_index_at(b: Seq<u8>, p: int, i: nat)
    requires
        i <= i64::MAX,
        i <= usize::MAX,
        0 <= p,
        p + encode_utf8(index_label(i)).len() <= b.len(),
        b.subrange(p, p + encode_utf8(index_label(i)).len()) == encode_utf8(index_label(i)),
    ensures
        spec_bracket(b, p) == Ok::<(TemplateV, int), PathErrorV>(
            (TemplateV::Index(i), p + encode_utf8(index_label(i)).len()),
        ),
{
    let d = encode_utf8(nat_text(i));
    lemma_index_bytes(i);
    lemma_index_parts(b, p, i);
    let n = d.len() as int;
    lemma_close_at(b, p + 1, p + 1 + n);
    lemma_digits_body(d, i, p + 1);
}

/// The text of the first `m` segments, as bytes.
pub open spec fn prefix_bytes(segs: Seq<SegV>, m: int) -> Seq<u8> {
    encode_utf8(path_text(segs.take(m)))
}

proof fn lemma_prefix_step(segs: Seq<SegV>, m: int)
    requires
        0 <= m < segs.len(),
    ensures
        prefix_bytes(segs, m + 1) == prefix_bytes(segs, m) + encode_utf8(seg_text(segs[m], m == 0)),
{
    let t = segs.take(m + 1);
    assert(t.drop_last() =~= segs.take(m));
    assert(t.last() == segs[m]);
    lemma_encode_append(path_text(segs.take(m)), seg_text(segs[m], m == 0));
}

proof fn lemma_prefix_of(segs: Seq<SegV>, m: int, n: int)
    requires
        0 <= m <= n <= segs.len(),
    ensures
        prefix_bytes(segs, m).len() <= prefix_bytes(segs, n).len(),
        prefix_bytes(segs, n).subrange(0, prefix_bytes(segs, m).len() as int) == prefix_bytes(
            segs,
            m,
        ),
    decreases n - m,
{
    if m < n {
        lemma_prefix_of(segs, m, n - 1);
        lemma_prefix_step(segs, n - 1);
        let a = prefix_bytes(segs, n - 1);
        let pm = prefix_bytes(segs, m);
        assert(prefix_bytes(segs, n).subrange(0, pm.len() as int) =~= a.subrange(
            0,
            pm.len() as int,
        ));
    } else {
        assert(prefix_bytes(segs, n).subrange(0, prefix_bytes(segs, n).len() as int)
            =~= prefix_bytes(segs, n));
    }
}

/// The bytes of a later segment start with `.` or `[`.
proof fn lemma_later_first_byte(s: SegV)
    requires
        simple_seg(s),
    ensures
        encode_utf8(seg_text(s, false)).len() >= 2,
        encode_utf8(seg_text(s, false))[0] == 46 || encode_utf8(seg_text(s, false))[0] == 91,
{
    match s {
        SegV::Key(k) => {
            lemma_encode_append(seq!['.'], k);
            lemma_encode_ascii('.');
        },
        SegV::Index(i) => {
            lemma_nat_text_bytes(i);
            lemma_encode_append(seq!['['] + nat_text(i), seq![']']);
            lemma_encode_append(seq!['['], nat_text(i));
            lemma_encode_ascii('[');
        },
        SegV::Filter { .. } => {},
    }
}

/// Reading a segment from `p`, where its bytes stand, gives its template
/// and the position after it.
proof fn lemma_seg_at(b: Seq<u8>, p: int, s: SegV, first: bool)
    requires
        simple_seg(s),
        0 <= p,
        p + encode_utf8(seg_text(s, first)).len() <= b.len(),
        b.subrange(p, p + encode_utf8(seg_text(s, first)).len()) == encode_utf8(seg_text(s, first)),
        p + encode_utf8(seg_text(s, first)).len() == b.len() || b[p + encode_utf8(
            seg_text(s, first),
        ).len()] == 46 || b[p + encode_utf8(seg_text(s, first)).len()] == 91,
    ensures
        first ==> spec_head(b) == Ok::<(TemplateV, int), PathErrorV>(
            (seg_template(s), p + encode_utf8(seg_text(s, first)).len()),
        ) || p != 0,
        !first ==> spec_step(b, p) == Ok::<(TemplateV, int), PathErrorV>(
            (seg_template(s), p + encode_utf8(seg_text(s, first)).len()),
        ),
{
    let sb = encode_utf8(seg_text(s, first));
    match s {
        SegV::Key(k) => {
            let e = encode_utf8(k);
            if first {
                assert(b[p] == e[0]);
                lemma_key_at(b, p, k);
            } else {
                lemma_encode_append(seq!['.'], k);
                lemma_encode_ascii('.');
                assert(sb =~= seq![46u8] + e);
                assert(b[p] == b.subrange(p, p + sb.len())[0]);
                assert(b[p + 1] == b.subrange(p, p + sb.len())[1]);
                assert(sb[1] == e[0]);
                assert(b.subrange(p + 1, p + 1 + e.len()) =~= e) by {
                    assert forall|j: int| 0 <= j < e.len() implies b.subrange(
                        p + 1,
                        p + 1 + e.len(),
                    )[j] == e[j] by {
                        assert(b[p + 1 + j] == b.subrange(p, p + sb.len())[1 + j]);
                    }
                }
                lemma_key_at(b, p + 1, k);
            }
        },
        SegV::Index(i) => {
            lemma_index_bytes(i);
            assert(b[p] == b.subrange(p, p + sb.len())[0]);
            lemma_index_at(b, p, i);
        },
        SegV::Filter { .. } => {},
    }
}

/// Segment `m` stands in the rendered path between the texts of the first
/// `m` and `m + 1` segments, followed by the end or by `.` or `[`.
#[verifier::spinoff_prover]
#[verifier::rlimit(80)]
proof fn lemma_seg_in_place(segs: Seq<SegV>, m: int)
    requires
        0 <= m < segs.len(),
        forall|i: int| 0 <= i < segs.len() ==> simple_seg(#[trigger] segs[i]),
    ensures
        ({
            let b = prefix_bytes(segs, segs.len() as int);
            let p = prefix_bytes(segs, m).len() as int;
            let sb = encode_utf8(seg_text(segs[m], m == 0));
            &&& p + sb.len() == prefix_bytes(segs, m + 1).len()
            &&& p + sb.len() <= b.len()
            &&& b.subrange(p, p + sb.len()) == sb
            &&& p + sb.len() == b.len() || b[p + sb.len()] == 46 || b[p + sb.len()] == 91
        }),
{
    let n = segs.len() as int;
    let b = prefix_bytes(segs, n);
    let p = prefix_bytes(segs, m).len() as int;
    let sb = encode_utf8(seg_text(segs[m], m == 0));
    lemma_prefix_step(segs, m);
    lemma_prefix_of(segs, m + 1, n);
    let q = prefix_bytes(segs, m + 1).len() as int;
    assert(b.subrange(p, q) =~= sb) by {
        assert forall|j: int| 0 <= j < sb.len() implies b.subrange(p, q)[j] == sb[j] by {
            assert(b.subrange(p, q)[j] == b.subrange(0, q)[p + j]);
            assert(prefix_bytes(segs, m + 1)[p + j] == sb[j]);
        }
    }
    if m + 1 < n {
        lemma_prefix_step(segs, m + 1);
        lemma_prefix_of(segs, m + 2, n);
        lemma_later_first_byte(segs[m + 1]);
        let sb2 = encode_utf8(seg_text(segs[m + 1], false));
        assert(b[q] == b.subrange(0, prefix_bytes(segs, m + 2).len() as int)[q]);
        assert(prefix_bytes(segs, m + 2)[q] == sb2[0]);
    } else {
        assert(segs.take(n) =~= segs);
    }
}

#[verifier::spinoff_prover]
#[verifier::rlimit(80)]
proof fn lemma_rest_simple(segs: Seq<SegV>, m: int)
    requires
        1 <= m <= segs.len(),
        forall|i: int| 0 <= i < segs.len() ==> simple_seg(#[trigger] segs[i]),
    ensures
        spec_rest(
            prefix_bytes(segs, segs.len() as int),
            prefix_bytes(segs, m).len() as int,
            segs.take(m).map_values(|s: SegV| seg_template(s)),
        ) == Ok::<Seq<TemplateV>, PathErrorV>(segs.map_values(|s: SegV| seg_template(s))),
    decreases segs.len() - m,
{
    let n = segs.len() as int;
    let b = prefix_bytes(segs, n);
    let f = |s: SegV| seg_template(s);
    lemma_prefix_of(segs, m, n);
    if m == n {
        assert(segs.take(n) =~= segs);
    } else {
        let p = prefix_bytes(segs, m).len() as int;
        let s = segs[m];
        lemma_seg_in_place(segs, m);
        lemma_seg_at(b, p, s, false);
        lemma_later_first_byte(s);
        assert(segs.take(m + 1).map_values(f) =~= segs.take(m).map_values(f).push(f(s)));
        lemma_rest_simple(segs, m + 1);
    }
}

/// Keys that are identifiers and indices that fit in an `i64` render, by
/// `segments_to_string`, to a path that `parse_path` reads back as the same
/// steps.
pub proof fn law_simple_path_roundtrip(segs: Seq<SegV>)
    requires
        segs.len() > 0,
        forall|i: int| 0 <= i < segs.len() ==> simple_seg(#[trigger] segs[i]),
    ensures
        spec_parse_path(encode_utf8(path_text(segs))) == Ok::<Seq<TemplateV>, PathErrorV>(
            segs.map_values(|s: SegV| seg_template(s)),
        ),
{
    reveal(spec_parse_path);
    let n = segs.len() as int;
    let b = prefix_bytes(segs, n);
    assert(segs.take(n) =~= segs);
    let f = |s: SegV| seg_template(s);
    let s0 = segs[0];
    let sb = encode_utf8(seg_text(s0, true));
    assert(segs.take(0) =~= Seq::<SegV>::empty());
    assert(prefix_bytes(segs, 0) =~= Seq::<u8>::empty());
    lemma_seg_in_place(segs, 0);
    match s0 {
        SegV::Key(k) => {
            assert(sb == encode_utf8(k));
        },
        SegV::Index(i) => {
            lemma_index_bytes(i);
        },
        SegV::Filter { .. } => {},
    }
    assert(b[0] == b.subrange(0, sb.len() as int)[0]);
    lemma_seg_at(b, 0, s0, true);
    assert(segs.take(1).map_values(f) =~= seq![f(s0)]);
    lemma_rest_simple(segs, 1);
}

/// Expanding the templates that read as simple steps gives one axis with
/// one path: the steps so far, labelled by their text.
proof fn lemma_expand_simple(segs: Seq<SegV>, n: int)
    requires
        0 <= n <= segs.len(),
        forall|i: int| 0 <= i < segs.len() ==> simple_seg(#[trigger] segs[i]),
    ensures
        expand_upto(segs.map_values(|s: SegV| seg_template(s)), n) == seq![
            ExpansionV { paths: seq![segs.take(n)], label: path_text(segs.take(n)) },
        ],
    decreases n,
{
    let ts = segs.map_values(|s: SegV| seg_template(s));
    if n == 0 {
        assert(segs.take(0) =~= Seq::<SegV>::empty());
        assert(expand_upto(ts, 0) =~= seq![
            ExpansionV { paths: seq![segs.take(0)], label: path_text(segs.take(0)) },
        ]);
    } else {
        lemma_expand_simple(segs, n - 1);
        let es = expand_upto(ts, n - 1);
        let s = segs[n - 1];
        assert(simple_seg(s));
        assert(ts[n - 1] == seg_template(s));
        let t = segs.take(n);
        assert(t.drop_last() =~= segs.take(n - 1));
        assert(t.last() == s);
        assert(t =~= segs.take(n - 1).push(s));
        let r = expand_step(es, ts[n - 1], n - 1 == 0);
        let want = seq![ExpansionV { paths: seq![t], label: path_text(t) }];
        assert(r.len() == 1);
        assert(r[0].paths =~= seq![t]);
        assert(r[0].label == path_text(t));
        assert(r =~= want);
    }
}

/// A path written as `segments_to_string` writes one, of keys that are
/// identifiers and indices that fit in an `i64`, reads back as itself:
/// `parse_path` reads it, and `expand_template` makes of it a single axis
/// holding a single path, the same steps, whose text and label are the text
/// read.
pub proof fn law_parse_then_render(segs: Seq<SegV>)
    requires
        segs.len() > 0,
        forall|i: int| 0 <= i < segs.len() ==> simple_seg(#[trigger] segs[i]),
    ensures
        spec_parse_path(encode_utf8(path_text(segs))) matches Ok(ts) && spec_expand_template(ts)
            == seq![ExpansionV { paths: seq![segs], label: path_text(segs) }],
{
    law_simple_path_roundtrip(segs);
    let ts = segs.map_values(|s: SegV| seg_template(s));
    lemma_expand_simple(segs, segs.len() as int);
    assert(segs.take(segs.len() as int) =~= segs);
}

// ---------------------------------------------------------------------------
// What parsing gives
// ---------------------------------------------------------------------------

/// `k` is an identifier: its UTF-8 bytes are `[A-Za-z_][A-Za-z0-9_-]*`.
pub open spec fn is_ident_text(k: Seq<char>) -> bool {
    spec_is_ident(encode_utf8(k), 0, encode_utf8(k).len() as int)
}

/// What holds of every template that `parse_path` reads: keys, filter keys
/// and the keys of a group are identifiers, a group has a key, and a
/// range's bounds are non-negative.
pub open spec fn template_ok(t: TemplateV) -> bool {
    match t {
        TemplateV::Key(k) => is_ident_text(k),
        TemplateV::Index(_) => true,
        TemplateV::IndexRange { start, end, .. } => 0 <= start && 0 <= end,
        TemplateV::Filter { key, .. } => is_ident_text(key),
        TemplateV::KeyGroup(keys) => keys.len() > 0 && forall|i: int|
            0 <= i < keys.len() ==> is_ident_text(#[trigger] keys[i]),
    }
}

/// The text of identifier bytes is an identifier, with those bytes.
proof fn lemma_ident_text(b: Seq<u8>, from: int, to: int)
    requires
        0 <= from <= to <= b.len(),
        spec_is_ident(b, from, to),
    ensures
        encode_utf8(text_of(b, from, to)) == b.subrange(from, to),
        is_ident_text(text_of(b, from, to)),
{
    let sub = b.subrange(from, to);
    assert forall|i: int| 0 <= i < sub.len() implies #[trigger] is_leading_byte_width_1(sub[i]) by {
        assert(sub[i] == b[from + i]);
        if i > 0 {
            assert(spec_ident_continue(b[from + i]));
        }
    }
    assert(sub.subrange(0, 0) =~= Seq::<u8>::empty());
    partial_valid_utf8_extend_ascii_block(sub, 0, sub.len() as int);
    assert(sub.subrange(0, sub.len() as int) =~= sub);
    decode_utf8_encode_utf8(sub);
    lemma_ident_shift(b, from, to);
}

proof fn lemma_ident_end_continue(b: Seq<u8>, i: int)
    requires
        0 <= i <= b.len(),
    ensures
        forall|k: int| i <= k < ident_end(b, i) ==> spec_ident_continue(#[trigger] b[k]),
    decreases b.len() - i,
{
    if i < b.len() && spec_ident_continue(b[i]) {
        lemma_ident_end_continue(b, i + 1);
    }
}

proof fn lemma_eq_from_bounds(b: Seq<u8>, i: int)
    ensures
        eq_from(b, i) matches Some(e) ==> i <= e < b.len(),
    decreases b.len() - i,
{
    if 0 <= i < b.len() {
        lemma_eq_from_bounds(b, i + 1);
    }
}

proof fn lemma_key_segment_ok(b: Seq<u8>, p: int)
    ensures
        spec_key_segment(b, p) matches Ok((t, _)) ==> template_ok(t) && !(t is KeyGroup),
{
    if 0 <= p < b.len() && spec_ident_start(b[p]) {
        let e = ident_end(b, p + 1);
        lemma_ident_end_bounds(b, p + 1);
        lemma_ident_end_continue(b, p + 1);
        assert(spec_is_ident(b, p, e));
        lemma_ident_text(b, p, e);
    }
}

proof fn lemma_bracket_ok(b: Seq<u8>, p: int)
    ensures
        spec_bracket(b, p) matches Ok((t, _)) ==> template_ok(t) && !(t is KeyGroup),
{
    if let Some(c) = close_bracket_from(b, p + 1, p + 1) {
        let bb = b.subrange(p + 1, c);
        if dotdot_from(bb, 0) is None {
            if let Some(eq) = eq_from(bb, 0) {
                lemma_eq_from_bounds(bb, 0);
                let ks = trim_start_pos(bb, 0, eq);
                lemma_trim_start_bounds(bb, 0, eq);
                let ke = trim_end_pos(bb, ks, eq);
                lemma_trim_end_bounds(bb, ks, eq);
                if spec_is_ident(bb, ks, ke) {
                    lemma_ident_text(bb, ks, ke);
                }
            }
        }
    }
}

proof fn lemma_group_upto_ok(body: Seq<u8>, parts: Seq<(int, int)>, base: int, k: int)
    requires
        0 <= k <= parts.len(),
        forall|j: int| 0 <= j < parts.len() ==> 0 <= (#[trigger] parts[j]).0 <= parts[j].1 <= body.len(),
    ensures
        group_upto(body, parts, base, k) matches Ok(keys) ==> keys.len() == k && forall|i: int|
            0 <= i < keys.len() ==> is_ident_text(#[trigger] keys[i]),
    decreases k,
{
    if k > 0 {
        lemma_group_upto_ok(body, parts, base, k - 1);
        let s = parts[k - 1].0;
        let e = parts[k - 1].1;
        lemma_trim_start_bounds(body, s, e);
        let ts = trim_start_pos(body, s, e);
        lemma_trim_end_bounds(body, ts, e);
        let te = trim_end_pos(body, ts, e);
        if spec_is_ident(body, ts, te) {
            lemma_ident_text(body, ts, te);
        }
    }
}

proof fn lemma_key_group_ok(b: Seq<u8>, p: int)
    ensures
        spec_key_group(b, p) matches Ok((t, _)) ==> template_ok(t),
{
    if let Some(c) = close_brace_from(b, p + 1) {
        let body = b.subrange(p + 1, c);
        let parts = comma_parts_from(body, 0, 0);
        law_split_commas(body);
        lemma_group_upto_ok(body, parts, p + 1, parts.len() as int);
    }
}

proof fn lemma_rest_ok(b: Seq<u8>, p: int, acc: Seq<TemplateV>)
    requires
        forall|i: int| 0 <= i < acc.len() ==> template_ok(#[trigger] acc[i]),
    ensures
        spec_rest(b, p, acc) matches Ok(ts) ==> {
            &&& ts.len() >= acc.len()
            &&& acc.len() > 0 ==> ts[0] == acc[0]
            &&& forall|i: int| 0 <= i < ts.len() ==> template_ok(#[trigger] ts[i])
        },
    decreases b.len() - p,
{
    if 0 <= p < b.len() {
        lemma_step_advances(b, p);
        if b[p] == 46 {
            if p + 1 < b.len() && b[p + 1] == 123 {
                lemma_key_group_ok(b, p + 1);
            } else {
                lemma_key_segment_ok(b, p + 1);
            }
        } else if b[p] == 91 {
            lemma_bracket_ok(b, p);
        }
        if let Ok((t, q)) = spec_step(b, p) {
            let acc2 = acc.push(t);
            assert forall|i: int| 0 <= i < acc2.len() implies template_ok(#[trigger] acc2[i]) by {
                if i < acc.len() {
                    assert(acc2[i] == acc[i]);
                }
            }
            lemma_rest_ok(b, q, acc2);
        }
    }
}

/// Every result of `parse_path` is well formed: it holds at least one
/// template, the first is no key group, keys, filter keys and group keys
/// are identifiers, every group has a key, and range bounds are
/// non-negative.
pub proof fn law_parse_path_ok(b: Seq<u8>)
    ensures
        spec_parse_path(b) matches Ok(ts) ==> {
            &&& ts.len() >= 1
            &&& !(ts[0] is KeyGroup)
            &&& forall|i: int| 0 <= i < ts.len() ==> template_ok(#[trigger] ts[i])
        },
{
    reveal(spec_parse_path);
    if b.len() > 0 {
        if b[0] == 91 {
            lemma_bracket_ok(b, 0);
        } else {
            lemma_key_segment_ok(b, 0);
        }
        if let Ok((t, q)) = spec_head(b) {
            lemma_rest_ok(b, q, seq![t]);
        }
    }
}

// ---------------------------------------------------------------------------
// Text that reads back as itself
// ---------------------------------------------------------------------------

/// A key or an index: a template that stands for one step.
pub open spec fn is_step_template(t: TemplateV) -> bool {
    t is Key || t is Index
}

/// The step a key or index template stands for.
pub open spec fn template_seg(t: TemplateV) -> SegV {
    match t {
        TemplateV::Key(k) => SegV::Key(k),
        TemplateV::Index(i) => SegV::Index(i),
        _ => SegV::Index(0),
    }
}

/// The steps that key and index templates stand for.
pub open spec fn template_segs(ts: Seq<TemplateV>) -> Seq<SegV> {
    ts.map_values(|t: TemplateV| template_seg(t))
}

/// Path text written as `segments_to_string` writes it: ASCII without
/// whitespace, and every `[` followed by an index in plain decimal: no
/// sign, and no leading zero.
#[verifier::opaque]
pub open spec fn canonical_path_bytes(b: Seq<u8>) -> bool {
    &&& forall|j: int|
        0 <= j < b.len() ==> (#[trigger] b[j]) < 128 && !(9 <= b[j] <= 13) && b[j] != 32
    &&& forall|j: int|
        0 <= j < b.len() && #[trigger] b[j] == 91 ==> j + 1 < b.len() && spec_is_digit(b[j + 1]) && (
        b[j + 1] == 48 ==> j + 2 < b.len() && b[j + 2] == 93)
}

proof fn lemma_canonical_at(b: Seq<u8>, j: int)
    requires
        canonical_path_bytes(b),
        0 <= j < b.len(),
    ensures
        b[j] < 128 && !(9 <= b[j] <= 13) && b[j] != 32,
        b[j] == 91 ==> j + 1 < b.len() && spec_is_digit(b[j + 1]) && (b[j + 1] == 48 ==> j + 2
            < b.len() && b[j + 2] == 93),
{
    reveal(canonical_path_bytes);
}

/// Bytes without whitespace trim to themselves.
proof fn lemma_no_ws_trim(d: Seq<u8>)
    requires
        d.len() > 0,
        forall|j: int| 0 <= j < d.len() ==> (#[trigger] d[j]) < 128 && !(9 <= d[j] <= 13) && d[j] != 32,
    ensures
        trim_start_pos(d, 0, d.len() as int) == 0,
        trim_end_pos(d, 0, d.len() as int) == d.len(),
{
    let n = d.len() as int;
    assert(d[0] < 128 && d[n - 1] < 128);
    assert(ws_len_at(d, 0) == 0);
    assert(ws_len_at(d, n - 1) == 0);
    if n >= 2 {
        assert(d[n - 2] < 128);
        assert(ws_len_at(d, n - 2) == 0);
    }
    if n >= 3 {
        assert(d[n - 3] < 128);
        assert(ws_len_at(d, n - 3) == 0);
    }
}

/// Digits that do not start with a zero spell a positive number.
proof fn lemma_digits_positive(d: Seq<u8>)
    requires
        d.len() >= 1,
        all_digits(d),
        d[0] != 48,
    ensures
        digits_value(d) >= 1,
    decreases d.len(),
{
    let dl = d.drop_last();
    assert(spec_is_digit(d[0]));
    assert(spec_is_digit(d[d.len() - 1]));
    if d.len() == 1 {
        assert(dl.len() == 0);
        assert(digits_value(dl) == 0);
        assert(d.last() == d[0]);
    } else {
        assert(dl[0] == d[0]);
        assert(all_digits(dl)) by {
            assert forall|i: int| 0 <= i < dl.len() implies #[trigger] spec_is_digit(dl[i]) by {
                assert(dl[i] == d[i]);
            }
        }
        lemma_digits_positive(dl);
        assert(spec_is_digit(d[d.len() - 1]));
    }
}

/// Digits in plain decimal are the text of the number they spell.
#[verifier::spinoff_prover]
proof fn lemma_canonical_digits(d: Seq<u8>)
    requires
        d.len() >= 1,
        all_digits(d),
        d[0] == 48 ==> d.len() == 1,
    ensures
        digits_value(d) >= 0,
        encode_utf8(nat_text(digits_value(d) as nat)) == d,
    decreases d.len(),
{
    let dl = d.drop_last();
    let r = d.last() - 48;
    assert(spec_is_digit(d[d.len() - 1]));
    assert(0 <= r < 10);
    let c = digit_char(r);
    assert(c as u32 == r + 48);
    lemma_encode_ascii(c);
    assert(encode_utf8(seq![c]) == seq![(r + 48) as u8]);
    if d.len() == 1 {
        assert(dl.len() == 0);
        assert(digits_value(dl) == 0);
        assert(digits_value(d) == r);
        assert(nat_text(r as nat) == seq![c]);
        assert(d =~= seq![(r + 48) as u8]);
    } else {
        assert(dl[0] == d[0]);
        assert(all_digits(dl)) by {
            assert forall|i: int| 0 <= i < dl.len() implies #[trigger] spec_is_digit(dl[i]) by {
                assert(dl[i] == d[i]);
            }
        }
        lemma_canonical_digits(dl);
        lemma_digits_positive(dl);
        let vl = digits_value(dl);
        let v = vl * 10 + r;
        assert(digits_value(d) == v);
        assert(v / 10 == vl && v % 10 == r) by (nonlinear_arith)
            requires
                v == vl * 10 + r,
                0 <= r < 10,
                vl >= 1,
        ;
        let t = nat_text(vl as nat);
        assert(encode_utf8(t) == dl);
        assert(nat_text(v as nat) == t.push(c));
        assert(t.push(c) =~= t + seq![c]);
        lemma_encode_append(t, seq![c]);
        assert(encode_utf8(nat_text(v as nat)) == dl + seq![(r + 48) as u8]);
        assert(d =~= dl + seq![(r + 48) as u8]);
    }
}

/// A key at `p` reads as its own bytes.
proof fn lemma_key_text(b: Seq<u8>, p: int)
    requires
        0 <= p,
    ensures
        spec_key_segment(b, p) matches Ok((t, q)) ==> {
            &&& p < q <= b.len()
            &&& t is Key
            &&& b.subrange(p, q) == encode_utf8(t->Key_0)
            &&& simple_seg(template_seg(t))
        },
{
    if p < b.len() && spec_ident_start(b[p]) {
        let e = ident_end(b, p + 1);
        lemma_ident_end_bounds(b, p + 1);
        lemma_ident_end_continue(b, p + 1);
        assert(spec_is_ident(b, p, e));
        lemma_ident_text(b, p, e);
    }
}

/// A bracket body of digits in plain decimal reads as the index it spells.
proof fn lemma_index_body_text(body: Seq<u8>, off: int)
    requires
        i64::MAX <= usize::MAX,
        body.len() > 0,
        forall|j: int|
            0 <= j < body.len() ==> (#[trigger] body[j]) < 128 && !(9 <= body[j] <= 13) && body[j]
                != 32,
        spec_is_digit(body[0]),
        body[0] == 48 ==> body.len() == 1 || !spec_is_digit(body[1]),
    ensures
        spec_bracket_body(body, off) matches Ok(t) ==> t is Index ==> {
            &&& encode_utf8(nat_text(t->Index_0)) == body
            &&& t->Index_0 <= i64::MAX
        },
{
    let n = body.len() as int;
    if dotdot_from(body, 0) is None && eq_from(body, 0) is None {
        lemma_no_ws_trim(body);
        assert(body.subrange(0, n) =~= body);
        if let Some(v) = spec_parse_i64(body) {
            if v >= 0 {
                assert(all_digits(body));
                lemma_canonical_digits(body);
                assert(((v as usize) as nat) == v);
            }
        }
    }
}

/// An index bracket at `p` in plain decimal reads as the bytes of `[i]`.
#[verifier::spinoff_prover]
#[verifier::rlimit(60)]
proof fn lemma_bracket_text(b: Seq<u8>, p: int)
    requires
        i64::MAX <= usize::MAX,
        canonical_path_bytes(b),
        0 <= p < b.len(),
        b[p] == 91,
    ensures
        spec_bracket(b, p) matches Ok((t, q)) ==> t is Index ==> {
            &&& p < q <= b.len()
            &&& b.subrange(p, q) == encode_utf8(index_label(t->Index_0))
            &&& simple_seg(template_seg(t))
        },
{
    lemma_canonical_at(b, p);
    lemma_close_bracket_bounds(b, p + 1, p + 1);
    if let Some(c) = close_bracket_from(b, p + 1, p + 1) {
        let body = b.subrange(p + 1, c);
        let n = body.len() as int;
        if n > 0 {
            assert forall|j: int| 0 <= j < n implies (#[trigger] body[j]) < 128 && !(9 <= body[j]
                <= 13) && body[j] != 32 by {
                assert(body[j] == b[p + 1 + j]);
                lemma_canonical_at(b, p + 1 + j);
            }
            assert(body[0] == b[p + 1]);
            if n >= 2 {
                assert(body[1] == b[p + 2]);
            }
            lemma_index_body_text(body, p + 1);
            if let Ok(t) = spec_bracket_body(body, p + 1) {
                if let TemplateV::Index(i) = t {
                    lemma_index_bytes(i);
                    assert(b.subrange(p, c + 1) =~= seq![91u8] + body + seq![93u8]);
                }
            }
        } else {
            assert(trim_start_pos(body, 0, 0) == 0);
            assert(trim_end_pos(body, 0, 0) == 0);
        }
    }
}

/// A later step in plain form reads as the bytes of its text.
proof fn lemma_step_text(b: Seq<u8>, p: int)
    requires
        i64::MAX <= usize::MAX,
        canonical_path_bytes(b),
        0 <= p < b.len(),
    ensures
        spec_step(b, p) matches Ok((t, q)) ==> is_step_template(t) ==> {
            &&& p < q <= b.len()
            &&& b.subrange(p, q) == encode_utf8(seg_text(template_seg(t), false))
            &&& simple_seg(template_seg(t))
        },
{
    if b[p] == 46 {
        if !(p + 1 < b.len() && b[p + 1] == 123) {
            lemma_key_text(b, p + 1);
            if let Ok((t, q)) = spec_key_segment(b, p + 1) {
                let k = t->Key_0;
                lemma_encode_ascii('.');
                lemma_encode_append(seq!['.'], k);
                assert(b.subrange(p, q) =~= seq![46u8] + b.subrange(p + 1, q));
            }
        }
    } else if b[p] == 91 {
        lemma_bracket_text(b, p);
    }
}

/// The first step in plain form reads as the bytes of its text.
proof fn lemma_head_text(b: Seq<u8>)
    requires
        i64::MAX <= usize::MAX,
        canonical_path_bytes(b),
        b.len() > 0,
    ensures
        spec_head(b) matches Ok((t, q)) ==> is_step_template(t) ==> {
            &&& 0 < q <= b.len()
            &&& b.subrange(0, q) == encode_utf8(seg_text(template_seg(t), true))
            &&& simple_seg(template_seg(t))
        },
{
    if b[0] == 91 {
        lemma_bracket_text(b, 0);
    } else {
        lemma_key_text(b, 0);
    }
}

proof fn lemma_rest_prefix(b: Seq<u8>, p: int, acc: Seq<TemplateV>)
    ensures
        spec_rest(b, p, acc) matches Ok(ts) ==> ts.len() >= acc.len() && forall|i: int|
            0 <= i < acc.len() ==> ts[i] == #[trigger] acc[i],
    decreases b.len() - p,
{
    if 0 <= p < b.len() {
        lemma_step_advances(b, p);
        if let Ok((t, q)) = spec_step(b, p) {
            lemma_rest_prefix(b, q, acc.push(t));
            assert forall|i: int| 0 <= i < acc.len() implies acc.push(t)[i] == #[trigger] acc[i] by {}
        }
    }
}

/// One more step on the text read so far.
proof fn lemma_text_push(ts: Seq<TemplateV>, t: TemplateV)
    requires
        ts.len() >= 1,
    ensures
        template_segs(ts.push(t)) == template_segs(ts).push(template_seg(t)),
        path_text(template_segs(ts.push(t))) == path_text(template_segs(ts)) + seg_text(
            template_seg(t),
            false,
        ),
{
    let s2 = template_segs(ts.push(t));
    assert(s2 =~= template_segs(ts).push(template_seg(t)));
    assert(s2.drop_last() =~= template_segs(ts));
}

proof fn lemma_rest_text(b: Seq<u8>, p: int, acc: Seq<TemplateV>, ts: Seq<TemplateV>)
    requires
        i64::MAX <= usize::MAX,
        canonical_path_bytes(b),
        0 < p <= b.len(),
        acc.len() >= 1,
        spec_rest(b, p, acc) == Ok::<Seq<TemplateV>, PathErrorV>(ts),
        forall|i: int| 0 <= i < ts.len() ==> is_step_template(#[trigger] ts[i]),
        encode_utf8(path_text(template_segs(acc))) == b.subrange(0, p),
        forall|i: int| 0 <= i < acc.len() ==> simple_seg(template_seg(#[trigger] acc[i])),
    ensures
        encode_utf8(path_text(template_segs(ts))) == b,
        forall|i: int| 0 <= i < ts.len() ==> simple_seg(template_seg(#[trigger] ts[i])),
    decreases b.len() - p,
{
    if p >= b.len() {
        assert(b.subrange(0, p) =~= b);
    } else {
        lemma_step_advances(b, p);
        lemma_step_text(b, p);
        if let Ok((t, q)) = spec_step(b, p) {
            let acc2 = acc.push(t);
            lemma_rest_prefix(b, q, acc2);
            assert(acc2[acc.len() as int] == t);
            assert(ts[acc.len() as int] == t);
            assert(is_step_template(ts[acc.len() as int]));
            lemma_text_push(acc, t);
            lemma_encode_append(path_text(template_segs(acc)), seg_text(template_seg(t), false));
            assert(b.subrange(0, q) =~= b.subrange(0, p) + b.subrange(p, q));
            assert forall|i: int| 0 <= i < acc2.len() implies simple_seg(
                template_seg(#[trigger] acc2[i]),
            ) by {
                if i < acc.len() {
                    assert(acc2[i] == acc[i]);
                }
            }
            lemma_rest_text(b, q, acc2, ts);
        }
    }
}

/// Path text of keys and indices in plain form reads back as itself:
/// `parse_path` reads it, `segments_to_string` renders the steps it reads
/// back to the same text, and `expand_template` makes of it a single axis
/// holding a single path, those steps, labelled by that text. (Stated where
/// a `usize` holds every non-negative `i64`; elsewhere a larger index is
/// cut down to a `usize` and renders otherwise.)
#[verifier::spinoff_prover]
pub proof fn law_canonical_path_text(b: Seq<u8>)
    requires
        i64::MAX <= usize::MAX,
        canonical_path_bytes(b),
        spec_parse_path(b) matches Ok(ts) && forall|i: int|
            0 <= i < ts.len() ==> is_step_template(#[trigger] ts[i]),
    ensures
        spec_parse_path(b) matches Ok(ts) && {
            &&& encode_utf8(path_text(template_segs(ts))) == b
            &&& spec_expand_template(ts) == seq![
                ExpansionV { paths: seq![template_segs(ts)], label: path_text(template_segs(ts)) },
            ]
        },
{
    reveal(spec_parse_path);
    let ts = spec_parse_path(b)->Ok_0;
    lemma_head_text(b);
    let (t, q) = spec_head(b)->Ok_0;
    lemma_rest_prefix(b, q, seq![t]);
    assert(seq![t][0] == t);
    assert(ts[0] == t);
    let acc = seq![t];
    assert(template_segs(acc) =~= seq![template_seg(t)]);
    assert(template_segs(acc).drop_last() =~= Seq::<SegV>::empty());
    assert(path_text(Seq::<SegV>::empty()) == Seq::<char>::empty());
    assert(template_segs(acc).last() == template_seg(t));
    assert(Seq::<char>::empty() + seg_text(template_seg(t), true) =~= seg_text(template_seg(t), true));
    assert(path_text(template_segs(acc)) == seg_text(template_seg(t), true));
    lemma_rest_text(b, q, acc, ts);
    let segs = template_segs(ts);
    assert forall|i: int| 0 <= i < segs.len() implies simple_seg(#[trigger] segs[i]) by {
        assert(simple_seg(template_seg(ts[i])));
    }
    assert(segs.map_values(|s: SegV| seg_template(s)) =~= ts) by {
        assert forall|i: int| 0 <= i < ts.len() implies seg_template(segs[i]) == ts[i] by {
            assert(is_step_template(ts[i]));
        }
    }
    lemma_expand_simple(segs, segs.len() as int);
    assert(segs.take(segs.len() as int) =~= segs);
}

// ---------------------------------------------------------------------------
// What filter values read as
// ---------------------------------------------------------------------------

/// A filter value that is a JSON keyword reads as that keyword's value:
/// `[k=true]` filters for `true`, `[k=false]` for `false`, `[k=null]` for
/// `null`.
pub proof fn law_filter_keywords(bs: Seq<u8>, t: Seq<char>, offset: int)
    ensures
        keyword_value(t) matches Some(v) ==> spec_filter_value(bs, t, offset) == Ok::<
            JsonV,
            PathErrorV,
        >(v),
{
}

/// A bare filter value, one that starts with neither a quote, a `-` nor a
/// digit, is no keyword and holds no bracket, reads as the string of its
/// text; one that holds a bracket is refused at its own offset.
pub proof fn law_filter_bare_words(bs: Seq<u8>, t: Seq<char>, offset: int)
    requires
        offset >= 0,
        bs.len() > 0,
        bs[0] != 34 && bs[0] != 45 && !(48 <= bs[0] <= 57),
        keyword_value(t) is None,
    ensures
        (forall|j: int| 0 <= j < bs.len() ==> #[trigger] bs[j] != 91 && bs[j] != 93)
            ==> spec_filter_value(bs, t, offset) == Ok::<JsonV, PathErrorV>(JsonV::String(t)),
        (exists|j: int| 0 <= j < bs.len() && (#[trigger] bs[j] == 91 || bs[j] == 93))
            ==> (spec_filter_value(bs, t, offset) matches Err(e) && e.offset == offset),
{
    if exists|j: int| 0 <= j < bs.len() && (#[trigger] bs[j] == 91 || bs[j] == 93) {
        let j = choose|j: int| 0 <= j < bs.len() && (#[trigger] bs[j] == 91 || bs[j] == 93);
        assert(is_bracket(bs[j]));
    }
}

/// A filter value that starts with `-` or a digit reads as a number or not
/// at all: `[id=42]` never filters for a string or any other kind of value.
pub proof fn law_filter_numbers(bs: Seq<u8>, t: Seq<char>, offset: int)
    requires
        offset >= 0,
        bs.len() > 0,
        bs[0] == 45 || (48 <= bs[0] <= 57),
        keyword_value(t) is None,
    ensures
        spec_filter_value(bs, t, offset) matches Ok(v) ==> v is Number,
        spec_filter_value(bs, t, offset) matches Err(e) ==> e.offset == offset,
{
}

} // verus!

