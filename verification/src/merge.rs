//! Deep merge of JSON values, and writing a value at a path.
use vstd::prelude::*;
use vstd::pervasive::VecAdditionalExecFns;
use vstd::string::*;
use crate::json::{law_json_eq_symmetric, law_json_eq_without_numbers, number_free, entries_get, entries_find, entries_insert, entries_view, json_eq, key_lt, keys_sorted, lemma_array_view, lemma_key_lt_irreflexive, lemma_key_lt_total, lemma_key_lt_transitive, lemma_obj_get_insert, lemma_obj_get_sorted, lemma_obj_get_wf, lemma_obj_insert_at, lemma_obj_insert_insert, lemma_obj_insert_wf, lemma_object_view, obj_get, obj_insert, values_view, values_wf, Json, JsonV, debug_str, nat_string, nat_text, spec_debug_str};
use crate::path::{filter_label, index_label, render_filter, render_index, segs_view, Segment, SegV};

verus! {

broadcast use vstd::seq_lib::group_seq_properties;

// ---------------------------------------------------------------------------
// Errors
// ---------------------------------------------------------------------------

/// Why a path could not be followed.
#[derive(Debug, PartialEq)]
pub enum ApplyError {
    /// Key segment hit a non-object slot (number, string, array, etc.).
    /// Writing names the segment that led to that slot (the key itself at
    /// the root); checking names the key.
    TraverseNonObject { segment: String, encountered: &'static str },
    /// Index segment hit a slot that wasn't an array; `segment` is `[i]`.
    TraverseNonArray { segment: String, encountered: &'static str },
    /// Index segment was past the end of the array.
    IndexOutOfBounds { segment: String, index: usize, len: usize },
    /// Filter segment hit a slot that wasn't an array.
    FilterOnNonArray { segment: String, encountered: &'static str },
    /// Filter found zero matching array elements.
    FilterNoMatch { segment: String },
    /// Key segment didn't already exist in the parent object. Only surfaces
    /// from `check_segments`; `apply_segments` auto-creates instead.
    KeyMissing { segment: String },
}

/// Model of an `ApplyError`.
pub enum ApplyErrorV {
    TraverseNonObject { segment: Seq<char>, encountered: Seq<char> },
    TraverseNonArray { segment: Seq<char>, encountered: Seq<char> },
    IndexOutOfBounds { segment: Seq<char>, index: nat, len: nat },
    FilterOnNonArray { segment: Seq<char>, encountered: Seq<char> },
    FilterNoMatch { segment: Seq<char> },
    KeyMissing { segment: Seq<char> },
}

impl View for ApplyError {
    type V = ApplyErrorV;

    open spec fn view(&self) -> ApplyErrorV {
        match self {
            ApplyError::TraverseNonObject { segment, encountered } => ApplyErrorV::TraverseNonObject {
                segment: segment@,
                encountered: encountered@,
            },
            ApplyError::TraverseNonArray { segment, encountered } => ApplyErrorV::TraverseNonArray {
                segment: segment@,
                encountered: encountered@,
            },
            ApplyError::IndexOutOfBounds { segment, index, len } => ApplyErrorV::IndexOutOfBounds {
                segment: segment@,
                index: *index as nat,
                len: *len as nat,
            },
            ApplyError::FilterOnNonArray { segment, encountered } => ApplyErrorV::FilterOnNonArray {
                segment: segment@,
                encountered: encountered@,
            },
            ApplyError::FilterNoMatch { segment } => ApplyErrorV::FilterNoMatch {
                segment: segment@,
            },
            ApplyError::KeyMissing { segment } => ApplyErrorV::KeyMissing { segment: segment@ },
        }
    }
}

/// The error as text.
pub open spec fn apply_error_text(e: ApplyErrorV) -> Seq<char> {
    match e {
        ApplyErrorV::TraverseNonObject { segment, encountered } => "path traverses "@ + encountered
            + " at segment "@ + spec_debug_str(segment) + " (expected object)"@,
        ApplyErrorV::TraverseNonArray { segment, encountered } => "path traverses "@ + encountered
            + " at segment "@ + spec_debug_str(segment) + " (expected array)"@,
        ApplyErrorV::IndexOutOfBounds { segment, index, len } => "index "@ + nat_text(index)
            + " out of bounds at segment "@ + spec_debug_str(segment) + " (array length "@
            + nat_text(len) + ")"@,
        ApplyErrorV::FilterOnNonArray { segment, encountered } => "filter "@ + spec_debug_str(
            segment,
        ) + " applied to "@ + encountered + " (expected array)"@,
        ApplyErrorV::FilterNoMatch { segment } => "filter "@ + spec_debug_str(segment)
            + " matched zero elements"@,
        ApplyErrorV::KeyMissing { segment } => "key "@ + spec_debug_str(segment)
            + " not present in base (typo?)"@,
    }
}

impl ApplyError {
    /// The error as text.
    pub fn describe(&self) -> (r: String)
        ensures
            r@ == apply_error_text(self@),
    {
        match self {
            ApplyError::TraverseNonObject { segment, encountered } => {
                let mut s = "path traverses ".to_owned();
                s.append(encountered);
                s.append(" at segment ");
                s.append(debug_str(segment.as_str()).as_str());
                s.append(" (expected object)");
                s
            },
            ApplyError::TraverseNonArray { segment, encountered } => {
                let mut s = "path traverses ".to_owned();
                s.append(encountered);
                s.append(" at segment ");
                s.append(debug_str(segment.as_str()).as_str());
                s.append(" (expected array)");
                s
            },
            ApplyError::IndexOutOfBounds { segment, index, len } => {
                let mut s = "index ".to_owned();
                s.append(nat_string(*index as u64).as_str());
                s.append(" out of bounds at segment ");
                s.append(debug_str(segment.as_str()).as_str());
                s.append(" (array length ");
                s.append(nat_string(*len as u64).as_str());
                s.append(")");
                s
            },
            ApplyError::FilterOnNonArray { segment, encountered } => {
                let mut s = "filter ".to_owned();
                s.append(debug_str(segment.as_str()).as_str());
                s.append(" applied to ");
                s.append(encountered);
                s.append(" (expected array)");
                s
            },
            ApplyError::FilterNoMatch { segment } => {
                let mut s = "filter ".to_owned();
                s.append(debug_str(segment.as_str()).as_str());
                s.append(" matched zero elements");
                s
            },
            ApplyError::KeyMissing { segment } => {
                let mut s = "key ".to_owned();
                s.append(debug_str(segment.as_str()).as_str());
                s.append(" not present in base (typo?)");
                s
            },
        }
    }
}

/// Model of the outcome of `apply_segments` or `check_segments`.
pub open spec fn outcome_view(r: Result<(), ApplyError>) -> Result<(), ApplyErrorV> {
    match r {
        Ok(()) => Ok(()),
        Err(e) => Err(e@),
    }
}

/// The name of a value's kind, for messages.
pub open spec fn kind_text(v: JsonV) -> Seq<char> {
    match v {
        JsonV::Null => "null"@,
        JsonV::Bool(_) => "bool"@,
        JsonV::Number(_) => "number"@,
        JsonV::String(_) => "string"@,
        JsonV::Array(_) => "array"@,
        JsonV::Object(_) => "object"@,
    }
}

pub fn kind_name(v: &Json) -> (r: &'static str)
    ensures
        r@ == kind_text(v@),
{
    match v {
        Json::Null => "null",
        Json::Bool(_) => "bool",
        Json::Number(_) => "number",
        Json::String(_) => "string",
        Json::Array(_) => "array",
        Json::Object(_) => "object",
    }
}

// ---------------------------------------------------------------------------
// Deep merge
// ---------------------------------------------------------------------------

/// `b` with `o` merged in: objects merge key by key, recursively; anything
/// else in `o` replaces `b`.
pub open spec fn merge(b: JsonV, o: JsonV) -> JsonV
    decreases o,
{
    match o {
        JsonV::Object(oe) => match b {
            JsonV::Object(be) => JsonV::Object(merge_entries(be, oe)),
            _ => o,
        },
        _ => o,
    }
}

/// The entries `be` with the entries `oe` merged in, one after the other.
pub open spec fn merge_entries(be: Seq<(Seq<char>, JsonV)>, oe: Seq<(Seq<char>, JsonV)>) -> Seq<
    (Seq<char>, JsonV),
>
    decreases oe,
{
    if oe.len() == 0 {
        be
    } else {
        let k = oe[0].0;
        let nv = match obj_get(be, k) {
            Some(old) => merge(old, oe[0].1),
            None => oe[0].1,
        };
        merge_entries(obj_insert(be, k, nv), oe.drop_first())
    }
}

/// Merging keeps values well formed.
pub proof fn lemma_merge_wf(b: JsonV, o: JsonV)
    requires
        b.wf(),
        o.wf(),
    ensures
        merge(b, o).wf(),
    decreases o,
{
    if let JsonV::Object(oe) = o {
        if let JsonV::Object(be) = b {
            lemma_merge_entries_wf(be, oe);
        }
    }
}

pub proof fn lemma_merge_entries_wf(be: Seq<(Seq<char>, JsonV)>, oe: Seq<(Seq<char>, JsonV)>)
    requires
        keys_sorted(be),
        values_wf(be),
        values_wf(oe),
    ensures
        keys_sorted(merge_entries(be, oe)),
        values_wf(merge_entries(be, oe)),
    decreases oe,
{
    if oe.len() > 0 {
        let k = oe[0].0;
        assert(oe[0].1.wf());
        lemma_obj_get_wf(be, k);
        let nv = match obj_get(be, k) {
            Some(old) => merge(old, oe[0].1),
            None => oe[0].1,
        };
        if let Some(old) = obj_get(be, k) {
            assert(decreases_to!(oe => oe[0]));
            lemma_merge_wf(old, oe[0].1);
        }
        lemma_obj_insert_wf(be, k, nv);
        let rest = oe.drop_first();
        assert forall|i: int| 0 <= i < rest.len() implies #[trigger] rest[i].1.wf() by {
            assert(rest[i] == oe[i + 1]);
        }
        lemma_merge_entries_wf(obj_insert(be, k, nv), rest);
    }
}

/// Deep-merges `overlay` into `base`.
pub fn merge_into(base: &mut Json, overlay: &Json)
    requires
        old(base)@.wf(),
        overlay@.wf(),
    ensures
        final(base)@ == merge(old(base)@, overlay@),
        final(base)@.wf(),
    decreases overlay,
{
    proof {
        lemma_merge_wf(base@, overlay@);
    }
    match overlay {
        Json::Object(oe) => {
            match base {
                Json::Object(be) => {
                    proof {
                        lemma_object_view(*oe);
                        lemma_object_view(*be);
                    }
                    let ghost be0 = entries_view(be@);
                    let ghost oev = entries_view(oe@);
                    assert(merge_entries(be0, oev.skip(0)) == merge_entries(be0, oev)) by {
                        assert(oev.skip(0) =~= oev);
                    }
                    let mut i: usize = 0;
                    while i < oe.len()
                        invariant
                            i <= oe@.len(),
                            oev == entries_view(oe@),
                            *overlay == Json::Object(*oe),
                            overlay@ == JsonV::Object(oev),
                            overlay@.wf(),
                            keys_sorted(entries_view(be@)),
                            values_wf(entries_view(be@)),
                            merge_entries(be0, oev) == merge_entries(
                                entries_view(be@),
                                oev.skip(i as int),
                            ),
                        decreases oe@.len() - i,
                    {
                        let ghost cur = entries_view(be@);
                        let ghost rest = oev.skip(i as int);
                        assert(rest[0] == oev[i as int]);
                        assert(rest.drop_first() =~= oev.skip(i + 1));
                        assert(oev[i as int] == (oe@[i as int].0@, oe@[i as int].1@));
                        assert(oev[i as int].1.wf());
                        proof {
                            lemma_obj_get_wf(cur, oev[i as int].0);
                        }
                        match entries_find(be, oe[i].0.as_str()) {
                            Some(p) => {
                                assert(cur[p as int] == (be@[p as int].0@, be@[p as int].1@));
                                let mut slot = (String::new(), Json::Null);
                                be.set_and_swap(p, &mut slot);
                                proof {
                                    assert(decreases_to!(*overlay => (*overlay)->Object_0));
                                    assert(decreases_to!((*overlay)->Object_0 => oe@));
                                    assert(decreases_to!(oe@ => oe@[i as int]));
                                    assert(decreases_to!(oe@[i as int] => oe@[i as int].1));
                                }
                                merge_into(&mut slot.1, &oe[i].1);
                                let ghost merged = slot.1@;
                                be.set(p, slot);
                                proof {
                                    lemma_obj_insert_at(cur, p as int, oev[i as int].0, merged);
                                    assert(entries_view(be@) =~= cur.update(
                                        p as int,
                                        (oev[i as int].0, merged),
                                    ));
                                    lemma_obj_insert_wf(cur, oev[i as int].0, merged);
                                    lemma_merge_wf(cur[p as int].1, oev[i as int].1);
                                }
                            },
                            None => {
                                let k = oe[i].0.clone();
                                let v = oe[i].1.deep_clone();
                                entries_insert(be, k, v);
                                proof {
                                    lemma_obj_insert_wf(cur, oev[i as int].0, oev[i as int].1);
                                }
                            },
                        }
                        i += 1;
                    }
                    proof {
                        assert(oev.skip(i as int) =~= Seq::<(Seq<char>, JsonV)>::empty());
                        lemma_object_view(*be);
                    }
                },
                _ => {
                    *base = overlay.deep_clone();
                },
            }
        },
        _ => {
            *base = overlay.deep_clone();
        },
    }
}


/// A key that no entry has is not found.
pub proof fn lemma_obj_get_absent(es: Seq<(Seq<char>, JsonV)>, k: Seq<char>)
    requires
        forall|j: int| 0 <= j < es.len() ==> #[trigger] es[j].0 != k,
    ensures
        obj_get(es, k) is None,
    decreases es.len(),
{
    if es.len() > 0 {
        let rest = es.drop_first();
        assert forall|j: int| 0 <= j < rest.len() implies #[trigger] rest[j].0 != k by {
            assert(rest[j] == es[j + 1]);
        }
        lemma_obj_get_absent(rest, k);
    }
}

/// Objects merge key by key: under a key of the overlay the result holds
/// the overlay's value, merged into the base's value under that key if the
/// base has one; under any other key it holds what the base holds.
pub proof fn law_merge_entries(
    be: Seq<(Seq<char>, JsonV)>,
    oe: Seq<(Seq<char>, JsonV)>,
    k: Seq<char>,
)
    requires
        keys_sorted(oe),
    ensures
        obj_get(merge_entries(be, oe), k) == match obj_get(oe, k) {
            None => obj_get(be, k),
            Some(v) => Some(
                match obj_get(be, k) {
                    Some(x) => merge(x, v),
                    None => v,
                },
            ),
        },
    decreases oe.len(),
{
    if oe.len() > 0 {
        let k0 = oe[0].0;
        let nv = match obj_get(be, k0) {
            Some(old) => merge(old, oe[0].1),
            None => oe[0].1,
        };
        let rest = oe.drop_first();
        assert(keys_sorted(rest)) by {
            assert forall|a: int, b: int| 0 <= a < b < rest.len() implies key_lt(
                #[trigger] rest[a].0,
                #[trigger] rest[b].0,
            ) by {
                assert(rest[a] == oe[a + 1]);
                assert(rest[b] == oe[b + 1]);
            }
        }
        let ins = obj_insert(be, k0, nv);
        law_merge_entries(ins, rest, k);
        lemma_obj_get_insert(be, k0, nv, k);
        if k == k0 {
            assert forall|j: int| 0 <= j < rest.len() implies #[trigger] rest[j].0 != k0 by {
                assert(rest[j] == oe[j + 1]);
                assert(key_lt(oe[0].0, oe[j + 1].0));
                lemma_key_lt_irreflexive(k0);
            }
            lemma_obj_get_absent(rest, k0);
        }
    }
}

/// Where a lookup finds a value, an entry holds it.
proof fn lemma_obj_get_index(es: Seq<(Seq<char>, JsonV)>, k: Seq<char>) -> (j: int)
    requires
        obj_get(es, k) is Some,
    ensures
        0 <= j < es.len(),
        es[j].0 == k,
        obj_get(es, k) == Some(es[j].1),
    decreases es.len(),
{
    if es[0].0 == k {
        0
    } else {
        let j = lemma_obj_get_index(es.drop_first(), k);
        assert(es.drop_first()[j] == es[j + 1]);
        j + 1
    }
}

/// In sorted entries, a key below the first key, or the first key looked up
/// in the rest, is not found.
proof fn lemma_sorted_absent(es: Seq<(Seq<char>, JsonV)>, k: Seq<char>)
    requires
        keys_sorted(es),
        es.len() > 0,
    ensures
        key_lt(k, es[0].0) ==> obj_get(es, k) is None,
        obj_get(es.drop_first(), es[0].0) is None,
{
    let rest = es.drop_first();
    assert forall|j: int| 0 <= j < rest.len() implies #[trigger] rest[j].0 != es[0].0 by {
        assert(rest[j] == es[j + 1]);
        lemma_key_lt_irreflexive(es[0].0);
    }
    lemma_obj_get_absent(rest, es[0].0);
    if key_lt(k, es[0].0) {
        assert forall|j: int| 0 <= j < es.len() implies #[trigger] es[j].0 != k by {
            lemma_key_lt_irreflexive(k);
            if j > 0 {
                lemma_key_lt_transitive(k, es[0].0, es[j].0);
            }
        }
        lemma_obj_get_absent(es, k);
    }
}

/// Sorted entries are equal when every key looks up the same.
proof fn lemma_entries_ext(x: Seq<(Seq<char>, JsonV)>, y: Seq<(Seq<char>, JsonV)>)
    requires
        keys_sorted(x),
        keys_sorted(y),
        forall|k: Seq<char>| #[trigger] obj_get(x, k) == obj_get(y, k),
    ensures
        x == y,
    decreases x.len() + y.len(),
{
    if x.len() == 0 || y.len() == 0 {
        if y.len() > 0 {
            assert(obj_get(y, y[0].0) is Some);
            assert(obj_get(x, y[0].0) is None);
        }
        if x.len() > 0 {
            assert(obj_get(x, x[0].0) is Some);
            assert(obj_get(y, x[0].0) is None);
        }
        assert(x =~= y);
    } else {
        let kx = x[0].0;
        let ky = y[0].0;
        lemma_sorted_absent(x, ky);
        lemma_sorted_absent(y, kx);
        if kx != ky {
            lemma_key_lt_total(kx, ky);
            assert(obj_get(x, kx) is Some);
            assert(obj_get(y, ky) is Some);
            assert(false);
        }
        assert(obj_get(x, kx) == obj_get(y, kx));
        let xr = x.drop_first();
        let yr = y.drop_first();
        assert(keys_sorted(xr)) by {
            assert forall|a: int, b: int| 0 <= a < b < xr.len() implies key_lt(
                #[trigger] xr[a].0,
                #[trigger] xr[b].0,
            ) by {
                assert(xr[a] == x[a + 1]);
                assert(xr[b] == x[b + 1]);
            }
        }
        assert(keys_sorted(yr)) by {
            assert forall|a: int, b: int| 0 <= a < b < yr.len() implies key_lt(
                #[trigger] yr[a].0,
                #[trigger] yr[b].0,
            ) by {
                assert(yr[a] == y[a + 1]);
                assert(yr[b] == y[b + 1]);
            }
        }
        assert forall|k: Seq<char>| #[trigger] obj_get(xr, k) == obj_get(yr, k) by {
            if k != kx {
                assert(obj_get(x, k) == obj_get(y, k));
            }
        }
        lemma_entries_ext(xr, yr);
        assert(x =~= y) by {
            assert forall|i: int| 0 <= i < x.len() implies x[i] == y[i] by {
                if i > 0 {
                    assert(x[i] == xr[i - 1]);
                    assert(y[i] == yr[i - 1]);
                }
            }
        }
    }
}

/// Merging into `{}` gives the overlay's own entries.
proof fn lemma_merge_into_empty(oe: Seq<(Seq<char>, JsonV)>)
    requires
        keys_sorted(oe),
    ensures
        merge_entries(Seq::empty(), oe) == oe,
{
    let e = Seq::<(Seq<char>, JsonV)>::empty();
    assert forall|k: Seq<char>| #[trigger] obj_get(merge_entries(e, oe), k) == obj_get(oe, k) by {
        law_merge_entries(e, oe, k);
    }
    lemma_merge_entries_wf_keys(e, oe);
    lemma_entries_ext(merge_entries(e, oe), oe);
}

/// Merging keeps the keys of objects sorted.
proof fn lemma_merge_entries_wf_keys(be: Seq<(Seq<char>, JsonV)>, oe: Seq<(Seq<char>, JsonV)>)
    requires
        keys_sorted(be),
    ensures
        keys_sorted(merge_entries(be, oe)),
    decreases oe,
{
    if oe.len() > 0 {
        let k = oe[0].0;
        let nv = match obj_get(be, k) {
            Some(old) => merge(old, oe[0].1),
            None => oe[0].1,
        };
        lemma_obj_insert_wf(be, k, nv);
        lemma_merge_entries_wf_keys(obj_insert(be, k, nv), oe.drop_first());
    }
}

/// Merging the same overlay twice gives what merging it once gives.
pub proof fn law_merge_idempotent(b: JsonV, o: JsonV)
    requires
        b.wf(),
        o.wf(),
    ensures
        merge(merge(b, o), o) == merge(b, o),
    decreases o, (if b is Object { 0int } else { 1int }),
{
    if let JsonV::Object(oe) = o {
        if let JsonV::Object(be) = b {
            let m = merge_entries(be, oe);
            lemma_merge_entries_wf(be, oe);
            assert forall|k: Seq<char>| #[trigger] obj_get(merge_entries(m, oe), k) == obj_get(m, k) by {
                law_merge_entries(m, oe, k);
                law_merge_entries(be, oe, k);
                if let Some(v) = obj_get(oe, k) {
                    let j = lemma_obj_get_index(oe, k);
                    assert(oe[j].1.wf());
                    assert(decreases_to!(o => oe));
                    assert(decreases_to!(oe => oe[j]));
                    assert(decreases_to!(oe[j] => oe[j].1));
                    lemma_obj_get_wf(be, k);
                    match obj_get(be, k) {
                        Some(x) => {
                            law_merge_idempotent(x, v);
                        },
                        None => {
                            law_merge_idempotent(JsonV::Object(Seq::empty()), v);
                            if let JsonV::Object(ve) = v {
                                lemma_merge_into_empty(ve);
                            }
                        },
                    }
                }
            }
            lemma_merge_entries_wf_keys(m, oe);
            lemma_entries_ext(merge_entries(m, oe), m);
        } else {
            law_merge_idempotent(JsonV::Object(Seq::empty()), o);
            lemma_merge_into_empty(oe);
        }
    }
}

/// Deep merge as the README states it: objects merge recursively (see
/// `law_merge_entries`); a non-object overlay (number, string, array, null)
/// replaces the base, so arrays replace rather than concatenate; and an
/// object overlay replaces a non-object base.
pub proof fn law_merge(b: JsonV, o: JsonV)
    ensures
        !o.is_object() ==> merge(b, o) == o,
        o.is_object() && !b.is_object() ==> merge(b, o) == o,
        o.is_object() && b.is_object() ==> merge(b, o) == JsonV::Object(
            merge_entries(b->Object_0, o->Object_0),
        ),
{
}

// ---------------------------------------------------------------------------
// Writing at a path
// ---------------------------------------------------------------------------

/// Whether an array element is an object whose `key` equals `needle`.
pub open spec fn filter_matches(elem: JsonV, key: Seq<char>, needle: JsonV) -> bool {
    &&& elem is Object
    &&& obj_get(elem->Object_0, key) matches Some(v) && json_eq(v, needle)
}

/// Position of the first element at or after `i` that the filter matches.
pub open spec fn first_match_from(a: Seq<JsonV>, key: Seq<char>, needle: JsonV, i: int) -> Option<
    int,
>
    decreases a.len() - i,
{
    if i < 0 || i >= a.len() {
        None
    } else if filter_matches(a[i], key, needle) {
        Some(i)
    } else {
        first_match_from(a, key, needle, i + 1)
    }
}

/// Position of the first element that the filter matches.
pub open spec fn first_match(a: Seq<JsonV>, key: Seq<char>, needle: JsonV) -> Option<int> {
    first_match_from(a, key, needle, 0)
}

/// The label by which messages name a segment: a key as it is, `[i]`, or
/// `[key=value]`.
pub open spec fn seg_label(s: SegV) -> Seq<char> {
    match s {
        SegV::Key(k) => k,
        SegV::Index(i) => index_label(i),
        SegV::Filter { key, value } => filter_label(key, value),
    }
}

/// The label of the segment that leads to the slot the walk stands on
/// before `segs[i]`: `segs[i - 1]`, or, at the root, `segs[0]` itself.
pub open spec fn held_label(segs: Seq<SegV>, i: int) -> Seq<char> {
    if i <= 0 {
        if segs.len() > 0 {
            seg_label(segs[0])
        } else {
            Seq::empty()
        }
    } else {
        seg_label(segs[i - 1])
    }
}

/// Walks `segs` from `cur`, creating missing object keys, and merges `value`
/// into the slot reached: the new `cur`, and the outcome. On an error the
/// keys created before it stay. `held` labels the segment that led to
/// `cur`: a key segment that meets a non-object there names it.
pub open spec fn apply_walk(cur: JsonV, segs: Seq<SegV>, value: JsonV, held: Seq<char>) -> (JsonV, Result<
    (),
    ApplyErrorV,
>)
    decreases segs.len(),
{
    if segs.len() == 0 {
        (merge(cur, value), Ok(()))
    } else {
        let rest = segs.drop_first();
        match segs[0] {
            SegV::Key(k) => match cur {
                JsonV::Object(es) => {
                    let child = match obj_get(es, k) {
                        Some(c) => c,
                        None => JsonV::Object(Seq::empty()),
                    };
                    let (c2, r) = apply_walk(child, rest, value, k);
                    (JsonV::Object(obj_insert(es, k, c2)), r)
                },
                _ => (
                    cur,
                    Err(ApplyErrorV::TraverseNonObject { segment: held, encountered: kind_text(cur) }),
                ),
            },
            SegV::Index(i) => match cur {
                JsonV::Array(a) => if i < a.len() {
                    let (c2, r) = apply_walk(a[i as int], rest, value, index_label(i));
                    (JsonV::Array(a.update(i as int, c2)), r)
                } else {
                    (
                        cur,
                        Err(
                            ApplyErrorV::IndexOutOfBounds {
                                segment: index_label(i),
                                index: i,
                                len: a.len(),
                            },
                        ),
                    )
                },
                _ => (
                    cur,
                    Err(
                        ApplyErrorV::TraverseNonArray {
                            segment: index_label(i),
                            encountered: kind_text(cur),
                        },
                    ),
                ),
            },
            SegV::Filter { key, value: needle } => match cur {
                JsonV::Array(a) => match first_match(a, key, needle) {
                    Some(p) => {
                        let (c2, r) = apply_walk(a[p], rest, value, filter_label(key, needle));
                        (JsonV::Array(a.update(p, c2)), r)
                    },
                    None => (
                        cur,
                        Err(ApplyErrorV::FilterNoMatch { segment: filter_label(key, needle) }),
                    ),
                },
                _ => (
                    cur,
                    Err(
                        ApplyErrorV::FilterOnNonArray {
                            segment: filter_label(key, needle),
                            encountered: kind_text(cur),
                        },
                    ),
                ),
            },
        }
    }
}

/// What `apply_segments` makes of `base`: a base that is not an object is
/// first replaced by `{}` when the path starts with a key.
pub open spec fn spec_apply_segments(base: JsonV, segs: Seq<SegV>, value: JsonV) -> (JsonV, Result<
    (),
    ApplyErrorV,
>) {
    let start = if segs.len() > 0 && segs[0] is Key && !base.is_object() {
        JsonV::Object(Seq::empty())
    } else {
        base
    };
    apply_walk(start, segs, value, held_label(segs, 0))
}

/// Walking keeps values well formed.
pub proof fn lemma_apply_walk_wf(cur: JsonV, segs: Seq<SegV>, value: JsonV, held: Seq<char>)
    requires
        cur.wf(),
        value.wf(),
    ensures
        apply_walk(cur, segs, value, held).0.wf(),
    decreases segs.len(),
{
    if segs.len() == 0 {
        lemma_merge_wf(cur, value);
    } else {
        let rest = segs.drop_first();
        match segs[0] {
            SegV::Key(k) => {
                if let JsonV::Object(es) = cur {
                    lemma_obj_get_wf(es, k);
                    let child = match obj_get(es, k) {
                        Some(c) => c,
                        None => JsonV::Object(Seq::empty()),
                    };
                    lemma_apply_walk_wf(child, rest, value, k);
                    lemma_obj_insert_wf(es, k, apply_walk(child, rest, value, k).0);
                }
            },
            SegV::Index(i) => {
                if let JsonV::Array(a) = cur {
                    if i < a.len() {
                        assert(a[i as int].wf());
                        lemma_apply_walk_wf(a[i as int], rest, value, index_label(i));
                        let a2 = a.update(
                            i as int,
                            apply_walk(a[i as int], rest, value, index_label(i)).0,
                        );
                        assert forall|j: int| 0 <= j < a2.len() implies (#[trigger] a2[j]).wf() by {
                            if j != i {
                                assert(a2[j] == a[j]);
                            }
                        }
                    }
                }
            },
            SegV::Filter { key, value: needle } => {
                if let JsonV::Array(a) = cur {
                    if let Some(p) = first_match(a, key, needle) {
                        lemma_first_match_bounds(a, key, needle, 0);
                        assert(a[p].wf());
                        let h = filter_label(key, needle);
                        lemma_apply_walk_wf(a[p], rest, value, h);
                        let a2 = a.update(p, apply_walk(a[p], rest, value, h).0);
                        assert forall|j: int| 0 <= j < a2.len() implies (#[trigger] a2[j]).wf() by {
                            if j != p {
                                assert(a2[j] == a[j]);
                            }
                        }
                    }
                }
            },
        }
    }
}

pub proof fn lemma_first_match_bounds(a: Seq<JsonV>, key: Seq<char>, needle: JsonV, i: int)
    ensures
        first_match_from(a, key, needle, i) matches Some(p) ==> i <= p < a.len() && filter_matches(
            a[p],
            key,
            needle,
        ) && forall|j: int| i <= j < p ==> !filter_matches(#[trigger] a[j], key, needle),
    decreases a.len() - i,
{
    if 0 <= i < a.len() && !filter_matches(a[i], key, needle) {
        lemma_first_match_bounds(a, key, needle, i + 1);
    }
}


/// Whether the filter matches an array element.
fn element_matches(elem: &Json, key: &str, needle: &Json) -> (r: bool)
    ensures
        r == filter_matches(elem@, key@, needle@),
{
    match elem {
        Json::Object(es) => {
            proof {
                lemma_object_view(*es);
            }
            match entries_get(es, key) {
                Some(v) => v.json_equal(needle),
                None => false,
            }
        },
        _ => false,
    }
}

/// Position of the first element of `a` that the filter matches.
fn filter_position(a: &Vec<Json>, key: &str, needle: &Json) -> (r: Option<usize>)
    ensures
        match r {
            Some(p) => first_match(values_view(a@), key@, needle@) == Some(p as int),
            None => first_match(values_view(a@), key@, needle@) is None,
        },
{
    let ghost av = values_view(a@);
    let mut i: usize = 0;
    while i < a.len()
        invariant
            i <= a@.len(),
            av == values_view(a@),
            first_match(av, key@, needle@) == first_match_from(av, key@, needle@, i as int),
        decreases a@.len() - i,
    {
        assert(av[i as int] == a@[i as int]@);
        if element_matches(&a[i], key, needle) {
            return Some(i);
        }
        i += 1;
    }
    None
}

/// Renders the label of a segment.
fn segment_label(seg: &Segment) -> (r: String)
    ensures
        r@ == seg_label(seg@),
{
    match seg {
        Segment::Key(k) => k.clone(),
        Segment::Index(i) => render_index(*i),
        Segment::Filter { key, value } => render_filter(key.as_str(), value),
    }
}

/// Renders the label of the segment that leads to the slot before `segs[i]`.
fn held_segment_label(segs: &[Segment], i: usize) -> (r: String)
    requires
        i < segs@.len(),
    ensures
        r@ == held_label(segs_view(segs@), i as int),
{
    if i == 0 {
        assert(segs_view(segs@)[0] == segs@[0]@);
        segment_label(&segs[0])
    } else {
        assert(segs_view(segs@)[i - 1] == segs@[i - 1]@);
        segment_label(&segs[i - 1])
    }
}

/// Walks `segs[i..]` from `cur`, as `apply_walk` states.
fn apply_from(cur: &mut Json, segs: &[Segment], i: usize, value: &Json) -> (r: Result<
    (),
    ApplyError,
>)
    requires
        i <= segs@.len(),
        old(cur)@.wf(),
        value@.wf(),
    ensures
        (final(cur)@, outcome_view(r)) == apply_walk(
            old(cur)@,
            segs_view(segs@).skip(i as int),
            value@,
            held_label(segs_view(segs@), i as int),
        ),
        final(cur)@.wf(),
    decreases segs@.len() - i,
{
    let ghost sv = segs_view(segs@);
    let ghost c0 = cur@;
    proof {
        lemma_apply_walk_wf(c0, sv.skip(i as int), value@, held_label(sv, i as int));
    }
    if i == segs.len() {
        merge_into(cur, value);
        return Ok(());
    }
    let ghost tail = sv.skip(i as int);
    assert(tail[0] == segs@[i as int]@);
    assert(tail.drop_first() =~= sv.skip(i + 1));
    match &segs[i] {
        Segment::Key(k) => {
            match cur {
                Json::Object(es) => {
                    proof {
                        lemma_object_view(*es);
                    }
                    let ghost e0 = entries_view(es@);
                    let p = match entries_find(es, k.as_str()) {
                        Some(p) => p,
                        None => {
                            entries_insert(es, k.clone(), Json::empty_object());
                            proof {
                                lemma_obj_get_insert(e0, k@, JsonV::Object(Seq::empty()), k@);
                                lemma_obj_insert_wf(e0, k@, JsonV::Object(Seq::empty()));
                            }
                            match entries_find(es, k.as_str()) {
                                Some(p) => p,
                                None => {
                                    assert(false);
                                    0
                                },
                            }
                        },
                    };
                    let ghost e1 = entries_view(es@);
                    assert(e1[p as int] == (es@[p as int].0@, es@[p as int].1@));
                    proof {
                        lemma_obj_get_sorted(e1, p as int);
                    }
                    let mut slot = (String::new(), Json::Null);
                    es.set_and_swap(p, &mut slot);
                    let r = apply_from(&mut slot.1, segs, i + 1, value);
                    let ghost c2 = slot.1@;
                    es.set(p, slot);
                    proof {
                        lemma_obj_insert_at(e1, p as int, k@, c2);
                        assert(entries_view(es@) =~= e1.update(p as int, (k@, c2)));
                        if e1 != e0 {
                            lemma_obj_insert_insert(e0, k@, JsonV::Object(Seq::empty()), c2);
                        }
                        lemma_object_view(*es);
                    }
                    r
                },
                other => {
                    let seg = held_segment_label(segs, i);
                    Err(ApplyError::TraverseNonObject { segment: seg, encountered: kind_name(other) })
                },
            }
        },
        Segment::Index(idx) => {
            let idx = *idx;
            match cur {
                Json::Array(a) => {
                    proof {
                        lemma_array_view(*a);
                    }
                    if idx >= a.len() {
                        return Err(
                            ApplyError::IndexOutOfBounds {
                                segment: render_index(idx),
                                index: idx,
                                len: a.len(),
                            },
                        );
                    }
                    let ghost a0 = values_view(a@);
                    assert(a0[idx as int] == a@[idx as int]@);
                    let mut child = Json::Null;
                    a.set_and_swap(idx, &mut child);
                    let r = apply_from(&mut child, segs, i + 1, value);
                    let ghost c2 = child@;
                    a.set(idx, child);
                    proof {
                        assert(values_view(a@) =~= a0.update(idx as int, c2));
                        lemma_array_view(*a);
                    }
                    r
                },
                other => Err(
                    ApplyError::TraverseNonArray {
                        segment: render_index(idx),
                        encountered: kind_name(other),
                    },
                ),
            }
        },
        Segment::Filter { key, value: needle } => {
            let label = render_filter(key.as_str(), needle);
            match cur {
                Json::Array(a) => {
                    proof {
                        lemma_array_view(*a);
                    }
                    let ghost a0 = values_view(a@);
                    match filter_position(a, key.as_str(), needle) {
                        Some(p) => {
                            proof {
                                lemma_first_match_bounds(a0, key@, needle@, 0);
                            }
                            assert(a0[p as int] == a@[p as int]@);
                            let mut child = Json::Null;
                            a.set_and_swap(p, &mut child);
                            let r = apply_from(&mut child, segs, i + 1, value);
                            let ghost c2 = child@;
                            a.set(p, child);
                            proof {
                                assert(values_view(a@) =~= a0.update(p as int, c2));
                                lemma_array_view(*a);
                            }
                            r
                        },
                        None => Err(ApplyError::FilterNoMatch { segment: label }),
                    }
                },
                other => Err(
                    ApplyError::FilterOnNonArray { segment: label, encountered: kind_name(other) },
                ),
            }
        },
    }
}

/// Walks `segs` through `base`, creating missing object intermediates for
/// `Key` segments, and deep-merges `value` into the leaf slot. `Index` and
/// `Filter` segments do not auto-create: they error if the slot isn't an
/// array of the right shape.
pub fn apply_segments(base: &mut Json, segs: &[Segment], value: &Json) -> (r: Result<
    (),
    ApplyError,
>)
    requires
        old(base)@.wf(),
        value@.wf(),
    ensures
        (final(base)@, outcome_view(r)) == spec_apply_segments(old(base)@, segs_view(segs@), value@),
        final(base)@.wf(),
{
    if segs.len() == 0 {
        merge_into(base, value);
        return Ok(());
    }
    let ghost b0 = base@;
    let starts_with_key = match &segs[0] {
        Segment::Key(_) => true,
        _ => false,
    };
    let is_object = match base {
        Json::Object(_) => true,
        _ => false,
    };
    if starts_with_key && !is_object {
        *base = Json::empty_object();
    }
    assert(segs_view(segs@)[0] == segs@[0]@);
    assert(segs_view(segs@).skip(0) =~= segs_view(segs@));
    apply_from(base, segs, 0, value)
}


// ---------------------------------------------------------------------------
// Reading at a path
// ---------------------------------------------------------------------------

/// Follows `segs` from `cur` without creating anything: the slot reached, or
/// why it could not be reached.
pub open spec fn check_walk(cur: JsonV, segs: Seq<SegV>) -> Result<JsonV, ApplyErrorV>
    decreases segs.len(),
{
    if segs.len() == 0 {
        Ok(cur)
    } else {
        let rest = segs.drop_first();
        match segs[0] {
            SegV::Key(k) => match cur {
                JsonV::Object(es) => match obj_get(es, k) {
                    Some(c) => check_walk(c, rest),
                    None => Err(ApplyErrorV::KeyMissing { segment: k }),
                },
                _ => Err(ApplyErrorV::TraverseNonObject { segment: k, encountered: kind_text(cur) }),
            },
            SegV::Index(i) => match cur {
                JsonV::Array(a) => if i < a.len() {
                    check_walk(a[i as int], rest)
                } else {
                    Err(
                        ApplyErrorV::IndexOutOfBounds {
                            segment: index_label(i),
                            index: i,
                            len: a.len(),
                        },
                    )
                },
                _ => Err(
                    ApplyErrorV::TraverseNonArray {
                        segment: index_label(i),
                        encountered: kind_text(cur),
                    },
                ),
            },
            SegV::Filter { key, value: needle } => match cur {
                JsonV::Array(a) => match first_match(a, key, needle) {
                    Some(p) => check_walk(a[p], rest),
                    None => Err(ApplyErrorV::FilterNoMatch { segment: filter_label(key, needle) }),
                },
                _ => Err(
                    ApplyErrorV::FilterOnNonArray {
                        segment: filter_label(key, needle),
                        encountered: kind_text(cur),
                    },
                ),
            },
        }
    }
}

/// The outcome of `check_segments`.
pub open spec fn spec_check_segments(base: JsonV, segs: Seq<SegV>) -> Result<(), ApplyErrorV> {
    match check_walk(base, segs) {
        Ok(_) => Ok(()),
        Err(e) => Err(e),
    }
}

/// Verify that `segs` addresses an existing slot in `base`. Like
/// `apply_segments` but with zero auto-creation: a key that isn't already
/// present in the parent object returns `KeyMissing`.
pub fn check_segments(base: &Json, segs: &[Segment]) -> (r: Result<(), ApplyError>)
    ensures
        outcome_view(r) == spec_check_segments(base@, segs_view(segs@)),
{
    let ghost sv = segs_view(segs@);
    assert(sv.skip(0) =~= sv);
    let mut cur: &Json = base;
    let mut i: usize = 0;
    while i < segs.len()
        invariant
            i <= segs@.len(),
            sv == segs_view(segs@),
            check_walk(base@, sv) == check_walk(cur@, sv.skip(i as int)),
        decreases segs@.len() - i,
    {
        let ghost tail = sv.skip(i as int);
        assert(tail[0] == segs@[i as int]@);
        assert(tail.drop_first() =~= sv.skip(i + 1));
        match &segs[i] {
            Segment::Key(k) => {
                match cur {
                    Json::Object(es) => {
                        proof {
                            lemma_object_view(*es);
                        }
                        match entries_get(es, k.as_str()) {
                            Some(c) => {
                                cur = c;
                            },
                            None => {
                                return Err(ApplyError::KeyMissing { segment: k.clone() });
                            },
                        }
                    },
                    other => {
                        return Err(
                            ApplyError::TraverseNonObject {
                                segment: k.clone(),
                                encountered: kind_name(other),
                            },
                        );
                    },
                }
            },
            Segment::Index(idx) => {
                let idx = *idx;
                match cur {
                    Json::Array(a) => {
                        proof {
                            lemma_array_view(*a);
                        }
                        if idx >= a.len() {
                            return Err(
                                ApplyError::IndexOutOfBounds {
                                    segment: render_index(idx),
                                    index: idx,
                                    len: a.len(),
                                },
                            );
                        }
                        assert(values_view(a@)[idx as int] == a@[idx as int]@);
                        cur = &a[idx];
                    },
                    other => {
                        return Err(
                            ApplyError::TraverseNonArray {
                                segment: render_index(idx),
                                encountered: kind_name(other),
                            },
                        );
                    },
                }
            },
            Segment::Filter { key, value: needle } => {
                let label = render_filter(key.as_str(), needle);
                match cur {
                    Json::Array(a) => {
                        proof {
                            lemma_array_view(*a);
                        }
                        match filter_position(a, key.as_str(), needle) {
                            Some(p) => {
                                proof {
                                    lemma_first_match_bounds(values_view(a@), key@, needle@, 0);
                                }
                                assert(values_view(a@)[p as int] == a@[p as int]@);
                                cur = &a[p];
                            },
                            None => {
                                return Err(ApplyError::FilterNoMatch { segment: label });
                            },
                        }
                    },
                    other => {
                        return Err(
                            ApplyError::FilterOnNonArray {
                                segment: label,
                                encountered: kind_name(other),
                            },
                        );
                    },
                }
            },
        }
        i += 1;
    }
    Ok(())
}

// ---------------------------------------------------------------------------
// Reading back what was written
// ---------------------------------------------------------------------------

/// What the path reached before a write: the slot, or `{}` where the path
/// did not yet exist (the write creates it).
pub open spec fn slot_before(cur: JsonV, segs: Seq<SegV>) -> JsonV {
    match check_walk(cur, segs) {
        Ok(x) => x,
        Err(_) => JsonV::Object(Seq::empty()),
    }
}

/// Every `Filter` step of the write still matches the element it wrote:
/// the write did not change the key by which the filter found it.
pub open spec fn filters_kept(cur: JsonV, segs: Seq<SegV>, value: JsonV) -> bool
    decreases segs.len(),
{
    if segs.len() == 0 {
        true
    } else {
        let rest = segs.drop_first();
        match segs[0] {
            SegV::Key(k) => match cur {
                JsonV::Object(es) => filters_kept(
                    match obj_get(es, k) {
                        Some(c) => c,
                        None => JsonV::Object(Seq::empty()),
                    },
                    rest,
                    value,
                ),
                _ => true,
            },
            SegV::Index(i) => match cur {
                JsonV::Array(a) => i < a.len() ==> filters_kept(a[i as int], rest, value),
                _ => true,
            },
            SegV::Filter { key, value: needle } => match cur {
                JsonV::Array(a) => match first_match(a, key, needle) {
                    Some(p) => filter_matches(
                        apply_walk(a[p], rest, value, filter_label(key, needle)).0,
                        key,
                        needle,
                    )
                        && filters_kept(a[p], rest, value),
                    None => true,
                },
                _ => true,
            },
        }
    }
}

proof fn lemma_slot_before_created(segs: Seq<SegV>, value: JsonV, held: Seq<char>)
    requires
        apply_walk(JsonV::Object(Seq::empty()), segs, value, held).1 is Ok,
    ensures
        slot_before(JsonV::Object(Seq::empty()), segs) == JsonV::Object(Seq::<(Seq<char>, JsonV)>::empty()),
{
}

proof fn lemma_first_match_update(a: Seq<JsonV>, key: Seq<char>, needle: JsonV, p: int, x: JsonV)
    requires
        first_match(a, key, needle) == Some(p),
        filter_matches(x, key, needle),
    ensures
        first_match(a.update(p, x), key, needle) == Some(p),
{
    lemma_first_match_bounds(a, key, needle, 0);
    let b = a.update(p, x);
    assert forall|j: int| 0 <= j <= p implies first_match_from(b, key, needle, j) == Some(p) by {
        lemma_first_match_from_update(a, key, needle, p, x, j);
    }
}

proof fn lemma_first_match_from_update(
    a: Seq<JsonV>,
    key: Seq<char>,
    needle: JsonV,
    p: int,
    x: JsonV,
    j: int,
)
    requires
        0 <= j <= p < a.len(),
        forall|m: int| 0 <= m < p ==> !filter_matches(#[trigger] a[m], key, needle),
        filter_matches(x, key, needle),
    ensures
        first_match_from(a.update(p, x), key, needle, j) == Some(p),
    decreases p - j,
{
    let b = a.update(p, x);
    if j < p {
        assert(b[j] == a[j]);
        lemma_first_match_from_update(a, key, needle, p, x, j + 1);
    }
}

/// A successful write can be read back: afterwards the path resolves, and
/// it leads to `value` deep-merged into what the path held before, or into
/// `{}` where the write created the path. (Stated for writes whose filters
/// still match the elements they wrote.)
pub proof fn law_read_after_write(cur: JsonV, segs: Seq<SegV>, value: JsonV, held: Seq<char>)
    requires
        apply_walk(cur, segs, value, held).1 is Ok,
        filters_kept(cur, segs, value),
    ensures
        check_walk(apply_walk(cur, segs, value, held).0, segs) == Ok::<JsonV, ApplyErrorV>(
            merge(slot_before(cur, segs), value),
        ),
    decreases segs.len(),
{
    if segs.len() > 0 {
        let rest = segs.drop_first();
        match segs[0] {
            SegV::Key(k) => {
                if let JsonV::Object(es) = cur {
                    let child = match obj_get(es, k) {
                        Some(c) => c,
                        None => JsonV::Object(Seq::empty()),
                    };
                    law_read_after_write(child, rest, value, k);
                    let c2 = apply_walk(child, rest, value, k).0;
                    lemma_obj_get_insert(es, k, c2, k);
                    if obj_get(es, k) is None {
                        lemma_slot_before_created(rest, value, k);
                    }
                }
            },
            SegV::Index(i) => {
                if let JsonV::Array(a) = cur {
                    if i < a.len() {
                        law_read_after_write(a[i as int], rest, value, index_label(i));
                    }
                }
            },
            SegV::Filter { key, value: needle } => {
                if let JsonV::Array(a) = cur {
                    if let Some(p) = first_match(a, key, needle) {
                        lemma_first_match_bounds(a, key, needle, 0);
                        let h = filter_label(key, needle);
                        law_read_after_write(a[p], rest, value, h);
                        lemma_first_match_update(a, key, needle, p, apply_walk(a[p], rest, value, h).0);
                    }
                }
            },
        }
    }
}

/// The same, for `apply_segments` itself.
pub proof fn law_apply_then_check(base: JsonV, segs: Seq<SegV>, value: JsonV)
    requires
        spec_apply_segments(base, segs, value).1 is Ok,
        filters_kept(
            if segs.len() > 0 && segs[0] is Key && !base.is_object() {
                JsonV::Object(Seq::empty())
            } else {
                base
            },
            segs,
            value,
        ),
    ensures
        spec_check_segments(spec_apply_segments(base, segs, value).0, segs) is Ok,
        check_walk(spec_apply_segments(base, segs, value).0, segs) == Ok::<JsonV, ApplyErrorV>(
            merge(slot_before(base, segs), value),
        ),
{
    let start = if segs.len() > 0 && segs[0] is Key && !base.is_object() {
        JsonV::Object(Seq::empty())
    } else {
        base
    };
    law_read_after_write(start, segs, value, held_label(segs, 0));
    if start != base {
        lemma_slot_before_created(segs, value, held_label(segs, 0));
    }
}

/// A path that the check accepts always applies: where `check_walk` reaches
/// a slot, `apply_walk` writes any value there without error.
pub proof fn law_check_then_apply(cur: JsonV, segs: Seq<SegV>, value: JsonV, held: Seq<char>)
    requires
        check_walk(cur, segs) is Ok,
    ensures
        apply_walk(cur, segs, value, held).1 is Ok,
    decreases segs.len(),
{
    if segs.len() > 0 {
        let rest = segs.drop_first();
        match segs[0] {
            SegV::Key(k) => {
                if let JsonV::Object(es) = cur {
                    if let Some(c) = obj_get(es, k) {
                        law_check_then_apply(c, rest, value, k);
                    }
                }
            },
            SegV::Index(i) => {
                if let JsonV::Array(a) = cur {
                    if i < a.len() {
                        law_check_then_apply(a[i as int], rest, value, index_label(i));
                    }
                }
            },
            SegV::Filter { key, value: needle } => {
                if let JsonV::Array(a) = cur {
                    if let Some(p) = first_match(a, key, needle) {
                        law_check_then_apply(a[p], rest, value, filter_label(key, needle));
                    }
                }
            },
        }
    }
}

/// The same for the public functions: a path that `check_segments` accepts
/// on `base` is one that `apply_segments` writes into `base` without error,
/// whatever the value.
pub proof fn law_check_segments_then_apply(base: JsonV, segs: Seq<SegV>, value: JsonV)
    requires
        spec_check_segments(base, segs) is Ok,
    ensures
        spec_apply_segments(base, segs, value).1 is Ok,
{
    law_check_then_apply(base, segs, value, held_label(segs, 0));
}

/// A filter whose value has no number in it matches exactly the objects
/// that hold that very value under its key: `[on=true]` never matches an
/// element whose `on` is `false`, and `[name=A]` never one whose `name` is
/// `"B"`.
pub proof fn law_filter_matches_by_value(elem: JsonV, key: Seq<char>, needle: JsonV)
    requires
        number_free(needle),
    ensures
        filter_matches(elem, key, needle) <==> (elem is Object && obj_get(elem->Object_0, key)
            == Some(needle)),
{
    if let JsonV::Object(es) = elem {
        if let Some(v) = obj_get(es, key) {
            law_json_eq_symmetric(v, needle);
            law_json_eq_without_numbers(needle, v);
        }
    }
}

/// The element a filter picks is the first one it matches; where it picks
/// none, it matches none.
pub proof fn law_first_match(a: Seq<JsonV>, key: Seq<char>, needle: JsonV)
    ensures
        match first_match(a, key, needle) {
            Some(p) => 0 <= p < a.len() && filter_matches(a[p], key, needle) && forall|j: int|
                0 <= j < p ==> !filter_matches(#[trigger] a[j], key, needle),
            None => forall|j: int| 0 <= j < a.len() ==> !filter_matches(#[trigger] a[j], key, needle),
        },
{
    lemma_first_match_bounds(a, key, needle, 0);
    if first_match(a, key, needle) is None {
        assert forall|j: int| 0 <= j < a.len() implies !filter_matches(#[trigger] a[j], key, needle) by {
            lemma_first_match_none(a, key, needle, 0, j);
        }
    }
}

proof fn lemma_first_match_none(a: Seq<JsonV>, key: Seq<char>, needle: JsonV, i: int, j: int)
    requires
        0 <= i <= j < a.len(),
        first_match_from(a, key, needle, i) is None,
    ensures
        !filter_matches(a[j], key, needle),
    decreases j - i,
{
    if i < j {
        lemma_first_match_none(a, key, needle, i + 1, j);
    }
}

/// Writing through a filter into an array changes one element only: the
/// first that the filter matches. Every other element stays as it was.
pub proof fn law_filter_write(
    a: Seq<JsonV>,
    key: Seq<char>,
    needle: JsonV,
    rest: Seq<SegV>,
    value: JsonV,
    held: Seq<char>,
)
    requires
        apply_walk(
            JsonV::Array(a),
            seq![SegV::Filter { key, value: needle }] + rest,
            value,
            held,
        ).1 is Ok,
    ensures
        ({
            let r = apply_walk(
                JsonV::Array(a),
                seq![SegV::Filter { key, value: needle }] + rest,
                value,
                held,
            ).0;
            &&& r is Array
            &&& r->Array_0.len() == a.len()
            &&& exists|p: int|
                #![trigger a[p]]
                0 <= p < a.len() && filter_matches(a[p], key, needle) && (forall|j: int|
                    0 <= j < p ==> !filter_matches(#[trigger] a[j], key, needle)) && (forall|j: int|
                    0 <= j < a.len() && j != p ==> #[trigger] r->Array_0[j] == a[j])
        }),
{
    let segs = seq![SegV::Filter { key, value: needle }] + rest;
    assert(segs[0] == SegV::Filter { key, value: needle });
    assert(segs.drop_first() =~= rest);
    lemma_first_match_bounds(a, key, needle, 0);
    let p = first_match(a, key, needle)->Some_0;
    let r = apply_walk(JsonV::Array(a), segs, value, held).0;
    assert(forall|j: int| 0 <= j < a.len() && j != p ==> #[trigger] r->Array_0[j] == a[j]);
    assert(filter_matches(a[p], key, needle));
}

} // verus!

