//! The JSON values that a sweep reads and writes.
//!
//! Objects keep their entries sorted by key, in the byte order of the keys'
//! UTF-8 encodings, with no key twice: the order in which `serde_json`'s
//! default map (a `BTreeMap`) holds them. Numbers keep the text in which
//! `serde_json` writes them, which is all the sweep ever reads of a number.
use vstd::prelude::*;
use vstd::string::*;
use vstd::utf8::*;
use vstd::pervasive::VecAdditionalExecFns;

verus! {

broadcast use vstd::seq_lib::group_seq_properties;

// ---------------------------------------------------------------------------
// Model
// ---------------------------------------------------------------------------

/// Mathematical model of a JSON value.
pub enum JsonV {
    Null,
    Bool(bool),
    Number(Seq<char>),
    String(Seq<char>),
    Array(Seq<JsonV>),
    Object(Seq<(Seq<char>, JsonV)>),
}

/// A JSON number, held as the text in which `serde_json` writes it.
#[derive(Debug, PartialEq)]
pub struct JsonNumber {
    text: String,
}

impl View for JsonNumber {
    type V = Seq<char>;

    closed spec fn view(&self) -> Seq<char> {
        self.text@
    }
}

/// A JSON value.
#[derive(Debug, PartialEq)]
pub enum Json {
    Null,
    Bool(bool),
    Number(JsonNumber),
    String(String),
    Array(Vec<Json>),
    Object(Vec<(String, Json)>),
}

pub open spec fn json_view(j: Json) -> JsonV
    decreases j,
{
    match j {
        Json::Null => JsonV::Null,
        Json::Bool(b) => JsonV::Bool(b),
        Json::Number(n) => JsonV::Number(n@),
        Json::String(s) => JsonV::String(s@),
        Json::Array(v) => JsonV::Array(
            Seq::new(
                v@.len(),
                |i: int|
                    if 0 <= i < v@.len() {
                        json_view(v@[i])
                    } else {
                        JsonV::Null
                    },
            ),
        ),
        Json::Object(es) => JsonV::Object(
            Seq::new(
                es@.len(),
                |i: int|
                    if 0 <= i < es@.len() {
                        (es@[i].0@, json_view(es@[i].1))
                    } else {
                        (Seq::empty(), JsonV::Null)
                    },
            ),
        ),
    }
}

impl View for Json {
    type V = JsonV;

    open spec fn view(&self) -> JsonV {
        json_view(*self)
    }
}

/// The model of a sequence of JSON values.
pub open spec fn values_view(s: Seq<Json>) -> Seq<JsonV> {
    Seq::new(s.len(), |i: int| s[i]@)
}

/// The model of the entries of an object.
pub open spec fn entries_view(s: Seq<(String, Json)>) -> Seq<(Seq<char>, JsonV)> {
    Seq::new(s.len(), |i: int| (s[i].0@, s[i].1@))
}

pub proof fn lemma_array_view(v: Vec<Json>)
    ensures
        Json::Array(v)@ == JsonV::Array(values_view(v@)),
{
    assert(json_view(Json::Array(v))->Array_0 =~= values_view(v@));
}

pub proof fn lemma_object_view(es: Vec<(String, Json)>)
    ensures
        Json::Object(es)@ == JsonV::Object(entries_view(es@)),
{
    assert(json_view(Json::Object(es))->Object_0 =~= entries_view(es@));
}

// ---------------------------------------------------------------------------
// Key order
// ---------------------------------------------------------------------------

/// Lexicographic order on byte sequences.
pub open spec fn bytes_lt(a: Seq<u8>, b: Seq<u8>) -> bool
    decreases a.len(),
{
    if a.len() == 0 {
        b.len() > 0
    } else if b.len() == 0 {
        false
    } else if a[0] != b[0] {
        a[0] < b[0]
    } else {
        bytes_lt(a.drop_first(), b.drop_first())
    }
}

/// The order of object keys: that of their UTF-8 encodings.
pub open spec fn key_lt(a: Seq<char>, b: Seq<char>) -> bool {
    bytes_lt(encode_utf8(a), encode_utf8(b))
}

pub proof fn lemma_bytes_lt_irreflexive(a: Seq<u8>)
    ensures
        !bytes_lt(a, a),
    decreases a.len(),
{
    if a.len() > 0 {
        lemma_bytes_lt_irreflexive(a.drop_first());
    }
}

pub proof fn lemma_bytes_lt_transitive(a: Seq<u8>, b: Seq<u8>, c: Seq<u8>)
    requires
        bytes_lt(a, b),
        bytes_lt(b, c),
    ensures
        bytes_lt(a, c),
    decreases a.len(),
{
    if a.len() > 0 && b.len() > 0 && c.len() > 0 && a[0] == b[0] && b[0] == c[0] {
        lemma_bytes_lt_transitive(a.drop_first(), b.drop_first(), c.drop_first());
    }
}

pub proof fn lemma_bytes_lt_total(a: Seq<u8>, b: Seq<u8>)
    requires
        a != b,
    ensures
        bytes_lt(a, b) || bytes_lt(b, a),
    decreases a.len(),
{
    if a.len() == 0 {
        if b.len() == 0 {
            assert(a =~= b);
        }
    } else if b.len() > 0 && a[0] == b[0] {
        if a.drop_first() == b.drop_first() {
            assert(a.len() == b.len()) by {
                assert(a.drop_first().len() == b.drop_first().len());
            }
            assert(a =~= b) by {
                assert forall|i: int| 0 <= i < a.len() implies a[i] == b[i] by {
                    if i > 0 {
                        assert(a[i] == a.drop_first()[i - 1]);
                        assert(b[i] == b.drop_first()[i - 1]);
                    }
                }
            }
        }
        lemma_bytes_lt_total(a.drop_first(), b.drop_first());
    }
}

pub proof fn lemma_key_lt_irreflexive(a: Seq<char>)
    ensures
        !key_lt(a, a),
{
    lemma_bytes_lt_irreflexive(encode_utf8(a));
}

pub proof fn lemma_key_lt_transitive(a: Seq<char>, b: Seq<char>, c: Seq<char>)
    requires
        key_lt(a, b),
        key_lt(b, c),
    ensures
        key_lt(a, c),
{
    lemma_bytes_lt_transitive(encode_utf8(a), encode_utf8(b), encode_utf8(c));
}

pub proof fn lemma_key_lt_total(a: Seq<char>, b: Seq<char>)
    requires
        a != b,
    ensures
        key_lt(a, b) || key_lt(b, a),
{
    encode_utf8_decode_utf8(a);
    encode_utf8_decode_utf8(b);
    lemma_bytes_lt_total(encode_utf8(a), encode_utf8(b));
}

// ---------------------------------------------------------------------------
// Well-formedness
// ---------------------------------------------------------------------------

/// The keys of `es` are strictly increasing, so no key occurs twice.
pub open spec fn keys_sorted(es: Seq<(Seq<char>, JsonV)>) -> bool {
    forall|i: int, j: int| 0 <= i < j < es.len() ==> key_lt(#[trigger] es[i].0, #[trigger] es[j].0)
}

impl JsonV {
    /// Every object, at any depth, holds its keys sorted and unique.
    pub open spec fn wf(self) -> bool
        decreases self,
    {
        match self {
            JsonV::Array(a) => items_wf(a),
            JsonV::Object(es) => keys_sorted(es) && values_wf(es),
            _ => true,
        }
    }

    pub open spec fn is_object(self) -> bool {
        self is Object
    }
}

/// All items of `a` are well formed.
pub open spec fn items_wf(a: Seq<JsonV>) -> bool
    decreases a,
{
    forall|i: int| 0 <= i < a.len() ==> (#[trigger] a[i]).wf()
}

/// All values in `es` are well formed.
pub open spec fn values_wf(es: Seq<(Seq<char>, JsonV)>) -> bool
    decreases es,
{
    forall|i: int| 0 <= i < es.len() ==> (#[trigger] es[i]).1.wf()
}

// ---------------------------------------------------------------------------
// Object lookup and insertion
// ---------------------------------------------------------------------------

/// The value that `es` holds under `k`: that of its first entry with key `k`.
pub open spec fn obj_get(es: Seq<(Seq<char>, JsonV)>, k: Seq<char>) -> Option<JsonV>
    decreases es.len(),
{
    if es.len() == 0 {
        None
    } else if es[0].0 == k {
        Some(es[0].1)
    } else {
        obj_get(es.drop_first(), k)
    }
}

/// `es` with `k` set to `v`: the entry with key `k` is replaced, or a new
/// entry is put before the first key greater than `k`.
pub open spec fn obj_insert(es: Seq<(Seq<char>, JsonV)>, k: Seq<char>, v: JsonV) -> Seq<
    (Seq<char>, JsonV),
>
    decreases es.len(),
{
    if es.len() == 0 {
        seq![(k, v)]
    } else if es[0].0 == k {
        seq![(k, v)] + es.drop_first()
    } else if key_lt(k, es[0].0) {
        seq![(k, v)] + es
    } else {
        seq![es[0]] + obj_insert(es.drop_first(), k, v)
    }
}

/// Reading a key back after inserting it.
pub proof fn lemma_obj_get_insert(
    es: Seq<(Seq<char>, JsonV)>,
    k: Seq<char>,
    v: JsonV,
    k2: Seq<char>,
)
    ensures
        obj_get(obj_insert(es, k, v), k2) == if k2 == k {
            Some(v)
        } else {
            obj_get(es, k2)
        },
    decreases es.len(),
{
    let ins = obj_insert(es, k, v);
    if es.len() == 0 {
        assert(ins.drop_first() =~= Seq::<(Seq<char>, JsonV)>::empty());
    } else if es[0].0 == k {
        assert(ins.drop_first() =~= es.drop_first());
    } else if key_lt(k, es[0].0) {
        assert(ins.drop_first() =~= es);
    } else {
        assert(ins.drop_first() =~= obj_insert(es.drop_first(), k, v));
        lemma_obj_get_insert(es.drop_first(), k, v, k2);
    }
}

/// Every key of `obj_insert(es, k, v)` is `k` or a key of `es`, and every
/// value is `v` or a value of `es`: whatever holds of all of these holds of
/// the result.
pub proof fn lemma_obj_insert_bounds(
    es: Seq<(Seq<char>, JsonV)>,
    k: Seq<char>,
    v: JsonV,
    lo: Seq<char>,
)
    requires
        forall|i: int| 0 <= i < es.len() ==> key_lt(lo, #[trigger] es[i].0),
        key_lt(lo, k),
    ensures
        forall|i: int|
            0 <= i < obj_insert(es, k, v).len() ==> key_lt(lo, #[trigger] obj_insert(es, k, v)[i].0),
    decreases es.len(),
{
    let ins = obj_insert(es, k, v);
    if es.len() == 0 {
    } else if es[0].0 == k {
        assert forall|i: int| 0 <= i < ins.len() implies key_lt(lo, #[trigger] ins[i].0) by {
            if i > 0 {
                assert(ins[i] == es[i]);
            }
        }
    } else if key_lt(k, es[0].0) {
        assert forall|i: int| 0 <= i < ins.len() implies key_lt(lo, #[trigger] ins[i].0) by {
            if i > 0 {
                assert(ins[i] == es[i - 1]);
            }
        }
    } else {
        let rest = es.drop_first();
        assert forall|i: int| 0 <= i < rest.len() implies key_lt(lo, #[trigger] rest[i].0) by {
            assert(rest[i] == es[i + 1]);
        }
        lemma_obj_insert_bounds(rest, k, v, lo);
        assert forall|i: int| 0 <= i < ins.len() implies key_lt(lo, #[trigger] ins[i].0) by {
            if i > 0 {
                assert(ins[i] == obj_insert(rest, k, v)[i - 1]);
            }
        }
    }
}

/// Insertion keeps the keys sorted, and keeps all values well formed.
pub proof fn lemma_obj_insert_wf(es: Seq<(Seq<char>, JsonV)>, k: Seq<char>, v: JsonV)
    requires
        keys_sorted(es),
    ensures
        keys_sorted(obj_insert(es, k, v)),
        values_wf(es) && v.wf() ==> values_wf(obj_insert(es, k, v)),
    decreases es.len(),
{
    let ins = obj_insert(es, k, v);
    if es.len() == 0 {
    } else if es[0].0 == k {
        assert forall|i: int, j: int| 0 <= i < j < ins.len() implies key_lt(
            #[trigger] ins[i].0,
            #[trigger] ins[j].0,
        ) by {
            assert(ins[j] == es[j]);
            if i > 0 {
                assert(ins[i] == es[i]);
            }
        }
        if values_wf(es) && v.wf() {
            assert forall|i: int| 0 <= i < ins.len() implies #[trigger] ins[i].1.wf() by {
                if i > 0 {
                    assert(ins[i] == es[i]);
                }
            }
        }
    } else if key_lt(k, es[0].0) {
        assert forall|i: int, j: int| 0 <= i < j < ins.len() implies key_lt(
            #[trigger] ins[i].0,
            #[trigger] ins[j].0,
        ) by {
            assert(ins[j] == es[j - 1]);
            if i > 0 {
                assert(ins[i] == es[i - 1]);
            } else if j - 1 > 0 {
                lemma_key_lt_transitive(k, es[0].0, es[j - 1].0);
            }
        }
        if values_wf(es) && v.wf() {
            assert forall|i: int| 0 <= i < ins.len() implies #[trigger] ins[i].1.wf() by {
                if i > 0 {
                    assert(ins[i] == es[i - 1]);
                }
            }
        }
    } else {
        let rest = es.drop_first();
        assert(keys_sorted(rest)) by {
            assert forall|i: int, j: int| 0 <= i < j < rest.len() implies key_lt(
                #[trigger] rest[i].0,
                #[trigger] rest[j].0,
            ) by {
                assert(rest[i] == es[i + 1]);
                assert(rest[j] == es[j + 1]);
            }
        }
        lemma_obj_insert_wf(rest, k, v);
        lemma_key_lt_total(k, es[0].0);
        assert forall|i: int| 0 <= i < rest.len() implies key_lt(es[0].0, #[trigger] rest[i].0) by {
            assert(rest[i] == es[i + 1]);
        }
        lemma_obj_insert_bounds(rest, k, v, es[0].0);
        let ri = obj_insert(rest, k, v);
        assert(ins =~= seq![es[0]] + ri);
        assert forall|i: int, j: int| 0 <= i < j < ins.len() implies key_lt(
            #[trigger] ins[i].0,
            #[trigger] ins[j].0,
        ) by {
            assert(ins[j] == ri[j - 1]);
            if i > 0 {
                assert(ins[i] == ri[i - 1]);
            }
        }
        if values_wf(es) && v.wf() {
            assert(values_wf(rest)) by {
                assert forall|i: int| 0 <= i < rest.len() implies #[trigger] rest[i].1.wf() by {
                    assert(rest[i] == es[i + 1]);
                }
            }
            assert forall|i: int| 0 <= i < ins.len() implies #[trigger] ins[i].1.wf() by {
                if i > 0 {
                    assert(ins[i] == ri[i - 1]);
                }
            }
        }
    }
}

/// In a well-formed object the entry at position `i` is the one that lookup
/// finds under its key.
pub proof fn lemma_obj_get_sorted(es: Seq<(Seq<char>, JsonV)>, i: int)
    requires
        keys_sorted(es),
        0 <= i < es.len(),
    ensures
        obj_get(es, es[i].0) == Some(es[i].1),
    decreases es.len(),
{
    if i > 0 {
        lemma_key_lt_irreflexive(es[0].0);
        assert(key_lt(es[0].0, es[i].0));
        let rest = es.drop_first();
        assert(keys_sorted(rest)) by {
            assert forall|a: int, b: int| 0 <= a < b < rest.len() implies key_lt(
                #[trigger] rest[a].0,
                #[trigger] rest[b].0,
            ) by {
                assert(rest[a] == es[a + 1]);
                assert(rest[b] == es[b + 1]);
            }
        }
        assert(rest[i - 1] == es[i]);
        lemma_obj_get_sorted(rest, i - 1);
    }
}

/// A key that is not in `es` is found nowhere in it.
pub proof fn lemma_obj_get_none(es: Seq<(Seq<char>, JsonV)>, k: Seq<char>, i: int)
    requires
        obj_get(es, k) is None,
        0 <= i < es.len(),
    ensures
        es[i].0 != k,
    decreases es.len(),
{
    if i > 0 {
        assert(es.drop_first()[i - 1] == es[i]);
        lemma_obj_get_none(es.drop_first(), k, i - 1);
    }
}


/// Under `forall j < i: es[j].0 != k`, lookup may start at `i`.
pub proof fn lemma_obj_get_skip(es: Seq<(Seq<char>, JsonV)>, k: Seq<char>, i: int)
    requires
        0 <= i <= es.len(),
        forall|j: int| 0 <= j < i ==> #[trigger] es[j].0 != k,
    ensures
        obj_get(es, k) == obj_get(es.skip(i), k),
    decreases i,
{
    if i == 0 {
        assert(es.skip(0) =~= es);
    } else {
        let rest = es.drop_first();
        assert forall|j: int| 0 <= j < i - 1 implies #[trigger] rest[j].0 != k by {
            assert(rest[j] == es[j + 1]);
        }
        lemma_obj_get_skip(rest, k, i - 1);
        assert(rest.skip(i - 1) =~= es.skip(i));
    }
}

/// Under `forall j < i: es[j].0 < k`, insertion may start at `i`.
pub proof fn lemma_obj_insert_skip(es: Seq<(Seq<char>, JsonV)>, k: Seq<char>, v: JsonV, i: int)
    requires
        0 <= i <= es.len(),
        forall|j: int| 0 <= j < i ==> #[trigger] es[j].0 != k && !key_lt(k, es[j].0),
    ensures
        obj_insert(es, k, v) == es.take(i) + obj_insert(es.skip(i), k, v),
    decreases i,
{
    if i == 0 {
        assert(es.skip(0) =~= es);
        assert(es.take(0) + obj_insert(es.skip(0), k, v) =~= obj_insert(es, k, v));
    } else {
        let rest = es.drop_first();
        assert(es[0].0 != k && !key_lt(k, es[0].0));
        assert forall|j: int| 0 <= j < i - 1 implies #[trigger] rest[j].0 != k && !key_lt(
            k,
            rest[j].0,
        ) by {
            assert(rest[j] == es[j + 1]);
        }
        lemma_obj_insert_skip(rest, k, v, i - 1);
        assert(rest.skip(i - 1) =~= es.skip(i));
        assert(es.take(i) =~= seq![es[0]] + rest.take(i - 1));
        assert(obj_insert(es, k, v) =~= es.take(i) + obj_insert(es.skip(i), k, v));
    }
}

/// In a well-formed object, setting an existing key replaces its entry in place.
pub proof fn lemma_obj_insert_at(es: Seq<(Seq<char>, JsonV)>, p: int, k: Seq<char>, v: JsonV)
    requires
        keys_sorted(es),
        0 <= p < es.len(),
        es[p].0 == k,
    ensures
        obj_insert(es, k, v) == es.update(p, (k, v)),
{
    assert forall|j: int| 0 <= j < p implies #[trigger] es[j].0 != k && !key_lt(k, es[j].0) by {
        assert(key_lt(es[j].0, es[p].0));
        lemma_key_lt_irreflexive(k);
        if key_lt(k, es[j].0) {
            lemma_key_lt_transitive(k, es[j].0, k);
        }
    }
    lemma_obj_insert_skip(es, k, v, p);
    let tail = es.skip(p);
    assert(tail[0] == es[p]);
    assert(obj_insert(tail, k, v) == seq![(k, v)] + tail.drop_first());
    assert(es.take(p) + (seq![(k, v)] + tail.drop_first()) =~= es.update(p, (k, v)));
}

/// Setting a key twice is setting it to the second value.
pub proof fn lemma_obj_insert_insert(
    es: Seq<(Seq<char>, JsonV)>,
    k: Seq<char>,
    v1: JsonV,
    v2: JsonV,
)
    ensures
        obj_insert(obj_insert(es, k, v1), k, v2) == obj_insert(es, k, v2),
    decreases es.len(),
{
    let once = obj_insert(es, k, v1);
    if es.len() == 0 {
        assert(once.drop_first() =~= Seq::<(Seq<char>, JsonV)>::empty());
    } else if es[0].0 == k {
        assert(once.drop_first() =~= es.drop_first());
    } else if key_lt(k, es[0].0) {
        assert(once.drop_first() =~= es);
    } else {
        assert(once.drop_first() =~= obj_insert(es.drop_first(), k, v1));
        lemma_obj_insert_insert(es.drop_first(), k, v1, v2);
    }
}

/// What lookup finds is a value of the object.
pub proof fn lemma_obj_get_wf(es: Seq<(Seq<char>, JsonV)>, k: Seq<char>)
    requires
        values_wf(es),
    ensures
        obj_get(es, k) matches Some(v) ==> v.wf(),
    decreases es.len(),
{
    if es.len() > 0 && es[0].0 != k {
        let rest = es.drop_first();
        assert forall|i: int| 0 <= i < rest.len() implies #[trigger] rest[i].1.wf() by {
            assert(rest[i] == es[i + 1]);
        }
        lemma_obj_get_wf(rest, k);
    }
}

// ---------------------------------------------------------------------------
// Numbers
// ---------------------------------------------------------------------------

pub open spec fn digit_char(d: int) -> char {
    (d + 48) as char
}

/// Decimal text of a natural number.
pub open spec fn nat_text(n: nat) -> Seq<char>
    decreases n,
{
    if n < 10 {
        seq![digit_char(n as int)]
    } else {
        nat_text(n / 10).push(digit_char((n % 10) as int))
    }
}

/// Decimal text of an integer, as `serde_json` and `Display` write it.
pub open spec fn int_text(i: int) -> Seq<char> {
    if i < 0 {
        seq!['-'] + nat_text((-i) as nat)
    } else {
        nat_text(i as nat)
    }
}

fn digit_str(d: u64) -> (r: &'static str)
    requires
        d < 10,
    ensures
        r@ == seq![digit_char(d as int)],
{
    proof {
        reveal_strlit("0");
        reveal_strlit("1");
        reveal_strlit("2");
        reveal_strlit("3");
        reveal_strlit("4");
        reveal_strlit("5");
        reveal_strlit("6");
        reveal_strlit("7");
        reveal_strlit("8");
        reveal_strlit("9");
    }
    let r = if d == 0 {
        "0"
    } else if d == 1 {
        "1"
    } else if d == 2 {
        "2"
    } else if d == 3 {
        "3"
    } else if d == 4 {
        "4"
    } else if d == 5 {
        "5"
    } else if d == 6 {
        "6"
    } else if d == 7 {
        "7"
    } else if d == 8 {
        "8"
    } else {
        "9"
    };
    assert(r@ =~= seq![digit_char(d as int)]);
    r
}

/// The decimal text of `n`.
pub fn nat_string(n: u64) -> (r: String)
    ensures
        r@ == nat_text(n as nat),
    decreases n,
{
    let d = digit_str(n % 10);
    if n < 10 {
        d.to_owned()
    } else {
        let mut r = nat_string(n / 10);
        r.append(d);
        r
    }
}

/// The decimal text of `i`.
pub fn int_string(i: i64) -> (r: String)
    ensures
        r@ == int_text(i as int),
{
    if i < 0 {
        let m: u64 = if i == i64::MIN {
            9223372036854775808
        } else {
            (-i) as u64
        };
        let mut r = "-".to_owned();
        proof {
            reveal_strlit("-");
        }
        let t = nat_string(m);
        r.append(t.as_str());
        assert(r@ =~= int_text(i as int));
        r
    } else {
        nat_string(i as u64)
    }
}

pub open spec fn is_zero_text(t: Seq<char>) -> bool {
    t == seq!['0', '.', '0'] || t == seq!['-', '0', '.', '0']
}

/// Equality of numbers, as `serde_json` compares them: by value, which the
/// text shows exactly, except that `0.0` and `-0.0` are equal.
pub open spec fn num_eq(a: Seq<char>, b: Seq<char>) -> bool {
    a == b || (is_zero_text(a) && is_zero_text(b))
}

impl JsonNumber {
    /// The number `i`, as `serde_json::Value::from(i)` makes it.
    pub fn from_i64(i: i64) -> (r: JsonNumber)
        ensures
            r@ == int_text(i as int),
    {
        JsonNumber { text: int_string(i) }
    }

    /// The text of the number.
    pub fn as_str(&self) -> (r: &str)
        ensures
            r@ == self@,
    {
        self.text.as_str()
    }

    pub fn copy(&self) -> (r: JsonNumber)
        ensures
            r@ == self@,
    {
        JsonNumber { text: self.text.clone() }
    }

    fn is_zero(&self) -> (r: bool)
        ensures
            r == is_zero_text(self@),
    {
        let z = "0.0".to_owned();
        let nz = "-0.0".to_owned();
        proof {
            reveal_strlit("0.0");
            reveal_strlit("-0.0");
            assert("0.0"@ =~= seq!['0', '.', '0']);
            assert("-0.0"@ =~= seq!['-', '0', '.', '0']);
        }
        self.text == z || self.text == nz
    }

    /// Numeric equality.
    pub fn num_equal(&self, other: &JsonNumber) -> (r: bool)
        ensures
            r == num_eq(self@, other@),
    {
        self.text == other.text || (self.is_zero() && other.is_zero())
    }
}

// ---------------------------------------------------------------------------
// Equality
// ---------------------------------------------------------------------------

/// Equality of JSON values, as `serde_json::Value`'s `==` decides it: objects
/// compare entry by entry in key order, numbers by value.
pub open spec fn json_eq(a: JsonV, b: JsonV) -> bool
    decreases a,
{
    match a {
        JsonV::Null => b is Null,
        JsonV::Bool(x) => b == JsonV::Bool(x),
        JsonV::Number(x) => b is Number && num_eq(x, b->Number_0),
        JsonV::String(x) => b == JsonV::String(x),
        JsonV::Array(x) => b is Array && x.len() == b->Array_0.len() && forall|i: int|
            0 <= i < x.len() ==> json_eq(#[trigger] x[i], b->Array_0[i]),
        JsonV::Object(x) => b is Object && x.len() == b->Object_0.len() && forall|i: int|
            0 <= i < x.len() ==> #[trigger] x[i].0 == b->Object_0[i].0 && json_eq(
                x[i].1,
                b->Object_0[i].1,
            ),
    }
}

/// What two objects being equal says of their entries at `i`.
proof fn lemma_json_eq_entry(x: Seq<(Seq<char>, JsonV)>, w: JsonV, i: int)
    requires
        json_eq(JsonV::Object(x), w),
        0 <= i < x.len(),
    ensures
        w is Object,
        x.len() == w->Object_0.len(),
        x[i].0 == w->Object_0[i].0,
        json_eq(x[i].1, w->Object_0[i].1),
{
    let y = w->Object_0;
    assert(x[i].0 == y[i].0 && json_eq(x[i].1, y[i].1));
}

/// What two arrays being equal says of their items at `i`.
proof fn lemma_json_eq_item(x: Seq<JsonV>, w: JsonV, i: int)
    requires
        json_eq(JsonV::Array(x), w),
        0 <= i < x.len(),
    ensures
        w is Array,
        x.len() == w->Array_0.len(),
        json_eq(x[i], w->Array_0[i]),
{
}

/// The number that decimal digit characters spell.
pub open spec fn digit_chars_value(t: Seq<char>) -> int
    decreases t.len(),
{
    if t.len() == 0 {
        0
    } else {
        digit_chars_value(t.drop_last()) * 10 + (t.last() as int - 48)
    }
}

proof fn lemma_nat_text_digits(n: nat)
    ensures
        nat_text(n).len() >= 1,
        forall|k: int| 0 <= k < nat_text(n).len() ==> '0' <= #[trigger] nat_text(n)[k] <= '9',
        digit_chars_value(nat_text(n)) == n,
    decreases n,
{
    if n < 10 {
        let t = nat_text(n);
        assert(digit_char(n as int) as int == n + 48);
        assert(t.drop_last().len() == 0);
        assert(digit_chars_value(t.drop_last()) == 0);
    } else {
        lemma_nat_text_digits(n / 10);
        let t = nat_text(n);
        let r = (n % 10) as int;
        assert(digit_char(r) as int == r + 48);
        assert(t.drop_last() =~= nat_text(n / 10));
        assert(n == (n / 10) * 10 + r) by (nonlinear_arith)
            requires
                r == n % 10,
        ;
        assert forall|k: int| 0 <= k < t.len() implies '0' <= #[trigger] t[k] <= '9' by {
            if k < t.len() - 1 {
                assert(t[k] == nat_text(n / 10)[k]);
            }
        }
    }
}

proof fn lemma_int_text_shape(i: int)
    ensures
        i < 0 ==> int_text(i)[0] == '-' && int_text(i).drop_first() == nat_text((-i) as nat),
        i >= 0 ==> int_text(i) == nat_text(i as nat),
        !is_zero_text(int_text(i)),
{
    if i < 0 {
        let n = (-i) as nat;
        lemma_nat_text_digits(n);
        assert(int_text(i).drop_first() =~= nat_text(n));
        if int_text(i) == seq!['-', '0', '.', '0'] {
            assert(nat_text(n)[1] == int_text(i)[2]);
        }
        if int_text(i) == seq!['0', '.', '0'] {
            assert(int_text(i)[0] == '-');
        }
    } else {
        lemma_nat_text_digits(i as nat);
        if int_text(i) == seq!['0', '.', '0'] {
            assert(nat_text(i as nat)[1] == '.');
        }
        if int_text(i) == seq!['-', '0', '.', '0'] {
            assert(nat_text(i as nat)[0] == '-');
        }
    }
}

/// Integer numbers compare by value: two of them are equal exactly when
/// they are the same integer.
pub proof fn law_json_eq_integers(i: int, j: int)
    ensures
        json_eq(JsonV::Number(int_text(i)), JsonV::Number(int_text(j))) <==> i == j,
{
    lemma_int_text_shape(i);
    lemma_int_text_shape(j);
    if int_text(i) == int_text(j) {
        if i < 0 && j < 0 {
            lemma_nat_text_digits((-i) as nat);
            lemma_nat_text_digits((-j) as nat);
        } else if i >= 0 && j >= 0 {
            lemma_nat_text_digits(i as nat);
            lemma_nat_text_digits(j as nat);
        } else if i < 0 {
            lemma_nat_text_digits(j as nat);
            assert(nat_text(j as nat)[0] == '-');
        } else {
            lemma_nat_text_digits(i as nat);
            assert(nat_text(i as nat)[0] == '-');
        }
    }
}

/// Zero and negative zero are equal, as floats compare.
pub proof fn law_json_eq_signed_zero()
    ensures
        json_eq(JsonV::Number(seq!['0', '.', '0']), JsonV::Number(seq!['-', '0', '.', '0'])),
        json_eq(JsonV::Number(seq!['-', '0', '.', '0']), JsonV::Number(seq!['0', '.', '0'])),
{
}

/// The value a JSON keyword spells: `true`, `false` or `null`.
pub open spec fn keyword_value(t: Seq<char>) -> Option<JsonV> {
    if t == "true"@ {
        Some(JsonV::Bool(true))
    } else if t == "false"@ {
        Some(JsonV::Bool(false))
    } else if t == "null"@ {
        Some(JsonV::Null)
    } else {
        None
    }
}

/// A value with no number anywhere in it.
pub open spec fn number_free(v: JsonV) -> bool
    decreases v,
{
    match v {
        JsonV::Number(_) => false,
        JsonV::Array(a) => forall|i: int| 0 <= i < a.len() ==> number_free(#[trigger] a[i]),
        JsonV::Object(es) => forall|i: int| 0 <= i < es.len() ==> number_free(#[trigger] es[i].1),
        _ => true,
    }
}

/// Without numbers, JSON equality is identity: `null`, booleans and strings
/// equal only themselves, and arrays and objects equal only the same items
/// and entries in the same order.
pub proof fn law_json_eq_without_numbers(v: JsonV, w: JsonV)
    requires
        number_free(v),
    ensures
        json_eq(v, w) <==> v == w,
    decreases v,
{
    law_json_eq_reflexive(v);
    match v {
        JsonV::Array(x) => {
            if json_eq(v, w) {
                let y = w->Array_0;
                assert forall|i: int| 0 <= i < x.len() implies x[i] == y[i] by {
                    lemma_json_eq_item(x, w, i);
                    assert(decreases_to!(v => x));
                    assert(decreases_to!(x => x[i]));
                    law_json_eq_without_numbers(x[i], y[i]);
                }
                if x.len() > 0 {
                    lemma_json_eq_item(x, w, 0);
                }
                assert(x =~= y);
            }
        },
        JsonV::Object(x) => {
            if json_eq(v, w) {
                let y = w->Object_0;
                assert forall|i: int| 0 <= i < x.len() implies x[i] == y[i] by {
                    lemma_json_eq_entry(x, w, i);
                    assert(decreases_to!(v => x));
                    assert(decreases_to!(x => x[i]));
                    assert(decreases_to!(x[i] => x[i].1));
                    assert(number_free(x[i].1));
                    law_json_eq_without_numbers(x[i].1, y[i].1);
                }
                if x.len() > 0 {
                    lemma_json_eq_entry(x, w, 0);
                } else {
                    assert(w is Object && y.len() == 0);
                }
                assert(x =~= y);
            }
        },
        _ => {},
    }
}

/// Every value equals itself.
pub proof fn law_json_eq_reflexive(v: JsonV)
    ensures
        json_eq(v, v),
    decreases v,
{
    match v {
        JsonV::Array(x) => {
            assert forall|i: int| 0 <= i < x.len() implies json_eq(#[trigger] x[i], v->Array_0[i]) by {
                assert(decreases_to!(v => x));
                assert(decreases_to!(x => x[i]));
                law_json_eq_reflexive(x[i]);
            }
            assert(json_eq(v, v));
        },
        JsonV::Object(x) => {
            assert forall|i: int|
                #![trigger x[i]]
                0 <= i < x.len() implies x[i].0 == v->Object_0[i].0 && json_eq(
                    x[i].1,
                    v->Object_0[i].1,
                ) by {
                assert(decreases_to!(v => x));
                assert(decreases_to!(x => x[i]));
                assert(decreases_to!(x[i] => x[i].1));
                law_json_eq_reflexive(x[i].1);
            }
            assert(json_eq(v, v));
        },
        _ => {},
    }
}

proof fn lemma_json_eq_flip(a: JsonV, b: JsonV)
    requires
        json_eq(a, b),
    ensures
        json_eq(b, a),
    decreases a,
{
    match a {
        JsonV::Array(x) => {
            let y = b->Array_0;
            if x.len() > 0 {
                lemma_json_eq_item(x, b, 0);
            }
            assert forall|i: int| 0 <= i < y.len() implies json_eq(#[trigger] y[i], a->Array_0[i]) by {
                lemma_json_eq_item(x, b, i);
                assert(decreases_to!(a => x));
                assert(decreases_to!(x => x[i]));
                lemma_json_eq_flip(x[i], y[i]);
            }
            assert(json_eq(b, a));
        },
        JsonV::Object(x) => {
            let y = b->Object_0;
            if x.len() > 0 {
                lemma_json_eq_entry(x, b, 0);
            }
            assert forall|i: int|
                #![trigger y[i]]
                0 <= i < y.len() implies y[i].0 == a->Object_0[i].0 && json_eq(
                    y[i].1,
                    a->Object_0[i].1,
                ) by {
                lemma_json_eq_entry(x, b, i);
                assert(decreases_to!(a => x));
                assert(decreases_to!(x => x[i]));
                assert(decreases_to!(x[i] => x[i].1));
                lemma_json_eq_flip(x[i].1, y[i].1);
            }
            assert(json_eq(b, a));
        },
        _ => {},
    }
}

/// Equality does not depend on the order of its arguments.
pub proof fn law_json_eq_symmetric(a: JsonV, b: JsonV)
    ensures
        json_eq(a, b) == json_eq(b, a),
{
    if json_eq(a, b) {
        lemma_json_eq_flip(a, b);
    }
    if json_eq(b, a) {
        lemma_json_eq_flip(b, a);
    }
}

impl Json {
    /// Whether `self == other`, as `serde_json::Value` compares.
    pub fn json_equal(&self, other: &Json) -> (r: bool)
        ensures
            r == json_eq(self@, other@),
        decreases self,
    {
        match self {
            Json::Null => match other {
                Json::Null => true,
                _ => false,
            },
            Json::Bool(x) => match other {
                Json::Bool(y) => *x == *y,
                _ => false,
            },
            Json::Number(x) => match other {
                Json::Number(y) => x.num_equal(y),
                _ => false,
            },
            Json::String(x) => match other {
                Json::String(y) => *x == *y,
                _ => false,
            },
            Json::Array(x) => match other {
                Json::Array(y) => {
                    proof {
                        lemma_array_view(*x);
                        lemma_array_view(*y);
                    }
                    if x.len() != y.len() {
                        return false;
                    }
                    let mut i: usize = 0;
                    while i < x.len()
                        invariant
                            i <= x@.len(),
                            x@.len() == y@.len(),
                            self@ == JsonV::Array(values_view(x@)),
                            other@ == JsonV::Array(values_view(y@)),
                            *self == Json::Array(*x),
                            forall|j: int|
                                0 <= j < i ==> json_eq(#[trigger] values_view(x@)[j], values_view(y@)[j]),
                        decreases x@.len() - i,
                    {
                        assert(values_view(x@)[i as int] == x@[i as int]@);
                        assert(values_view(y@)[i as int] == y@[i as int]@);
                        if !x[i].json_equal(&y[i]) {
                            return false;
                        }
                        i += 1;
                    }
                    true
                },
                _ => false,
            },
            Json::Object(x) => match other {
                Json::Object(y) => {
                    proof {
                        lemma_object_view(*x);
                        lemma_object_view(*y);
                    }
                    if x.len() != y.len() {
                        return false;
                    }
                    let mut i: usize = 0;
                    while i < x.len()
                        invariant
                            i <= x@.len(),
                            x@.len() == y@.len(),
                            self@ == JsonV::Object(entries_view(x@)),
                            other@ == JsonV::Object(entries_view(y@)),
                            *self == Json::Object(*x),
                            forall|j: int|
                                #![trigger entries_view(x@)[j]]
                                0 <= j < i ==> entries_view(x@)[j].0 == entries_view(y@)[j].0
                                    && json_eq(entries_view(x@)[j].1, entries_view(y@)[j].1),
                        decreases x@.len() - i,
                    {
                        assert(entries_view(x@)[i as int] == (x@[i as int].0@, x@[i as int].1@));
                        assert(entries_view(y@)[i as int] == (y@[i as int].0@, y@[i as int].1@));
                        let same_key = x[i].0 == y[i].0;
                        let same_value = x[i].1.json_equal(&y[i].1);
                        assert(same_key == (entries_view(x@)[i as int].0 == entries_view(y@)[i as int].0));
                        assert(same_value == json_eq(entries_view(x@)[i as int].1, entries_view(y@)[i as int].1));
                        if !same_key || !same_value {
                            return false;
                        }
                        assert(entries_view(x@)[i as int].0 == entries_view(y@)[i as int].0
                            && json_eq(entries_view(x@)[i as int].1, entries_view(y@)[i as int].1));
                        i += 1;
                    }
                    true
                },
                _ => false,
            },
        }
    }

    /// The empty object `{}`.
    pub fn empty_object() -> (r: Json)
        ensures
            r@ == JsonV::Object(Seq::empty()),
            r@.wf(),
    {
        let es: Vec<(String, Json)> = Vec::new();
        proof {
            lemma_object_view(es);
            assert(entries_view(es@) =~= Seq::<(Seq<char>, JsonV)>::empty());
        }
        Json::Object(es)
    }

    /// A copy of the value.
    pub fn deep_clone(&self) -> (r: Json)
        ensures
            r@ == self@,
        decreases self,
    {
        match self {
            Json::Null => Json::Null,
            Json::Bool(b) => Json::Bool(*b),
            Json::Number(n) => Json::Number(n.copy()),
            Json::String(s) => Json::String(s.clone()),
            Json::Array(v) => {
                let mut out: Vec<Json> = Vec::new();
                let mut i: usize = 0;
                while i < v.len()
                    invariant
                        i <= v@.len(),
                        out@.len() == i,
                        *self == Json::Array(*v),
                        forall|j: int| 0 <= j < i ==> #[trigger] out@[j]@ == v@[j]@,
                    decreases v@.len() - i,
                {
                    proof {
                        assert(decreases_to!(*self => (*self)->Array_0));
                        assert(decreases_to!((*self)->Array_0 => v@));
                        assert(decreases_to!(v@ => v@[i as int]));
                    }
                    out.push(v[i].deep_clone());
                    i += 1;
                }
                proof {
                    lemma_array_view(*v);
                    lemma_array_view(out);
                    assert(values_view(out@) =~= values_view(v@));
                }
                Json::Array(out)
            },
            Json::Object(es) => {
                let mut out: Vec<(String, Json)> = Vec::new();
                let mut i: usize = 0;
                while i < es.len()
                    invariant
                        i <= es@.len(),
                        out@.len() == i,
                        *self == Json::Object(*es),
                        forall|j: int|
                            0 <= j < i ==> #[trigger] out@[j].0@ == es@[j].0@ && out@[j].1@
                                == es@[j].1@,
                    decreases es@.len() - i,
                {
                    proof {
                        assert(decreases_to!(*self => (*self)->Object_0));
                        assert(decreases_to!((*self)->Object_0 => es@));
                        assert(decreases_to!(es@ => es@[i as int]));
                        assert(decreases_to!(es@[i as int] => es@[i as int].1));
                    }
                    out.push((es[i].0.clone(), es[i].1.deep_clone()));
                    i += 1;
                }
                proof {
                    lemma_object_view(*es);
                    lemma_object_view(out);
                    assert(entries_view(out@) =~= entries_view(es@));
                }
                Json::Object(out)
            },
        }
    }
}

// ---------------------------------------------------------------------------
// Object entries
// ---------------------------------------------------------------------------

/// Whether two strings are equal.
pub fn str_equal(a: &str, b: &str) -> (r: bool)
    ensures
        r == (a@ == b@),
{
    let ab = a.as_bytes();
    let bb = b.as_bytes();
    proof {
        encode_utf8_decode_utf8(a@);
        encode_utf8_decode_utf8(b@);
    }
    if ab.len() != bb.len() {
        return false;
    }
    let mut i: usize = 0;
    while i < ab.len()
        invariant
            i <= ab@.len(),
            ab@ == encode_utf8(a@),
            bb@ == encode_utf8(b@),
            ab@.len() == bb@.len(),
            forall|j: int| 0 <= j < i ==> ab@[j] == bb@[j],
        decreases ab@.len() - i,
    {
        if ab[i] != bb[i] {
            return false;
        }
        i += 1;
    }
    assert(ab@ =~= bb@);
    true
}

/// Whether key `a` sorts before key `b`.
pub fn key_less(a: &str, b: &str) -> (r: bool)
    ensures
        r == key_lt(a@, b@),
{
    let ab = a.as_bytes();
    let bb = b.as_bytes();
    let ghost x = ab@;
    let ghost y = bb@;
    assert(x.skip(0) =~= x);
    assert(y.skip(0) =~= y);
    let mut i: usize = 0;
    while i < ab.len() && i < bb.len()
        invariant
            i <= x.len(),
            i <= y.len(),
            x == ab@,
            y == bb@,
            x == encode_utf8(a@),
            y == encode_utf8(b@),
            bytes_lt(x, y) == bytes_lt(x.skip(i as int), y.skip(i as int)),
        decreases x.len() - i,
    {
        assert(x.skip(i as int)[0] == x[i as int]);
        assert(y.skip(i as int)[0] == y[i as int]);
        assert(x.skip(i as int).len() > 0 && y.skip(i as int).len() > 0);
        if ab[i] != bb[i] {
            assert(bytes_lt(x.skip(i as int), y.skip(i as int)) == (x[i as int] < y[i as int]));
            return ab[i] < bb[i];
        }
        assert(x.skip(i as int).drop_first() =~= x.skip(i + 1));
        assert(y.skip(i as int).drop_first() =~= y.skip(i + 1));
        i += 1;
    }
    ab.len() < bb.len()
}

/// Position of key `k` in `es`, if it is there.
pub fn entries_find(es: &Vec<(String, Json)>, k: &str) -> (r: Option<usize>)
    ensures
        match r {
            Some(i) => i < es@.len() && es@[i as int].0@ == k@ && obj_get(entries_view(es@), k@)
                == Some(es@[i as int].1@) && forall|j: int|
                0 <= j < i ==> #[trigger] es@[j].0@ != k@,
            None => obj_get(entries_view(es@), k@) is None,
        },
{
    let ghost ev = entries_view(es@);
    let mut i: usize = 0;
    while i < es.len()
        invariant
            i <= es@.len(),
            ev == entries_view(es@),
            forall|j: int| 0 <= j < i ==> #[trigger] ev[j].0 != k@,
        decreases es@.len() - i,
    {
        assert(ev[i as int].0 == es@[i as int].0@);
        assert(forall|j: int| 0 <= j < i ==> #[trigger] es@[j].0@ == ev[j].0);
        if str_equal(es[i].0.as_str(), k) {
            proof {
                lemma_obj_get_skip(ev, k@, i as int);
                assert(ev.skip(i as int)[0] == ev[i as int]);
            }
            return Some(i);
        }
        i += 1;
    }
    proof {
        lemma_obj_get_skip(ev, k@, i as int);
        assert(ev.skip(i as int).len() == 0);
    }
    None
}

/// The value that `es` holds under `k`.
pub fn entries_get<'a>(es: &'a Vec<(String, Json)>, k: &str) -> (r: Option<&'a Json>)
    ensures
        match r {
            Some(v) => obj_get(entries_view(es@), k@) == Some(v@),
            None => obj_get(entries_view(es@), k@) is None,
        },
{
    match entries_find(es, k) {
        Some(i) => Some(&es[i].1),
        None => None,
    }
}

/// Sets `k` to `v` in `es`.
pub fn entries_insert(es: &mut Vec<(String, Json)>, k: String, v: Json)
    ensures
        entries_view(final(es)@) == obj_insert(entries_view(old(es)@), k@, v@),
{
    let ghost e0 = entries_view(es@);
    let mut i: usize = 0;
    while i < es.len()
        invariant
            i <= es@.len(),
            e0 == entries_view(es@),
            es@ == old(es)@,
            forall|j: int| 0 <= j < i ==> #[trigger] e0[j].0 != k@ && !key_lt(k@, e0[j].0),
        decreases es@.len() - i,
    {
        if es[i].0 == k {
            proof {
                lemma_obj_insert_skip(e0, k@, v@, i as int);
            }
            let ghost kv = k@;
            let ghost vv = v@;
            es.set(i, (k, v));
            proof {
                assert(entries_view(es@) =~= e0.take(i as int) + obj_insert(
                    e0.skip(i as int),
                    kv,
                    vv,
                ));
            }
            return ;
        }
        if key_less(k.as_str(), es[i].0.as_str()) {
            proof {
                lemma_obj_insert_skip(e0, k@, v@, i as int);
            }
            let ghost kv = k@;
            let ghost vv = v@;
            es.insert(i, (k, v));
            proof {
                assert(entries_view(es@) =~= e0.take(i as int) + obj_insert(
                    e0.skip(i as int),
                    kv,
                    vv,
                ));
            }
            return ;
        }
        i += 1;
    }
    proof {
        lemma_obj_insert_skip(e0, k@, v@, i as int);
        assert(e0.skip(i as int) =~= Seq::<(Seq<char>, JsonV)>::empty());
    }
    let ghost kv = k@;
    let ghost vv = v@;
    es.push((k, v));
    proof {
        assert(entries_view(es@) =~= e0.take(i as int) + obj_insert(e0.skip(i as int), kv, vv));
    }
}


// ---------------------------------------------------------------------------
// `serde_json`
// ---------------------------------------------------------------------------

#[verifier::external_type_specification]
#[verifier::external_body]
pub struct ExSerdeValue(serde_json::Value);

/// What `serde_json::from_str::<serde_json::Value>` makes of a text: the
/// value, or the text of its error.
pub uninterp spec fn spec_from_str(text: Seq<char>) -> Result<JsonV, Seq<char>>;

/// What `serde_json::Value`'s `Display` (its compact JSON text) writes.
pub uninterp spec fn spec_to_string(v: JsonV) -> Seq<char>;

/// A `serde_json::Value` as a `Json`, entry for entry.
#[verifier::external_body]
fn json_of_serde(v: &serde_json::Value) -> Json {
    match v {
        serde_json::Value::Null => Json::Null,
        serde_json::Value::Bool(b) => Json::Bool(*b),
        serde_json::Value::Number(n) => Json::Number(JsonNumber { text: n.to_string() }),
        serde_json::Value::String(s) => Json::String(s.clone()),
        serde_json::Value::Array(a) => Json::Array(a.iter().map(json_of_serde).collect()),
        serde_json::Value::Object(m) => Json::Object(
            m.iter().map(|(k, x)| (k.clone(), json_of_serde(x))).collect(),
        ),
    }
}

/// A `Json` as a `serde_json::Value`, entry for entry.
#[verifier::external_body]
fn serde_of_json(v: &Json) -> serde_json::Value {
    match v {
        Json::Null => serde_json::Value::Null,
        Json::Bool(b) => serde_json::Value::Bool(*b),
        Json::Number(n) => n.text.parse::<serde_json::Number>().map(serde_json::Value::Number).unwrap_or(
            serde_json::Value::Null,
        ),
        Json::String(s) => serde_json::Value::String(s.clone()),
        Json::Array(a) => serde_json::Value::Array(a.iter().map(serde_of_json).collect()),
        Json::Object(es) => serde_json::Value::Object(
            es.iter().map(|(k, x)| (k.clone(), serde_of_json(x))).collect(),
        ),
    }
}

/// Calls `serde_json::from_str::<serde_json::Value>`. Trusted: the result is
/// `spec_from_str` of the text, and a parsed value holds its object keys as
/// `serde_json::Map` does, sorted and unique. What the function accepts and
/// what it makes of it (the JSON grammar) is not stated.
#[verifier::external_body]
fn serde_from_str(text: &str) -> (r: Result<Json, String>)
    ensures
        match r {
            Ok(v) => spec_from_str(text@) == Ok::<JsonV, Seq<char>>(v@) && v@.wf(),
            Err(m) => spec_from_str(text@) == Err::<JsonV, Seq<char>>(m@),
        },
{
    match serde_json::from_str::<serde_json::Value>(text) {
        Ok(v) => Ok(json_of_serde(&v)),
        Err(e) => Err(e.to_string()),
    }
}

/// Calls `Display` of `serde_json::Value` (its compact JSON text). Trusted:
/// the result is `spec_to_string` of the value; the text itself is not
/// stated.
#[verifier::external_body]
fn serde_to_string(v: &Json) -> (r: String)
    ensures
        r@ == spec_to_string(v@),
{
    serde_of_json(v).to_string()
}

/// Model of the outcome of reading JSON text: the value, or the message.
pub open spec fn parsed_view(r: Result<Json, String>) -> Result<JsonV, Seq<char>> {
    match r {
        Ok(v) => Ok(v@),
        Err(m) => Err(m@),
    }
}

/// A read value is well formed.
pub open spec fn parsed_wf(r: Result<Json, String>) -> bool {
    r matches Ok(v) ==> v@.wf()
}

/// Parses JSON text, as `serde_json::from_str` does: the value, or the text
/// of the error.
pub fn parse_json(text: &str) -> (r: Result<Json, String>)
    ensures
        match r {
            Ok(v) => spec_from_str(text@) == Ok::<JsonV, Seq<char>>(v@) && v@.wf(),
            Err(m) => spec_from_str(text@) == Err::<JsonV, Seq<char>>(m@),
        },
{
    serde_from_str(text)
}

impl Json {
    /// The compact JSON text of the value, as `serde_json` writes it.
    pub fn to_json_string(&self) -> (r: String)
        ensures
            r@ == spec_to_string(self@),
    {
        serde_to_string(self)
    }
}

// ---------------------------------------------------------------------------
// `Debug` text, for messages
// ---------------------------------------------------------------------------

/// What `format!("{:?}", s)` writes for a string: the string quoted, with
/// escapes.
pub uninterp spec fn spec_debug_str(s: Seq<char>) -> Seq<char>;

/// What `format!("{:?}", c)` writes for a character.
pub uninterp spec fn spec_debug_char(c: char) -> Seq<char>;

/// Calls `<str as Debug>::fmt`. Trusted: the result is `spec_debug_str` of
/// the string.
#[verifier::external_body]
pub(crate) fn debug_str(s: &str) -> (r: String)
    ensures
        r@ == spec_debug_str(s@),
{
    format!("{:?}", s)
}

/// Calls `<char as Debug>::fmt`. Trusted: the result is `spec_debug_char` of
/// the character.
#[verifier::external_body]
pub(crate) fn debug_char(c: char) -> (r: String)
    ensures
        r@ == spec_debug_char(c),
{
    format!("{:?}", c)
}

} // verus!
