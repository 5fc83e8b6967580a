//! Where the base comes from, and what the output holds besides the
//! configs themselves: the `--with-axes` envelope, the manifest lines and
//! the names of the files that `--out-dir` writes.
use vstd::prelude::*;
use vstd::string::*;
use crate::json::{lemma_object_view, entries_insert, entries_view, nat_string, nat_text, obj_insert, Json, JsonV};
use crate::sweep::{ItemV, SweepItem};

verus! {

/// Where the base comes from.
#[derive(Debug, PartialEq)]
pub enum BaseSource {
    /// The bytes read from stdin.
    StdinBuffer(Vec<u8>),
    /// A file, by path.
    File(String),
}

/// Model of a `BaseSource`.
pub enum BaseSourceV {
    StdinBuffer(Seq<u8>),
    File(Seq<char>),
}

impl View for BaseSource {
    type V = BaseSourceV;

    open spec fn view(&self) -> BaseSourceV {
        match self {
            BaseSource::StdinBuffer(b) => BaseSourceV::StdinBuffer(b@),
            BaseSource::File(p) => BaseSourceV::File(p@),
        }
    }
}

proof fn lemma_text_len_le(n: nat)
    requires
        n >= 1,
    ensures
        nat_text(n).len() <= n,
    decreases n,
{
    if n >= 10 {
        lemma_text_len_le(n / 10);
    }
}

proof fn lemma_text_len_pos(n: nat)
    ensures
        nat_text(n).len() >= 1,
{
}

/// The number of decimal digits of `n`.
fn digit_count(n: usize) -> (r: usize)
    ensures
        r == nat_text(n as nat).len(),
{
    let mut m = n;
    let mut digits: usize = 1;
    proof {
        if n >= 1 {
            lemma_text_len_le(n as nat);
        }
    }
    while m >= 10
        invariant
            1 <= digits,
            digits - 1 + nat_text(m as nat).len() == nat_text(n as nat).len(),
            n >= 1 ==> nat_text(n as nat).len() <= n,
            m <= n,
        decreases m,
    {
        proof {
            lemma_text_len_pos((m / 10) as nat);
        }
        m = m / 10;
        digits += 1;
    }
    digits
}

/// The width of the numbered file names for `cardinality` files: enough
/// digits for the largest number, and at least four.
pub open spec fn spec_file_width(cardinality: nat) -> nat {
    if nat_text(cardinality).len() > 4 {
        nat_text(cardinality).len()
    } else {
        4
    }
}

pub fn file_width(cardinality: usize) -> (r: usize)
    ensures
        r == spec_file_width(cardinality as nat),
{
    let natural = digit_count(cardinality);
    if natural > 4 {
        natural
    } else {
        4
    }
}

/// `t` with zeros in front up to `width` characters.
pub open spec fn zero_pad(t: Seq<char>, width: nat) -> Seq<char> {
    if t.len() < width {
        Seq::new((width - t.len()) as nat, |i: int| '0') + t
    } else {
        t
    }
}

/// The name of the file for the `number`-th config: the number, zero-padded
/// to `width`, then `.json`.
pub fn file_name(number: usize, width: usize) -> (r: String)
    ensures
        r@ == zero_pad(nat_text(number as nat), width as nat) + ".json"@,
{
    let count = digit_count(number);
    let mut s = String::new();
    let mut k = count;
    proof {
        reveal_strlit("0");
    }
    while k < width
        invariant
            count <= k <= width || (k == count && count >= width),
            count == nat_text(number as nat).len(),
            s@ == Seq::new((k - count) as nat, |i: int| '0'),
        decreases width - k,
    {
        s.append("0");
        proof {
            reveal_strlit("0");
            assert(s@ =~= Seq::new((k + 1 - count) as nat, |i: int| '0'));
        }
        k += 1;
    }
    let digits = nat_string(number as u64);
    s.append(digits.as_str());
    s.append(".json");
    proof {
        assert(s@ =~= zero_pad(nat_text(number as nat), width as nat) + ".json"@);
    }
    s
}

/// A copy of the entries of an object.
fn copy_entries(es: &Vec<(String, Json)>) -> (r: Vec<(String, Json)>)
    ensures
        entries_view(r@) == entries_view(es@),
{
    let mut out: Vec<(String, Json)> = Vec::new();
    let mut i: usize = 0;
    while i < es.len()
        invariant
            i <= es@.len(),
            out@.len() == i,
            forall|k: int|
                0 <= k < i ==> (#[trigger] out@[k]).0@ == es@[k].0@ && out@[k].1@ == es@[k].1@,
        decreases es@.len() - i,
    {
        out.push((es[i].0.clone(), es[i].1.deep_clone()));
        i += 1;
    }
    assert(entries_view(out@) =~= entries_view(es@));
    out
}

/// `{"axes": {...}, "config": ...}`: a config with the value each axis gave
/// it.
pub open spec fn envelope_view(it: ItemV) -> JsonV {
    JsonV::Object(
        obj_insert(obj_insert(seq![], "axes"@, JsonV::Object(it.axes)), "config"@, it.config),
    )
}

/// The `--with-axes` line of an item.
pub fn envelope(item: &SweepItem) -> (r: Json)
    ensures
        r@ == envelope_view(item@),
{
    let mut es: Vec<(String, Json)> = Vec::new();
    assert(entries_view(es@) =~= seq![]);
    let axes = copy_entries(&item.axes);
    proof {
        lemma_object_view(axes);
    }
    entries_insert(&mut es, "axes".to_owned(), Json::Object(axes));
    entries_insert(&mut es, "config".to_owned(), item.config.deep_clone());
    proof {
        lemma_object_view(es);
    }
    Json::Object(es)
}

/// `{"path": ..., "axes": {...}}`: the manifest line of a written file.
pub open spec fn manifest_view(name: Seq<char>, it: ItemV) -> JsonV {
    JsonV::Object(
        obj_insert(obj_insert(seq![], "path"@, JsonV::String(name)), "axes"@, JsonV::Object(it.axes)),
    )
}

/// The manifest line of the file `name` that holds `item`.
pub fn manifest_line(name: &str, item: &SweepItem) -> (r: Json)
    ensures
        r@ == manifest_view(name@, item@),
{
    let mut es: Vec<(String, Json)> = Vec::new();
    assert(entries_view(es@) =~= seq![]);
    let axes = copy_entries(&item.axes);
    proof {
        lemma_object_view(axes);
    }
    entries_insert(&mut es, "path".to_owned(), Json::String(name.to_owned()));
    entries_insert(&mut es, "axes".to_owned(), Json::Object(axes));
    proof {
        lemma_object_view(es);
    }
    Json::Object(es)
}

} // verus!
