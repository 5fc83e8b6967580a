//! The decisions of the command line: which positional is the base and
//! which are axes, reading the axes, loading the base, running the sweep,
//! and what each failure is reported as.
use vstd::prelude::*;
use vstd::string::*;
use vstd::utf8::encode_utf8;
use crate::generator::{expandable, generator_wf, parse_generator, spec_generator_values, spec_parse_generator, Generator, GeneratorV};
use crate::json::{obj_insert, items_wf, debug_str, nat_string, nat_text, parse_json, parsed_view, parsed_wf, spec_debug_str, spec_from_str, str_equal, values_view, Json, JsonV};
use crate::merge::apply_error_text;
use crate::path::{close_bracket_from, find_close_bracket, lemma_close_bracket_bounds, expand_template, expansions_view, parse_path, paths_view, ranges_bounded, spec_expand_template, spec_parse_path, templates_view, templates_wf, ExpansionV, Segment, SegmentTemplate, TemplateV, segs_view};
use crate::sweep::{apply_paths, combine, spec_cardinality, spec_index_for, spec_items, value_counts, axes_view, axes_wf, first_mismatch_from, expand, items_view, spec_expand, Axis, AxisV, ItemV, Mode, SweepError, SweepErrorV, SweepItem};
use crate::io::{BaseSource, BaseSourceV};
use crate::text::{lemma_cut_after, lemma_str_valid, str_slice, text_of};

verus! {

broadcast use vstd::seq_lib::group_seq_properties;

// ---------------------------------------------------------------------------
// Errors
// ---------------------------------------------------------------------------

/// Why the program stops with a failure.
#[derive(Debug, PartialEq)]
pub enum AppError {
    /// A malformed command line or sweep.
    Usage(String),
    /// A malformed base.
    Input(String),
    /// A failed read or write.
    Io(String),
}

/// Model of an `AppError`.
pub enum AppErrorV {
    Usage(Seq<char>),
    Input(Seq<char>),
    Io(Seq<char>),
}

impl View for AppError {
    type V = AppErrorV;

    open spec fn view(&self) -> AppErrorV {
        match self {
            AppError::Usage(m) => AppErrorV::Usage(m@),
            AppError::Input(m) => AppErrorV::Input(m@),
            AppError::Io(m) => AppErrorV::Io(m@),
        }
    }
}

/// The exit status for an error: 1 for a usage error, 2 for bad input or
/// a failed read or write.
pub open spec fn app_exit_code(e: AppErrorV) -> u8 {
    match e {
        AppErrorV::Usage(_) => 1,
        AppErrorV::Input(_) => 2,
        AppErrorV::Io(_) => 2,
    }
}

/// The message of an error.
pub open spec fn app_message(e: AppErrorV) -> Seq<char> {
    match e {
        AppErrorV::Usage(m) => m,
        AppErrorV::Input(m) => m,
        AppErrorV::Io(m) => m,
    }
}

impl AppError {
    pub fn exit_code(&self) -> (r: u8)
        ensures
            r == app_exit_code(self@),
    {
        match self {
            AppError::Usage(_) => 1,
            AppError::Input(_) => 2,
            AppError::Io(_) => 2,
        }
    }

    pub fn message(&self) -> (r: &str)
        ensures
            r@ == app_message(self@),
    {
        match self {
            AppError::Usage(m) => m.as_str(),
            AppError::Input(m) => m.as_str(),
            AppError::Io(m) => m.as_str(),
        }
    }
}

// ---------------------------------------------------------------------------
// Positionals
// ---------------------------------------------------------------------------

/// Whether the bytes hold `=`.
pub open spec fn has_eq(b: Seq<u8>) -> bool {
    exists|i: int| 0 <= i < b.len() && b[i] == 61
}

/// A positional without `=`, or `-`, names the base; the others are axes.
pub open spec fn is_base_arg(raw: Seq<char>) -> bool {
    raw == "-"@ || !has_eq(encode_utf8(raw))
}

/// The base positional and the axis positionals (with their indices) of
/// `ps[i..]`, after `base` and `axes` were found before `i`; an error for a
/// second base.
pub open spec fn scan_positionals(
    ps: Seq<String>,
    i: int,
    base: Option<Seq<char>>,
    axes: Seq<(int, Seq<char>)>,
) -> Result<(Option<Seq<char>>, Seq<(int, Seq<char>)>), AppErrorV>
    decreases ps.len() - i,
{
    if i < 0 || i >= ps.len() {
        Ok((base, axes))
    } else if is_base_arg(ps[i]@) {
        match base {
            Some(existing) => Err(
                AppErrorV::Usage(
                    "at most one BASE positional allowed; saw "@ + spec_debug_str(existing)
                        + " and "@ + spec_debug_str(ps[i]@),
                ),
            ),
            None => scan_positionals(ps, i + 1, Some(ps[i]@), axes),
        }
    } else {
        scan_positionals(ps, i + 1, base, axes.push((i, ps[i]@)))
    }
}

/// What `partition_positionals` gives: the base source, from the base
/// positional and whether stdin holds bytes, and the axis positionals.
pub open spec fn spec_partition(ps: Seq<String>, stdin: Option<Seq<u8>>) -> Result<
    (BaseSourceV, Seq<(int, Seq<char>)>),
    AppErrorV,
> {
    match scan_positionals(ps, 0, None, seq![]) {
        Err(e) => Err(e),
        Ok((base, axes)) => match base {
            Some(b) => if b == "-"@ {
                match stdin {
                    Some(buf) => Ok((BaseSourceV::StdinBuffer(buf), axes)),
                    None => Err(
                        AppErrorV::Usage(
                            "`-` requested stdin as BASE, but stdin is empty or a TTY"@,
                        ),
                    ),
                }
            } else {
                match stdin {
                    Some(_) => Err(
                        AppErrorV::Usage(
                            "stdin is piped AND a BASE positional was given; stdin has no slot, use `-` to position it (or `< /dev/null` to suppress)"@,
                        ),
                    ),
                    None => Ok((BaseSourceV::File(b), axes)),
                }
            },
            None => match stdin {
                Some(buf) => Ok((BaseSourceV::StdinBuffer(buf), axes)),
                None => Err(
                    AppErrorV::Usage(
                        "no BASE provided: pass a JSON file path, `-` for stdin, or pipe into jswp"@,
                    ),
                ),
            },
        },
    }
}

/// Model of the axis positionals.
pub open spec fn axis_args_view(a: Seq<(usize, &str)>) -> Seq<(int, Seq<char>)> {
    Seq::new(a.len(), |k: int| (a[k].0 as int, a[k].1@))
}

pub open spec fn opt_bytes(b: Option<Vec<u8>>) -> Option<Seq<u8>> {
    match b {
        Some(v) => Some(v@),
        None => None,
    }
}

/// Whether the bytes of `s` hold `=`.
fn contains_eq(s: &str) -> (r: bool)
    ensures
        r == has_eq(s.spec_bytes()),
{
    let bytes = s.as_bytes();
    let mut i: usize = 0;
    while i < bytes.len()
        invariant
            i <= bytes@.len(),
            bytes@ == s.spec_bytes(),
            forall|k: int| 0 <= k < i ==> bytes@[k] != 61,
        decreases bytes@.len() - i,
    {
        if bytes[i] == 61 {
            return true;
        }
        i += 1;
    }
    false
}

/// Splits the positionals into the base source and the axes (`PATH=GEN`,
/// with their positions).
pub fn partition_positionals<'a>(positionals: &'a [String], stdin_buf: Option<Vec<u8>>) -> (r: Result<
    (BaseSource, Vec<(usize, &'a str)>),
    AppError,
>)
    ensures
        match r {
            Ok((src, axes)) => spec_partition(positionals@, opt_bytes(stdin_buf)) == Ok::<
                (BaseSourceV, Seq<(int, Seq<char>)>),
                AppErrorV,
            >((src@, axis_args_view(axes@))),
            Err(e) => spec_partition(positionals@, opt_bytes(stdin_buf)) == Err::<
                (BaseSourceV, Seq<(int, Seq<char>)>),
                AppErrorV,
            >(e@),
        },
        r matches Ok((_, axes)) ==> forall|k: int|
            0 <= k < axes@.len() ==> has_eq((#[trigger] axes@[k]).1.spec_bytes()),
{
    let ghost ps = positionals@;
    let mut base: Option<&str> = None;
    let mut axes: Vec<(usize, &str)> = Vec::new();
    let mut i: usize = 0;
    proof {
        assert(axis_args_view(axes@) =~= seq![]);
    }
    while i < positionals.len()
        invariant
            i <= ps.len(),
            ps == positionals@,
            scan_positionals(ps, 0, None, seq![]) == scan_positionals(
                ps,
                i as int,
                match base {
                    Some(b) => Some(b@),
                    None => None,
                },
                axis_args_view(axes@),
            ),
            forall|k: int| 0 <= k < axes@.len() ==> has_eq((#[trigger] axes@[k]).1.spec_bytes()),
        decreases ps.len() - i,
    {
        let raw = positionals[i].as_str();
        if str_equal(raw, "-") || !contains_eq(raw) {
            match base {
                Some(existing) => {
                    let mut m = "at most one BASE positional allowed; saw ".to_owned();
                    m.append(debug_str(existing).as_str());
                    m.append(" and ");
                    m.append(debug_str(raw).as_str());
                    return Err(AppError::Usage(m));
                },
                None => {
                    base = Some(raw);
                },
            }
        } else {
            let ghost before = axes@;
            axes.push((i, raw));
            proof {
                assert(axis_args_view(axes@) =~= axis_args_view(before).push((i as int, raw@)));
            }
        }
        i += 1;
    }
    let src = match base {
        Some(b) => {
            if str_equal(b, "-") {
                match stdin_buf {
                    Some(buf) => BaseSource::StdinBuffer(buf),
                    None => {
                        return Err(
                            AppError::Usage(
                                "`-` requested stdin as BASE, but stdin is empty or a TTY".to_owned(),
                            ),
                        );
                    },
                }
            } else {
                match stdin_buf {
                    Some(_) => {
                        return Err(
                            AppError::Usage(
                                "stdin is piped AND a BASE positional was given; stdin has no slot, use `-` to position it (or `< /dev/null` to suppress)".to_owned(),
                            ),
                        );
                    },
                    None => BaseSource::File(b.to_owned()),
                }
            }
        },
        None => match stdin_buf {
            Some(buf) => BaseSource::StdinBuffer(buf),
            None => {
                return Err(
                    AppError::Usage(
                        "no BASE provided: pass a JSON file path, `-` for stdin, or pipe into jswp".to_owned(),
                    ),
                );
            },
        },
    };
    Ok((src, axes))
}

// ---------------------------------------------------------------------------
// Axes
// ---------------------------------------------------------------------------

/// One axis positional, read: its path templates and its generator.
#[derive(Debug)]
pub struct AxisPlan {
    pub templates: Vec<SegmentTemplate>,
    pub generator: Generator,
}

/// Model of an `AxisPlan`.
pub struct PlanV {
    pub templates: Seq<TemplateV>,
    pub generator: GeneratorV,
}

impl View for AxisPlan {
    type V = PlanV;

    open spec fn view(&self) -> PlanV {
        PlanV { templates: templates_view(self.templates@), generator: self.generator@ }
    }
}

/// Model of a list of plans.
pub open spec fn plans_view(s: Seq<AxisPlan>) -> Seq<PlanV> {
    Seq::new(s.len(), |i: int| s[i]@)
}

/// Position of the first `=` at or after `i`, or the end.
pub open spec fn first_eq(b: Seq<u8>, i: int) -> int
    decreases b.len() - i,
{
    if i < 0 || i >= b.len() || b[i] == 61 {
        i
    } else {
        first_eq(b, i + 1)
    }
}

/// The first `=` at or after `i` that is outside brackets (a filter's `=`
/// or a range's `..=` stands inside them).
pub open spec fn top_eq_from(b: Seq<u8>, i: int) -> Option<int>
    decreases b.len() - i,
{
    if i < 0 || i >= b.len() {
        None
    } else if b[i] == 61 {
        Some(i)
    } else if b[i] == 91 {
        match close_bracket_from(b, i + 1, i + 1) {
            Some(c) => {
                proof {
                    lemma_close_bracket_bounds(b, i + 1, i + 1);
                }
                top_eq_from(b, c + 1)
            },
            None => None,
        }
    } else {
        top_eq_from(b, i + 1)
    }
}

/// Where an axis positional splits into `PATH` and `GEN`: at its first `=`
/// outside brackets, or, when there is none, at its first `=`.
pub open spec fn axis_split(b: Seq<u8>) -> int {
    match top_eq_from(b, 0) {
        Some(p) => p,
        None => first_eq(b, 0),
    }
}

/// `axis N (raw), col C: message`.
pub open spec fn axis_message(num: nat, raw: Seq<char>, col: nat, m: Seq<char>) -> Seq<char> {
    "axis "@ + nat_text(num) + " ("@ + spec_debug_str(raw) + "), col "@ + nat_text(col) + ": "@ + m
}

/// What reading the axis positional `raw`, the `num`-th axis, gives: its
/// templates and generator, or a usage error that names the axis and the
/// column.
pub open spec fn spec_axis_plan(raw: Seq<char>, num: nat) -> Result<PlanV, AppErrorV> {
    let b = encode_utf8(raw);
    let eq = axis_split(b);
    match spec_parse_path(b.subrange(0, eq)) {
        Err(_) => Err(
            AppErrorV::Usage(
                axis_message(num, raw, 1, "invalid PATH "@ + spec_debug_str(text_of(b, 0, eq))),
            ),
        ),
        Ok(ts) => match spec_parse_generator(b.subrange(eq + 1, b.len() as int)) {
            Err(e) => Err(AppErrorV::Usage(axis_message(num, raw, (eq + 2 + e.offset) as nat, e.message))),
            Ok(g) => Ok(PlanV { templates: ts, generator: g }),
        },
    }
}

/// The plans of the first `k` axis positionals, or the first error.
pub open spec fn plans_upto(args: Seq<(int, Seq<char>)>, k: int) -> Result<Seq<PlanV>, AppErrorV>
    decreases k,
{
    if k <= 0 {
        Ok(seq![])
    } else {
        match plans_upto(args, k - 1) {
            Err(e) => Err(e),
            Ok(ps) => match spec_axis_plan(args[k - 1].1, k as nat) {
                Err(e) => Err(e),
                Ok(p) => Ok(ps.push(p)),
            },
        }
    }
}

proof fn lemma_plans_err(args: Seq<(int, Seq<char>)>, k: int, n: int)
    requires
        0 <= k <= n,
        plans_upto(args, k) is Err,
    ensures
        plans_upto(args, n) == plans_upto(args, k),
    decreases n - k,
{
    if k < n {
        lemma_plans_err(args, k, n - 1);
    }
}

/// An axis positional that can be read: it holds `=`, and a column one
/// past its end still fits in a `usize`.
pub open spec fn axis_arg_ok(b: Seq<u8>) -> bool {
    has_eq(b) && b.len() < usize::MAX
}

/// Every filter value read is well-formed JSON, and every list value too.
pub open spec fn plan_wf(p: PlanV) -> bool {
    templates_wf(p.templates) && generator_wf(p.generator)
}

proof fn lemma_first_eq(b: Seq<u8>, i: int)
    requires
        0 <= i <= b.len(),
        exists|j: int| i <= j < b.len() && b[j] == 61,
    ensures
        i <= first_eq(b, i) < b.len(),
        b[first_eq(b, i)] == 61,
    decreases b.len() - i,
{
    if b[i] != 61 {
        let j = choose|j: int| i <= j < b.len() && b[j] == 61;
        assert(j != i);
        lemma_first_eq(b, i + 1);
    }
}

proof fn lemma_top_eq(b: Seq<u8>, i: int)
    ensures
        top_eq_from(b, i) matches Some(p) ==> i <= p < b.len() && b[p] == 61,
    decreases b.len() - i,
{
    if 0 <= i < b.len() && b[i] != 61 {
        if b[i] == 91 {
            lemma_close_bracket_bounds(b, i + 1, i + 1);
            if let Some(c) = close_bracket_from(b, i + 1, i + 1) {
                lemma_top_eq(b, c + 1);
            }
        } else {
            lemma_top_eq(b, i + 1);
        }
    }
}

/// The position of the `=` that splits an axis positional.
fn split_at_eq(raw: &str) -> (r: usize)
    requires
        has_eq(raw.spec_bytes()),
    ensures
        r == axis_split(raw.spec_bytes()),
        r < raw.spec_bytes().len(),
        raw.spec_bytes()[r as int] == 61,
{
    let ghost b = raw.spec_bytes();
    let bytes = raw.as_bytes();
    proof {
        lemma_top_eq(b, 0);
        lemma_first_eq(b, 0);
    }
    let mut i: usize = 0;
    let mut open = true;
    while open && i < bytes.len()
        invariant
            bytes@ == b,
            b == raw.spec_bytes(),
            i <= b.len(),
            open ==> top_eq_from(b, 0) == top_eq_from(b, i as int),
            !open ==> top_eq_from(b, 0) is None,
        decreases b.len() - i + if open {
            1int
        } else {
            0int
        },
    {
        if bytes[i] == 61 {
            return i;
        }
        if bytes[i] == 91 {
            proof {
                lemma_close_bracket_bounds(b, i + 1, i + 1);
            }
            match find_close_bracket(raw, i + 1) {
                Some(c) => {
                    i = c + 1;
                },
                None => {
                    open = false;
                },
            }
        } else {
            i += 1;
        }
    }
    let mut eq: usize = 0;
    while bytes[eq] != 61
        invariant
            bytes@ == b,
            top_eq_from(b, 0) is None,
            eq <= first_eq(b, 0),
            first_eq(b, 0) < b.len(),
            b[first_eq(b, 0)] == 61,
            first_eq(b, 0) == first_eq(b, eq as int),
        decreases first_eq(b, 0) - eq,
    {
        eq += 1;
    }
    eq
}

/// A usage error about the `num`-th axis, at column `col`.
fn axis_error(num: usize, raw: &str, col: usize, message: &str) -> (r: AppError)
    ensures
        r@ == AppErrorV::Usage(axis_message(num as nat, raw@, col as nat, message@)),
{
    let mut m = "axis ".to_owned();
    m.append(nat_string(num as u64).as_str());
    m.append(" (");
    m.append(debug_str(raw).as_str());
    m.append("), col ");
    m.append(nat_string(col as u64).as_str());
    m.append(": ");
    m.append(message);
    AppError::Usage(m)
}

/// Reads one axis positional.
#[verifier::rlimit(30)]
fn axis_plan(raw: &str, num: usize) -> (r: Result<AxisPlan, AppError>)
    requires
        axis_arg_ok(raw.spec_bytes()),
    ensures
        match r {
            Ok(p) => spec_axis_plan(raw@, num as nat) == Ok::<PlanV, AppErrorV>(p@) && plan_wf(p@),
            Err(e) => spec_axis_plan(raw@, num as nat) == Err::<PlanV, AppErrorV>(e@),
        },
{
    let ghost b = raw.spec_bytes();
    let bytes = raw.as_bytes();
    proof {
        lemma_str_valid(raw);
    }
    let eq = split_at_eq(raw);
    proof {
        lemma_cut_after(b, eq as int);
    }
    let path_str = str_slice(raw, 0, eq);
    let gen_str = str_slice(raw, eq + 1, bytes.len());
    let templates = match parse_path(path_str) {
        Ok(t) => t,
        Err(_) => {
            let mut m = "invalid PATH ".to_owned();
            m.append(debug_str(path_str).as_str());
            return Err(axis_error(num, raw, 1, m.as_str()));
        },
    };
    assert(gen_str.spec_bytes().len() == b.len() - eq - 1);
    let generator = match parse_generator(gen_str) {
        Ok(g) => g,
        Err(e) => {
            return Err(axis_error(num, raw, eq + 2 + e.offset, e.message.as_str()));
        },
    };
    Ok(AxisPlan { templates, generator })
}

/// Reads the axis positionals, in order; the first bad one stops the
/// reading.
pub fn parse_axes(axis_args: &[(usize, &str)]) -> (r: Result<Vec<AxisPlan>, AppError>)
    requires
        forall|k: int| 0 <= k < axis_args@.len() ==> axis_arg_ok((#[trigger] axis_args@[k]).1.spec_bytes()),
    ensures
        match r {
            Ok(ps) => plans_upto(axis_args_view(axis_args@), axis_args@.len() as int) == Ok::<
                Seq<PlanV>,
                AppErrorV,
            >(plans_view(ps@)) && forall|k: int| 0 <= k < ps@.len() ==> plan_wf((#[trigger] ps@[k])@),
            Err(e) => plans_upto(axis_args_view(axis_args@), axis_args@.len() as int) == Err::<
                Seq<PlanV>,
                AppErrorV,
            >(e@),
        },
{
    let ghost args = axis_args_view(axis_args@);
    let mut out: Vec<AxisPlan> = Vec::new();
    let mut idx: usize = 0;
    assert(plans_view(out@) =~= seq![]);
    while idx < axis_args.len()
        invariant
            idx <= axis_args@.len(),
            args == axis_args_view(axis_args@),
            forall|k: int| 0 <= k < axis_args@.len() ==> axis_arg_ok((#[trigger] axis_args@[k]).1.spec_bytes()),
            plans_upto(args, idx as int) == Ok::<Seq<PlanV>, AppErrorV>(plans_view(out@)),
            forall|k: int| 0 <= k < out@.len() ==> plan_wf((#[trigger] out@[k])@),
        decreases axis_args@.len() - idx,
    {
        let raw = axis_args[idx].1;
        let p = match axis_plan(raw, idx + 1) {
            Ok(p) => p,
            Err(e) => {
                proof {
                    lemma_plans_err(args, idx + 1, args.len() as int);
                }
                return Err(e);
            },
        };
        let ghost before = plans_view(out@);
        out.push(p);
        proof {
            assert(plans_view(out@) =~= before.push(out@.last()@));
        }
        idx += 1;
    }
    Ok(out)
}

/// What `prepare` gives: the base source and the read axes, or the first
/// error: a bad positional, no axis at all, or a bad axis.
pub open spec fn spec_prepare(ps: Seq<String>, stdin: Option<Seq<u8>>) -> Result<
    (BaseSourceV, Seq<PlanV>),
    AppErrorV,
> {
    match spec_partition(ps, stdin) {
        Err(e) => Err(e),
        Ok((src, args)) => if args.len() == 0 {
            Err(AppErrorV::Usage("no axes given — pass at least one PATH=GEN positional"@))
        } else {
            match plans_upto(args, args.len() as int) {
                Err(e) => Err(e),
                Ok(plans) => Ok((src, plans)),
            }
        },
    }
}

/// A column one past the end of every positional still fits in a `usize`.
pub open spec fn positionals_ok(ps: Seq<String>) -> bool {
    forall|i: int| 0 <= i < ps.len() ==> encode_utf8((#[trigger] ps[i])@).len() < usize::MAX
}

proof fn lemma_scan_args_short(
    ps: Seq<String>,
    i: int,
    base: Option<Seq<char>>,
    axes: Seq<(int, Seq<char>)>,
)
    requires
        positionals_ok(ps),
        forall|k: int| 0 <= k < axes.len() ==> encode_utf8((#[trigger] axes[k]).1).len() < usize::MAX,
    ensures
        scan_positionals(ps, i, base, axes) matches Ok((_, out)) ==> forall|k: int|
            0 <= k < out.len() ==> encode_utf8((#[trigger] out[k]).1).len() < usize::MAX,
    decreases ps.len() - i,
{
    if 0 <= i < ps.len() {
        if is_base_arg(ps[i]@) {
            if base is None {
                lemma_scan_args_short(ps, i + 1, Some(ps[i]@), axes);
            }
        } else {
            let next = axes.push((i, ps[i]@));
            assert forall|k: int| 0 <= k < next.len() implies encode_utf8((#[trigger] next[k]).1).len()
                < usize::MAX by {
                if k == axes.len() {
                    assert(encode_utf8(ps[i]@).len() < usize::MAX);
                }
            }
            lemma_scan_args_short(ps, i + 1, base, next);
        }
    }
}

/// Decides where the base comes from and reads the axes, before anything
/// is loaded.
pub fn prepare(positionals: &[String], stdin_buf: Option<Vec<u8>>) -> (r: Result<
    (BaseSource, Vec<AxisPlan>),
    AppError,
>)
    requires
        positionals_ok(positionals@),
    ensures
        match r {
            Ok((src, plans)) => spec_prepare(positionals@, opt_bytes(stdin_buf)) == Ok::<
                (BaseSourceV, Seq<PlanV>),
                AppErrorV,
            >((src@, plans_view(plans@))) && forall|k: int|
                0 <= k < plans@.len() ==> plan_wf((#[trigger] plans@[k])@),
            Err(e) => spec_prepare(positionals@, opt_bytes(stdin_buf)) == Err::<
                (BaseSourceV, Seq<PlanV>),
                AppErrorV,
            >(e@),
        },
{
    let (src, axis_args) = match partition_positionals(positionals, stdin_buf) {
        Ok(x) => x,
        Err(e) => {
            return Err(e);
        },
    };
    if axis_args.len() == 0 {
        return Err(
            AppError::Usage("no axes given — pass at least one PATH=GEN positional".to_owned()),
        );
    }
    proof {
        lemma_scan_args_short(positionals@, 0, None, seq![]);
        assert forall|k: int| 0 <= k < axis_args@.len() implies axis_arg_ok(
            (#[trigger] axis_args@[k]).1.spec_bytes(),
        ) by {
            assert(axis_args_view(axis_args@)[k].1 == axis_args@[k].1@);
        }
    }
    let plans = match parse_axes(axis_args.as_slice()) {
        Ok(p) => p,
        Err(e) => {
            return Err(e);
        },
    };
    Ok((src, plans))
}

// ---------------------------------------------------------------------------
// The base
// ---------------------------------------------------------------------------

/// A failed read of the base: whether what was read was not text (the
/// reader's `InvalidData`), and the reader's message.
#[derive(Debug, PartialEq)]
pub struct BaseError {
    pub invalid_data: bool,
    pub message: String,
}

/// Model of a `BaseError`.
pub struct BaseErrorV {
    pub invalid_data: bool,
    pub message: Seq<char>,
}

impl View for BaseError {
    type V = BaseErrorV;

    open spec fn view(&self) -> BaseErrorV {
        BaseErrorV { invalid_data: self.invalid_data, message: self.message@ }
    }
}

/// Model of the outcome of reading the base.
pub open spec fn read_view(r: Result<String, BaseError>) -> Result<Seq<char>, BaseErrorV> {
    match r {
        Ok(t) => Ok(t@),
        Err(e) => Err(e@),
    }
}

/// What `load_base` gives: the base as JSON, an input error for text that
/// is not JSON or bytes that are not text, an I/O error for a failed read.
pub open spec fn spec_load_base(r: Result<Seq<char>, BaseErrorV>) -> Result<JsonV, AppErrorV> {
    match r {
        Ok(text) => base_outcome(spec_from_str(text)),
        Err(e) => if e.invalid_data {
            Err(AppErrorV::Input("base JSON: "@ + e.message))
        } else {
            Err(AppErrorV::Io("reading base: "@ + e.message))
        },
    }
}

/// The base, given what reading its text as JSON gave: the value read, or
/// an input error quoting the reader's message.
pub open spec fn base_outcome(parsed: Result<JsonV, Seq<char>>) -> Result<JsonV, AppErrorV> {
    match parsed {
        Ok(v) => Ok(v),
        Err(m) => Err(AppErrorV::Input("base JSON: invalid JSON: "@ + m)),
    }
}

/// The base from what reading its text as JSON gave.
pub fn base_from_parse(parsed: Result<Json, String>) -> (r: Result<Json, AppError>)
    requires
        parsed_wf(parsed),
    ensures
        match r {
            Ok(v) => base_outcome(parsed_view(parsed)) == Ok::<JsonV, AppErrorV>(v@) && v@.wf(),
            Err(e) => base_outcome(parsed_view(parsed)) == Err::<JsonV, AppErrorV>(e@),
        },
{
    match parsed {
        Ok(v) => Ok(v),
        Err(m) => {
            let mut s = "base JSON: invalid JSON: ".to_owned();
            s.append(m.as_str());
            Err(AppError::Input(s))
        },
    }
}

/// Turns what was read from the base's source into the base.
pub fn load_base(read: Result<String, BaseError>) -> (r: Result<Json, AppError>)
    ensures
        match r {
            Ok(v) => spec_load_base(read_view(read)) == Ok::<JsonV, AppErrorV>(v@) && v@.wf(),
            Err(e) => spec_load_base(read_view(read)) == Err::<JsonV, AppErrorV>(e@),
        },
{
    match read {
        Ok(text) => base_from_parse(parse_json(text.as_str())),
        Err(e) => {
            if e.invalid_data {
                let mut s = "base JSON: ".to_owned();
                s.append(e.message.as_str());
                Err(AppError::Input(s))
            } else {
                let mut s = "reading base: ".to_owned();
                s.append(e.message.as_str());
                Err(AppError::Io(s))
            }
        },
    }
}

// ---------------------------------------------------------------------------
// The sweep
// ---------------------------------------------------------------------------

/// The usage error a refused sweep is reported as.
pub open spec fn spec_sweep_error_to_app(e: SweepErrorV) -> AppErrorV {
    AppErrorV::Usage(
        match e {
            SweepErrorV::TooLarge { cardinality, max } => "sweep would produce "@ + nat_text(
                cardinality,
            ) + " configs, exceeds --max "@ + nat_text(max),
            SweepErrorV::ZipMismatch { axis_index, axis_path, expected, got } =>
                "--zip length mismatch: axis "@ + spec_debug_str(axis_path) + " (#"@ + nat_text(
                axis_index + 1,
            ) + ") has "@ + nat_text(got) + " values, expected "@ + nat_text(expected),
            SweepErrorV::EmptyAxis { axis_path } => "axis "@ + spec_debug_str(axis_path)
                + " produced zero values"@,
            SweepErrorV::NoAxes => "no axes given"@,
            SweepErrorV::Apply { axis_path, inner } => "axis "@ + spec_debug_str(axis_path) + ": "@
                + apply_error_text(inner),
        },
    )
}

/// Reports a refused sweep as a usage error.
pub fn sweep_error_to_app(e: SweepError) -> (r: AppError)
    requires
        e@ matches SweepErrorV::ZipMismatch { axis_index, .. } ==> axis_index < usize::MAX,
    ensures
        r@ == spec_sweep_error_to_app(e@),
{
    match e {
        SweepError::TooLarge { cardinality, max } => {
            let mut m = "sweep would produce ".to_owned();
            m.append(nat_string(cardinality as u64).as_str());
            m.append(" configs, exceeds --max ");
            m.append(nat_string(max as u64).as_str());
            AppError::Usage(m)
        },
        SweepError::ZipMismatch { axis_index, axis_path, expected, got } => {
            let mut m = "--zip length mismatch: axis ".to_owned();
            m.append(debug_str(axis_path.as_str()).as_str());
            m.append(" (#");
            m.append(nat_string((axis_index + 1) as u64).as_str());
            m.append(") has ");
            m.append(nat_string(got as u64).as_str());
            m.append(" values, expected ");
            m.append(nat_string(expected as u64).as_str());
            AppError::Usage(m)
        },
        SweepError::EmptyAxis { axis_path } => {
            let mut m = "axis ".to_owned();
            m.append(debug_str(axis_path.as_str()).as_str());
            m.append(" produced zero values");
            AppError::Usage(m)
        },
        SweepError::NoAxes => AppError::Usage("no axes given".to_owned()),
        SweepError::Apply { axis_path, inner } => {
            let mut m = "axis ".to_owned();
            m.append(debug_str(axis_path.as_str()).as_str());
            m.append(": ");
            m.append(inner.describe().as_str());
            AppError::Usage(m)
        },
    }
}

/// How the axes combine.
pub open spec fn mode_of(zip: bool) -> Mode {
    if zip {
        Mode::Zip
    } else {
        Mode::Cross
    }
}

/// The values of a plan's axes: the walk of a stepped range, done by the
/// caller, or what a list or integer range expands to.
pub open spec fn plan_values(p: PlanV, stepped: Seq<JsonV>) -> Seq<JsonV> {
    if p.generator is Stepped {
        stepped
    } else {
        spec_generator_values(p.generator)
    }
}

/// One axis per expansion of the plan's templates, all sweeping `values`.
pub open spec fn plan_axes(p: PlanV, values: Seq<JsonV>) -> Seq<AxisV> {
    spec_expand_template(p.templates).map_values(
        |e: ExpansionV| AxisV { paths: e.paths, label: e.label, values },
    )
}

/// The axes of all plans, in order.
pub open spec fn run_axes(plans: Seq<PlanV>, stepped: Seq<Seq<JsonV>>) -> Seq<AxisV> {
    Seq::new(plans.len(), |i: int| plan_axes(plans[i], plan_values(plans[i], stepped[i]))).flatten()
}

/// What `run` gives: the configs, or the first error, from the base or from
/// the sweep.
pub open spec fn spec_run(
    plans: Seq<PlanV>,
    stepped: Seq<Seq<JsonV>>,
    base: Result<Seq<char>, BaseErrorV>,
    zip: bool,
    max: nat,
) -> Result<Seq<ItemV>, AppErrorV> {
    match spec_load_base(base) {
        Err(e) => Err(e),
        Ok(b) => match spec_expand(b, run_axes(plans, stepped), mode_of(zip), max) {
            Ok(items) => Ok(items),
            Err(e) => Err(spec_sweep_error_to_app(e)),
        },
    }
}

/// A plan that can be walked: its index ranges and its integer range stop
/// short of overflow, its values are well-formed JSON, and a stepped range
/// comes with well-formed values.
pub open spec fn plan_ready(p: PlanV, stepped: Seq<JsonV>) -> bool {
    &&& ranges_bounded(p.templates)
    &&& plan_wf(p)
    &&& if p.generator is Stepped {
        items_wf(stepped)
    } else {
        expandable(p.generator)
    }
}

fn copy_values(vs: &Vec<Json>) -> (r: Vec<Json>)
    ensures
        values_view(r@) == values_view(vs@),
{
    let mut out: Vec<Json> = Vec::new();
    let mut i: usize = 0;
    while i < vs.len()
        invariant
            i <= vs@.len(),
            out@.len() == i,
            forall|k: int| 0 <= k < i ==> (#[trigger] out@[k])@ == vs@[k]@,
        decreases vs@.len() - i,
    {
        out.push(vs[i].deep_clone());
        i += 1;
    }
    assert(values_view(out@) =~= values_view(vs@));
    out
}

fn copy_paths(ps: &Vec<Vec<Segment>>) -> (r: Vec<Vec<Segment>>)
    ensures
        paths_view(r@) == paths_view(ps@),
{
    let mut out: Vec<Vec<Segment>> = Vec::new();
    let mut i: usize = 0;
    while i < ps.len()
        invariant
            i <= ps@.len(),
            out@.len() == i,
            forall|k: int| 0 <= k < i ==> segs_view((#[trigger] out@[k])@) == segs_view(ps@[k]@),
        decreases ps@.len() - i,
    {
        let p = &ps[i];
        let mut q: Vec<Segment> = Vec::new();
        let mut j: usize = 0;
        while j < p.len()
            invariant
                j <= p@.len(),
                q@.len() == j,
                forall|k: int| 0 <= k < j ==> (#[trigger] q@[k])@ == p@[k]@,
            decreases p@.len() - j,
        {
            q.push(p[j].copy());
            j += 1;
        }
        assert(segs_view(q@) =~= segs_view(p@));
        out.push(q);
        i += 1;
    }
    assert(paths_view(out@) =~= paths_view(ps@));
    out
}

/// The axes of one plan.
fn axes_of_plan(plan: &AxisPlan, stepped: &Vec<Json>) -> (r: Vec<Axis>)
    requires
        plan_ready(plan@, values_view(stepped@)),
    ensures
        axes_view(r@) == plan_axes(plan@, plan_values(plan@, values_view(stepped@))),
        axes_wf(axes_view(r@)),
{
    let ghost want = plan_values(plan@, values_view(stepped@));
    let values = match &plan.generator {
        Generator::Stepped { .. } => copy_values(stepped),
        _ => plan.generator.expand(),
    };
    assert(values_view(values@) == want);
    let exps = expand_template(plan.templates.as_slice());
    let ghost ev = expansions_view(exps@);
    let mut out: Vec<Axis> = Vec::new();
    let mut k: usize = 0;
    while k < exps.len()
        invariant
            k <= exps@.len(),
            ev == expansions_view(exps@),
            values_view(values@) == want,
            items_wf(want),
            out@.len() == k,
            forall|j: int|
                0 <= j < k ==> (#[trigger] out@[j])@ == (AxisV {
                    paths: ev[j].paths,
                    label: ev[j].label,
                    values: want,
                }),
        decreases exps@.len() - k,
    {
        let e = &exps[k];
        out.push(Axis { paths: copy_paths(&e.paths), label: e.label.clone(), values: copy_values(&values) });
        k += 1;
    }
    assert(axes_view(out@) =~= plan_axes(plan@, want));
    assert forall|a: int, j: int|
        0 <= a < axes_view(out@).len() && 0 <= j < axes_view(out@)[a].values.len() implies (
    #[trigger] axes_view(out@)[a].values[j]).wf() by {
        assert(axes_view(out@)[a].values == want);
    }
    out
}

proof fn lemma_mismatch_bound(axes: Seq<AxisV>, k: int)
    ensures
        first_mismatch_from(axes, k) matches Some(j) ==> k <= j < axes.len(),
    decreases axes.len() - k,
{
    if 0 <= k < axes.len() {
        lemma_mismatch_bound(axes, k + 1);
    }
}

proof fn lemma_combine_err(cfg: JsonV, amap: Seq<(Seq<char>, JsonV)>, axes: Seq<AxisV>, idx: Seq<nat>)
    ensures
        combine(cfg, amap, axes, idx) matches Err(e) ==> e is Apply,
    decreases axes.len(),
{
    if axes.len() > 0 {
        let v = axes[0].values[idx[0] as int];
        let (c1, r) = apply_paths(cfg, axes[0].paths, v);
        if r is Ok {
            lemma_combine_err(c1, obj_insert(amap, axes[0].label, v), axes.drop_first(), idx.drop_first());
        }
    }
}

proof fn lemma_items_err(base: JsonV, axes: Seq<AxisV>, mode: Mode, m: nat)
    ensures
        spec_items(base, axes, mode, m) matches Err(e) ==> e is Apply,
    decreases m,
{
    if m > 0 {
        lemma_items_err(base, axes, mode, (m - 1) as nat);
        lemma_combine_err(base, Seq::empty(), axes, spec_index_for((m - 1) as nat, value_counts(axes), mode));
    }
}

/// Runs the sweep once the base has been read and stepped ranges walked:
/// loads the base, builds the axes of every plan in order, and expands
/// them.
pub fn run(
    plans: &[AxisPlan],
    stepped: &[Vec<Json>],
    base: Result<String, BaseError>,
    zip: bool,
    max: usize,
) -> (r: Result<Vec<SweepItem>, AppError>)
    requires
        stepped@.len() == plans@.len(),
        forall|i: int|
            0 <= i < plans@.len() ==> plan_ready(
                (#[trigger] plans@[i])@,
                values_view(stepped@[i]@),
            ),
    ensures
        match r {
            Ok(items) => spec_run(
                plans_view(plans@),
                Seq::new(stepped@.len(), |i: int| values_view(stepped@[i]@)),
                read_view(base),
                zip,
                max as nat,
            ) == Ok::<Seq<ItemV>, AppErrorV>(items_view(items@)),
            Err(e) => spec_run(
                plans_view(plans@),
                Seq::new(stepped@.len(), |i: int| values_view(stepped@[i]@)),
                read_view(base),
                zip,
                max as nat,
            ) == Err::<Seq<ItemV>, AppErrorV>(e@),
        },
{
    let ghost pv = plans_view(plans@);
    let ghost sv = Seq::new(stepped@.len(), |i: int| values_view(stepped@[i]@));
    let ghost f = |i: int| plan_axes(pv[i], plan_values(pv[i], sv[i]));
    let base_v = match load_base(base) {
        Ok(v) => v,
        Err(e) => {
            return Err(e);
        },
    };
    let mut axes: Vec<Axis> = Vec::new();
    let mut i: usize = 0;
    assert(Seq::new(0, f) =~= seq![]);
    while i < plans.len()
        invariant
            i <= plans@.len(),
            stepped@.len() == plans@.len(),
            pv == plans_view(plans@),
            sv == Seq::new(stepped@.len(), |i: int| values_view(stepped@[i]@)),
            f == (|i: int| plan_axes(pv[i], plan_values(pv[i], sv[i]))),
            forall|i: int|
                0 <= i < plans@.len() ==> plan_ready(
                    (#[trigger] plans@[i])@,
                    values_view(stepped@[i]@),
                ),
            axes_view(axes@) == Seq::new(i as nat, f).flatten(),
            axes_wf(axes_view(axes@)),
        decreases plans@.len() - i,
    {
        let more = axes_of_plan(&plans[i], &stepped[i]);
        let ghost before = axes_view(axes@);
        let mut k: usize = 0;
        while k < more.len()
            invariant
                k <= more@.len(),
                axes_view(axes@) == before + axes_view(more@).take(k as int),
                axes_wf(before),
                axes_wf(axes_view(more@)),
            decreases more@.len() - k,
        {
            let a = &more[k];
            let ghost prev = axes_view(axes@);
            axes.push(Axis { paths: copy_paths(&a.paths), label: a.label.clone(), values: copy_values(&a.values) });
            proof {
                assert(axes_view(axes@) =~= prev.push(more@[k as int]@));
                assert(axes_view(more@).take(k + 1) =~= axes_view(more@).take(k as int).push(
                    more@[k as int]@,
                ));
            }
            k += 1;
        }
        proof {
            assert(axes_view(more@).take(k as int) =~= axes_view(more@));
            assert(pv[i as int] == plans@[i as int]@);
            assert(sv[i as int] == values_view(stepped@[i as int]@));
            let s = Seq::new(i as nat, f);
            assert(Seq::new((i + 1) as nat, f) =~= s.push(f(i as int)));
            s.lemma_flatten_push(f(i as int));
            assert forall|a: int, j: int|
                0 <= a < axes_view(axes@).len() && 0 <= j < axes_view(axes@)[a].values.len()
                    implies (#[trigger] axes_view(axes@)[a].values[j]).wf() by {
                if a < before.len() {
                    assert(axes_view(axes@)[a] == before[a]);
                } else {
                    assert(axes_view(axes@)[a] == axes_view(more@)[a - before.len()]);
                }
            }
        }
        i += 1;
    }
    proof {
        assert(Seq::new(plans@.len() as nat, f) =~= Seq::new(
            pv.len(),
            |i: int| plan_axes(pv[i], plan_values(pv[i], sv[i])),
        ));
    }
    let mode = if zip {
        Mode::Zip
    } else {
        Mode::Cross
    };
    let n_axes = axes.len();
    match expand(&base_v, axes.as_slice(), mode, max) {
        Ok(items) => Ok(items),
        Err(e) => {
            proof {
                let av = axes_view(axes@);
                assert(av.len() == n_axes);
                lemma_mismatch_bound(av, 1);
                if let SweepErrorV::ZipMismatch { axis_index, .. } = e@ {
                    match spec_cardinality(av, mode) {
                        Err(ce) => {
                            assert(e@ == ce);
                            let k = first_mismatch_from(av, 1)->Some_0;
                            assert(axis_index == k);
                        },
                        Ok(n) => {
                            if n <= max {
                                lemma_items_err(base_v@, av, mode, n);
                            }
                            assert(false);
                        },
                    }
                }
            }
            Err(sweep_error_to_app(e))
        },
    }
}

} // verus!
