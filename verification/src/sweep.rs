//! Sweeps: the cartesian or zipped combination of axis values, each written
//! into a copy of the base.
use vstd::prelude::*;
use vstd::pervasive::VecAdditionalExecFns;
use vstd::string::*;
use crate::json::{debug_str, nat_string, nat_text, spec_debug_str, entries_insert, entries_view, obj_insert, values_view, Json, JsonV};
use crate::merge::{apply_error_text, apply_segments, spec_apply_segments, ApplyError, ApplyErrorV};
use crate::path::{segs_view, Segment, SegV};

verus! {

broadcast use vstd::seq_lib::group_seq_properties;

// ---------------------------------------------------------------------------
// Types
// ---------------------------------------------------------------------------

/// One swept axis.
#[derive(Debug)]
pub struct Axis {
    /// One or more coupled paths sharing the swept value. A vanilla axis
    /// has a single path; a `.{a,b,c}` key-group axis has one path per
    /// brace entry.
    pub paths: Vec<Vec<Segment>>,
    /// Display label, e.g. `treasury.{food,wood,ore}` or `classes[5].x`.
    pub label: String,
    pub values: Vec<Json>,
}

/// Model of an axis.
pub struct AxisV {
    pub paths: Seq<Seq<SegV>>,
    pub label: Seq<char>,
    pub values: Seq<JsonV>,
}

impl View for Axis {
    type V = AxisV;

    open spec fn view(&self) -> AxisV {
        AxisV {
            paths: Seq::new(self.paths@.len(), |i: int| segs_view(self.paths@[i]@)),
            label: self.label@,
            values: values_view(self.values@),
        }
    }
}

/// Model of a sequence of axes.
pub open spec fn axes_view(s: Seq<Axis>) -> Seq<AxisV> {
    Seq::new(s.len(), |i: int| s[i]@)
}

/// How axis values combine.
#[derive(Debug, Clone, Copy, PartialEq, Eq, Structural)]
pub enum Mode {
    /// Every combination, the rightmost axis varying fastest.
    Cross,
    /// The i-th value of every axis together.
    Zip,
}

/// One generated config, with the value that each axis gave it.
#[derive(Debug)]
pub struct SweepItem {
    /// Axis label to value, as an object's entries.
    pub axes: Vec<(String, Json)>,
    pub config: Json,
}

/// Model of a sweep item.
pub struct ItemV {
    pub axes: Seq<(Seq<char>, JsonV)>,
    pub config: JsonV,
}

impl View for SweepItem {
    type V = ItemV;

    open spec fn view(&self) -> ItemV {
        ItemV { axes: entries_view(self.axes@), config: self.config@ }
    }
}

/// Why a sweep was refused.
#[derive(Debug)]
pub enum SweepError {
    TooLarge { cardinality: usize, max: usize },
    ZipMismatch { axis_index: usize, axis_path: String, expected: usize, got: usize },
    EmptyAxis { axis_path: String },
    NoAxes,
    Apply { axis_path: String, inner: ApplyError },
}

/// Model of a `SweepError`.
pub enum SweepErrorV {
    TooLarge { cardinality: nat, max: nat },
    ZipMismatch { axis_index: nat, axis_path: Seq<char>, expected: nat, got: nat },
    EmptyAxis { axis_path: Seq<char> },
    NoAxes,
    Apply { axis_path: Seq<char>, inner: ApplyErrorV },
}

impl View for SweepError {
    type V = SweepErrorV;

    open spec fn view(&self) -> SweepErrorV {
        match self {
            SweepError::TooLarge { cardinality, max } => SweepErrorV::TooLarge {
                cardinality: *cardinality as nat,
                max: *max as nat,
            },
            SweepError::ZipMismatch { axis_index, axis_path, expected, got } =>
                SweepErrorV::ZipMismatch {
                axis_index: *axis_index as nat,
                axis_path: axis_path@,
                expected: *expected as nat,
                got: *got as nat,
            },
            SweepError::EmptyAxis { axis_path } => SweepErrorV::EmptyAxis { axis_path: axis_path@ },
            SweepError::NoAxes => SweepErrorV::NoAxes,
            SweepError::Apply { axis_path, inner } => SweepErrorV::Apply {
                axis_path: axis_path@,
                inner: inner@,
            },
        }
    }
}

/// The error as text.
pub open spec fn sweep_error_text(e: SweepErrorV) -> Seq<char> {
    match e {
        SweepErrorV::TooLarge { cardinality, max } => "sweep would produce "@ + nat_text(
            cardinality,
        ) + " configs, exceeds --max "@ + nat_text(max),
        SweepErrorV::ZipMismatch { axis_index, axis_path, expected, got } =>
            "zip length mismatch: axis "@ + nat_text(axis_index) + " ("@ + spec_debug_str(axis_path)
            + ") has "@ + nat_text(got) + " values, expected "@ + nat_text(expected),
        SweepErrorV::EmptyAxis { axis_path } => "axis "@ + spec_debug_str(axis_path)
            + " produced zero values"@,
        SweepErrorV::NoAxes => "at least one axis is required"@,
        SweepErrorV::Apply { axis_path, inner } => "applying axis "@ + spec_debug_str(axis_path)
            + ": "@ + apply_error_text(inner),
    }
}

impl SweepError {
    /// The error as text.
    pub fn describe(&self) -> (r: String)
        ensures
            r@ == sweep_error_text(self@),
    {
        match self {
            SweepError::TooLarge { cardinality, max } => {
                let mut s = "sweep would produce ".to_owned();
                s.append(nat_string(*cardinality as u64).as_str());
                s.append(" configs, exceeds --max ");
                s.append(nat_string(*max as u64).as_str());
                s
            },
            SweepError::ZipMismatch { axis_index, axis_path, expected, got } => {
                let mut s = "zip length mismatch: axis ".to_owned();
                s.append(nat_string(*axis_index as u64).as_str());
                s.append(" (");
                s.append(debug_str(axis_path.as_str()).as_str());
                s.append(") has ");
                s.append(nat_string(*got as u64).as_str());
                s.append(" values, expected ");
                s.append(nat_string(*expected as u64).as_str());
                s
            },
            SweepError::EmptyAxis { axis_path } => {
                let mut s = "axis ".to_owned();
                s.append(debug_str(axis_path.as_str()).as_str());
                s.append(" produced zero values");
                s
            },
            SweepError::NoAxes => "at least one axis is required".to_owned(),
            SweepError::Apply { axis_path, inner } => {
                let mut s = "applying axis ".to_owned();
                s.append(debug_str(axis_path.as_str()).as_str());
                s.append(": ");
                s.append(inner.describe().as_str());
                s
            },
        }
    }
}

// ---------------------------------------------------------------------------
// Cardinality
// ---------------------------------------------------------------------------

/// The product of a sequence of naturals.
pub open spec fn product(s: Seq<nat>) -> nat
    decreases s.len(),
{
    if s.len() == 0 {
        1
    } else {
        s[0] * product(s.drop_first())
    }
}

/// The number of values of each axis.
pub open spec fn value_counts(axes: Seq<AxisV>) -> Seq<nat> {
    Seq::new(axes.len(), |k: int| axes[k].values.len())
}

/// The first axis at or after `k` with no values.
pub open spec fn first_empty_from(axes: Seq<AxisV>, k: int) -> Option<int>
    decreases axes.len() - k,
{
    if k < 0 || k >= axes.len() {
        None
    } else if axes[k].values.len() == 0 {
        Some(k)
    } else {
        first_empty_from(axes, k + 1)
    }
}

/// The first axis at or after `k` whose number of values differs from that
/// of the first axis.
pub open spec fn first_mismatch_from(axes: Seq<AxisV>, k: int) -> Option<int>
    decreases axes.len() - k,
{
    if k < 0 || k >= axes.len() {
        None
    } else if axes[k].values.len() != axes[0].values.len() {
        Some(k)
    } else {
        first_mismatch_from(axes, k + 1)
    }
}

/// The number of configs a sweep produces, or why it has none: no axes; an
/// axis with no values (the first such); in cross mode a product past
/// `usize::MAX`; in zip mode an axis (the first such) whose length differs
/// from the first axis's.
pub open spec fn spec_cardinality(axes: Seq<AxisV>, mode: Mode) -> Result<nat, SweepErrorV> {
    if axes.len() == 0 {
        Err(SweepErrorV::NoAxes)
    } else {
        match first_empty_from(axes, 0) {
            Some(k) => Err(SweepErrorV::EmptyAxis { axis_path: axes[k].label }),
            None => match mode {
                Mode::Cross => if product(value_counts(axes)) > usize::MAX {
                    Err(
                        SweepErrorV::TooLarge {
                            cardinality: usize::MAX as nat,
                            max: usize::MAX as nat,
                        },
                    )
                } else {
                    Ok(product(value_counts(axes)))
                },
                Mode::Zip => match first_mismatch_from(axes, 1) {
                    Some(k) => Err(
                        SweepErrorV::ZipMismatch {
                            axis_index: k as nat,
                            axis_path: axes[k].label,
                            expected: axes[0].values.len(),
                            got: axes[k].values.len(),
                        },
                    ),
                    None => Ok(axes[0].values.len()),
                },
            },
        }
    }
}

pub proof fn lemma_product_split(s: Seq<nat>, k: int)
    requires
        0 <= k <= s.len(),
    ensures
        product(s) == product(s.take(k)) * product(s.skip(k)),
    decreases k,
{
    if k == 0 {
        assert(s.skip(0) =~= s);
        assert(product(s.take(0)) == 1);
    } else {
        let t = s.drop_first();
        lemma_product_split(t, k - 1);
        assert(t.skip(k - 1) =~= s.skip(k));
        assert(s.take(k).drop_first() =~= t.take(k - 1));
        assert(s.take(k)[0] == s[0]);
        let a = s[0];
        let b = product(t.take(k - 1));
        let c = product(s.skip(k));
        assert(a * (b * c) == (a * b) * c) by (nonlinear_arith);
    }
}

pub proof fn lemma_product_pos(s: Seq<nat>)
    requires
        forall|i: int| 0 <= i < s.len() ==> #[trigger] s[i] >= 1,
    ensures
        product(s) >= 1,
    decreases s.len(),
{
    if s.len() > 0 {
        let t = s.drop_first();
        assert forall|i: int| 0 <= i < t.len() implies #[trigger] t[i] >= 1 by {
            assert(t[i] == s[i + 1]);
        }
        lemma_product_pos(t);
        assert(s[0] >= 1);
        assert(s[0] * product(t) >= 1) by (nonlinear_arith)
            requires
                s[0] >= 1,
                product(t) >= 1,
        ;
    }
}

/// With every factor at least one, a prefix or a suffix has at most the
/// whole product.
pub proof fn lemma_product_parts_le(s: Seq<nat>, k: int)
    requires
        0 <= k <= s.len(),
        forall|i: int| 0 <= i < s.len() ==> #[trigger] s[i] >= 1,
    ensures
        product(s.take(k)) <= product(s),
        product(s.skip(k)) <= product(s),
{
    lemma_product_split(s, k);
    let a = s.take(k);
    let b = s.skip(k);
    assert forall|i: int| 0 <= i < a.len() implies #[trigger] a[i] >= 1 by {
        assert(a[i] == s[i]);
    }
    assert forall|i: int| 0 <= i < b.len() implies #[trigger] b[i] >= 1 by {
        assert(b[i] == s[i + k]);
    }
    lemma_product_pos(a);
    lemma_product_pos(b);
    let pa = product(a);
    let pb = product(b);
    assert(pa <= pa * pb && pb <= pa * pb) by (nonlinear_arith)
        requires
            pa >= 1,
            pb >= 1,
    ;
}

proof fn lemma_product_push(s: Seq<nat>, x: nat)
    ensures
        product(s.push(x)) == product(s) * x,
{
    let t = s.push(x);
    lemma_product_split(t, s.len() as int);
    assert(t.take(s.len() as int) =~= s);
    assert(t.skip(s.len() as int) =~= seq![x]);
    assert(seq![x].drop_first() =~= Seq::<nat>::empty());
    reveal_with_fuel(product, 2);
    assert(product(seq![x]) == x * 1);
}

/// The number of configs the sweep produces.
pub fn cardinality(axes: &[Axis], mode: Mode) -> (r: Result<usize, SweepError>)
    ensures
        match r {
            Ok(n) => spec_cardinality(axes_view(axes@), mode) == Ok::<nat, SweepErrorV>(n as nat),
            Err(e) => spec_cardinality(axes_view(axes@), mode) == Err::<nat, SweepErrorV>(e@),
        },
{
    let ghost av = axes_view(axes@);
    if axes.len() == 0 {
        return Err(SweepError::NoAxes);
    }
    let mut k: usize = 0;
    while k < axes.len()
        invariant
            k <= axes@.len(),
            av == axes_view(axes@),
            first_empty_from(av, 0) == first_empty_from(av, k as int),
        decreases axes@.len() - k,
    {
        assert(av[k as int] == axes@[k as int]@);
        assert(av[k as int].values.len() == axes@[k as int].values@.len());
        if axes[k].values.len() == 0 {
            return Err(SweepError::EmptyAxis { axis_path: axes[k].label.clone() });
        }
        k += 1;
    }
    assert(first_empty_from(av, 0) is None);
    let ghost counts = value_counts(av);
    assert forall|i: int| 0 <= i < counts.len() implies #[trigger] counts[i] >= 1 by {
        lemma_first_empty_none(av, 0, i);
    }
    match mode {
        Mode::Cross => {
            let mut n: usize = 1;
            let mut k: usize = 0;
            assert(counts.take(0) =~= Seq::<nat>::empty());
            while k < axes.len()
                invariant
                    k <= axes@.len(),
                    av == axes_view(axes@),
                    counts == value_counts(av),
                    forall|i: int| 0 <= i < counts.len() ==> #[trigger] counts[i] >= 1,
                    n == product(counts.take(k as int)),
                    axes@.len() > 0,
                    first_empty_from(av, 0) is None,
                    mode == Mode::Cross,
                decreases axes@.len() - k,
            {
                assert(av[k as int] == axes@[k as int]@);
                let len = axes[k].values.len();
                assert(counts[k as int] == len);
                proof {
                    lemma_product_push(counts.take(k as int), counts[k as int]);
                    assert(counts.take(k as int).push(counts[k as int]) =~= counts.take(k + 1));
                }
                match n.checked_mul(len) {
                    Some(m) => {
                        n = m;
                    },
                    None => {
                        proof {
                            lemma_product_parts_le(counts, k + 1);
                        }
                        return Err(SweepError::TooLarge { cardinality: usize::MAX, max: usize::MAX });
                    },
                }
                k += 1;
            }
            assert(counts.take(k as int) =~= counts);
            Ok(n)
        },
        Mode::Zip => {
            let expected = axes[0].values.len();
            assert(av[0] == axes@[0]@);
            let mut k: usize = 1;
            while k < axes.len()
                invariant
                    1 <= k <= axes@.len(),
                    av == axes_view(axes@),
                    expected == av[0].values.len(),
                    first_mismatch_from(av, 1) == first_mismatch_from(av, k as int),
                    first_empty_from(av, 0) is None,
                    mode == Mode::Zip,
                decreases axes@.len() - k,
            {
                assert(av[k as int] == axes@[k as int]@);
                let got = axes[k].values.len();
                if got != expected {
                    return Err(
                        SweepError::ZipMismatch {
                            axis_index: k,
                            axis_path: axes[k].label.clone(),
                            expected,
                            got,
                        },
                    );
                }
                k += 1;
            }
            Ok(expected)
        },
    }
}

proof fn lemma_first_empty_none(axes: Seq<AxisV>, k: int, i: int)
    requires
        0 <= k <= i < axes.len(),
        first_empty_from(axes, k) is None,
    ensures
        axes[i].values.len() > 0,
    decreases i - k,
{
    if k < i {
        lemma_first_empty_none(axes, k + 1, i);
    }
}


// ---------------------------------------------------------------------------
// Which value of each axis the i-th config takes
// ---------------------------------------------------------------------------

/// The position of the value that each axis gives the `i`-th config: in
/// zip mode `i` for every axis; in cross mode the digits of `i` in the mixed
/// radix of the axis lengths, the rightmost axis varying fastest.
pub open spec fn spec_index_for(i: nat, counts: Seq<nat>, mode: Mode) -> Seq<nat> {
    Seq::new(counts.len(), |k: int| index_digit(i, counts, mode, k))
}

/// The position of the value that axis `k` gives the `i`-th config.
pub open spec fn index_digit(i: nat, counts: Seq<nat>, mode: Mode, k: int) -> nat {
    match mode {
        Mode::Zip => i,
        Mode::Cross => (i / product(counts.skip(k + 1))) % counts[k],
    }
}

proof fn lemma_product_skip_step(s: Seq<nat>, k: int)
    requires
        0 <= k < s.len(),
    ensures
        product(s.skip(k)) == s[k] * product(s.skip(k + 1)),
{
    assert(s.skip(k).drop_first() =~= s.skip(k + 1));
    assert(s.skip(k)[0] == s[k]);
}

/// The position of each axis's value in the `i`-th config.
fn index_for(i: usize, axes: &[Axis], mode: Mode) -> (r: Vec<usize>)
    requires
        forall|k: int| 0 <= k < axes@.len() ==> #[trigger] axes@[k].values@.len() >= 1,
        mode == Mode::Cross ==> product(value_counts(axes_view(axes@))) <= usize::MAX,
    ensures
        r@.len() == axes@.len(),
        forall|k: int|
            0 <= k < axes@.len() ==> (#[trigger] r@[k]) as nat == spec_index_for(
                i as nat,
                value_counts(axes_view(axes@)),
                mode,
            )[k],
{
    let ghost counts = value_counts(axes_view(axes@));
    let n = axes.len();
    let mut indices: Vec<usize> = Vec::new();
    let mut k: usize = 0;
    while k < n
        invariant
            k <= n == axes@.len(),
            indices@.len() == k,
            forall|j: int| 0 <= j < k ==> indices@[j] == i,
        decreases n - k,
    {
        indices.push(i);
        k += 1;
    }
    match mode {
        Mode::Zip => {
            assert forall|k: int| 0 <= k < axes@.len() implies (#[trigger] indices@[k]) as nat
                == spec_index_for(i as nat, counts, mode)[k] by {}
            indices
        },
        Mode::Cross => {
            assert forall|j: int| 0 <= j < counts.len() implies #[trigger] counts[j] >= 1 by {
                assert(axes_view(axes@)[j] == axes@[j]@);
            }
            let mut stride: usize = 1;
            let mut k: usize = n;
            assert(counts.skip(n as int) =~= Seq::<nat>::empty());
            while k > 0
                invariant
                    k <= n == axes@.len() == counts.len(),
                    indices@.len() == n,
                    counts == value_counts(axes_view(axes@)),
                    forall|j: int| 0 <= j < counts.len() ==> #[trigger] counts[j] >= 1,
                    product(counts) <= usize::MAX,
                    stride == product(counts.skip(k as int)),
                    forall|j: int|
                        k <= j < n ==> (#[trigger] indices@[j]) as nat == (i as nat / product(
                            counts.skip(j + 1),
                        )) % counts[j],
                decreases k,
            {
                k -= 1;
                assert(axes_view(axes@)[k as int] == axes@[k as int]@);
                let len = axes[k].values.len();
                assert(counts[k as int] == len);
                proof {
                    lemma_product_skip_step(counts, k as int);
                    lemma_product_parts_le(counts, k as int);
                    let sk = counts.skip(k + 1);
                    assert forall|j: int| 0 <= j < sk.len() implies #[trigger] sk[j] >= 1 by {
                        assert(sk[j] == counts[j + k + 1]);
                    }
                    lemma_product_pos(sk);
                    assert(stride * len == len * stride) by (nonlinear_arith);
                }
                indices.set(k, (i / stride) % len);
                stride = stride * len;
            }
            assert forall|j: int| 0 <= j < axes@.len() implies (#[trigger] indices@[j]) as nat
                == spec_index_for(i as nat, counts, mode)[j] by {}
            indices
        },
    }
}

proof fn lemma_mod_bound_nat(x: nat, m: nat)
    requires
        m > 0,
    ensures
        x % m < m,
{
    vstd::arithmetic::div_mod::lemma_mod_bound(x as int, m as int);
}

// ---------------------------------------------------------------------------
// Building the configs
// ---------------------------------------------------------------------------

/// Writes `v` at each path in turn; stops at the first error.
pub open spec fn apply_paths(cfg: JsonV, paths: Seq<Seq<SegV>>, v: JsonV) -> (JsonV, Result<
    (),
    ApplyErrorV,
>)
    decreases paths.len(),
{
    if paths.len() == 0 {
        (cfg, Ok(()))
    } else {
        let (c1, r) = spec_apply_segments(cfg, paths[0], v);
        match r {
            Ok(()) => apply_paths(c1, paths.drop_first(), v),
            Err(e) => (c1, Err(e)),
        }
    }
}

/// Gives each axis in turn its value at the position `idx` names: writes it
/// at the axis's paths, and records it under the axis's label.
pub open spec fn combine(
    cfg: JsonV,
    amap: Seq<(Seq<char>, JsonV)>,
    axes: Seq<AxisV>,
    idx: Seq<nat>,
) -> Result<ItemV, SweepErrorV>
    decreases axes.len(),
{
    if axes.len() == 0 {
        Ok(ItemV { axes: amap, config: cfg })
    } else {
        let v = axes[0].values[idx[0] as int];
        let (c1, r) = apply_paths(cfg, axes[0].paths, v);
        match r {
            Ok(()) => combine(
                c1,
                obj_insert(amap, axes[0].label, v),
                axes.drop_first(),
                idx.drop_first(),
            ),
            Err(e) => Err(SweepErrorV::Apply { axis_path: axes[0].label, inner: e }),
        }
    }
}

/// The `i`-th config.
pub open spec fn spec_item(base: JsonV, axes: Seq<AxisV>, mode: Mode, i: nat) -> Result<
    ItemV,
    SweepErrorV,
> {
    combine(base, Seq::empty(), axes, spec_index_for(i, value_counts(axes), mode))
}

/// The first `m` configs, or the first error among them.
pub open spec fn spec_items(base: JsonV, axes: Seq<AxisV>, mode: Mode, m: nat) -> Result<
    Seq<ItemV>,
    SweepErrorV,
>
    decreases m,
{
    if m == 0 {
        Ok(Seq::empty())
    } else {
        match spec_items(base, axes, mode, (m - 1) as nat) {
            Err(e) => Err(e),
            Ok(s) => match spec_item(base, axes, mode, (m - 1) as nat) {
                Ok(it) => Ok(s.push(it)),
                Err(e) => Err(e),
            },
        }
    }
}

/// What `expand` gives: the configs, one per combination in iteration
/// order, or why there are none.
pub open spec fn spec_expand(base: JsonV, axes: Seq<AxisV>, mode: Mode, max: nat) -> Result<
    Seq<ItemV>,
    SweepErrorV,
> {
    match spec_cardinality(axes, mode) {
        Err(e) => Err(e),
        Ok(n) => if n > max {
            Err(SweepErrorV::TooLarge { cardinality: n, max })
        } else {
            spec_items(base, axes, mode, n)
        },
    }
}

/// Model of a sequence of sweep items.
pub open spec fn items_view(s: Seq<SweepItem>) -> Seq<ItemV> {
    Seq::new(s.len(), |i: int| s[i]@)
}

/// All values of all axes are well formed.
pub open spec fn axes_wf(axes: Seq<AxisV>) -> bool {
    forall|k: int, j: int|
        0 <= k < axes.len() && 0 <= j < axes[k].values.len() ==> (#[trigger] axes[k].values[j]).wf()
}

proof fn lemma_items_err_persist(base: JsonV, axes: Seq<AxisV>, mode: Mode, m: nat, n: nat)
    requires
        m <= n,
        spec_items(base, axes, mode, m) is Err,
    ensures
        spec_items(base, axes, mode, n) == spec_items(base, axes, mode, m),
    decreases n - m,
{
    if m < n {
        lemma_items_err_persist(base, axes, mode, m, (n - 1) as nat);
    }
}

/// Builds one config.
fn build_item(base: &Json, axes: &[Axis], indices: &Vec<usize>) -> (r: Result<
    SweepItem,
    SweepError,
>)
    requires
        base@.wf(),
        axes_wf(axes_view(axes@)),
        indices@.len() == axes@.len(),
        forall|k: int| 0 <= k < axes@.len() ==> #[trigger] indices@[k] < axes@[k].values@.len(),
    ensures
        match r {
            Ok(it) => combine(
                base@,
                Seq::empty(),
                axes_view(axes@),
                Seq::new(indices@.len(), |k: int| indices@[k] as nat),
            ) == Ok::<ItemV, SweepErrorV>(it@),
            Err(e) => combine(
                base@,
                Seq::empty(),
                axes_view(axes@),
                Seq::new(indices@.len(), |k: int| indices@[k] as nat),
            ) == Err::<ItemV, SweepErrorV>(e@),
        },
{
    let ghost av = axes_view(axes@);
    let ghost idx = Seq::new(indices@.len(), |k: int| indices@[k] as nat);
    let mut config = base.deep_clone();
    let mut amap: Vec<(String, Json)> = Vec::new();
    assert(entries_view(amap@) =~= Seq::<(Seq<char>, JsonV)>::empty());
    assert(av.skip(0) =~= av);
    assert(idx.skip(0) =~= idx);
    let mut k: usize = 0;
    while k < axes.len()
        invariant
            k <= axes@.len() == indices@.len(),
            av == axes_view(axes@),
            idx == Seq::new(indices@.len(), |k: int| indices@[k] as nat),
            axes_wf(av),
            forall|j: int| 0 <= j < axes@.len() ==> #[trigger] indices@[j] < axes@[j].values@.len(),
            config@.wf(),
            combine(base@, Seq::empty(), av, idx) == combine(
                config@,
                entries_view(amap@),
                av.skip(k as int),
                idx.skip(k as int),
            ),
        decreases axes@.len() - k,
    {
        let axis = &axes[k];
        assert(av[k as int] == axis@);
        let pos = indices[k];
        let value = &axis.values[pos];
        assert(av[k as int].values[pos as int] == value@);
        assert(value@.wf());
        let ghost rest_axes = av.skip(k as int);
        let ghost rest_idx = idx.skip(k as int);
        assert(rest_axes[0] == av[k as int]);
        assert(rest_idx[0] == pos as nat);
        assert(rest_axes.drop_first() =~= av.skip(k + 1));
        assert(rest_idx.drop_first() =~= idx.skip(k + 1));
        let ghost paths = av[k as int].paths;
        let ghost c_k = config@;
        let ghost m_k = entries_view(amap@);
        assert(paths.skip(0) =~= paths);
        let ghost target = combine(base@, Seq::empty(), av, idx);
        assert(target == match apply_paths(c_k, paths, value@) {
            (c1, Ok(())) => combine(
                c1,
                obj_insert(m_k, av[k as int].label, value@),
                av.skip(k + 1),
                idx.skip(k + 1),
            ),
            (_, Err(e)) => Err(SweepErrorV::Apply { axis_path: av[k as int].label, inner: e }),
        });
        let mut j: usize = 0;
        while j < axis.paths.len()
            invariant
                j <= axis.paths@.len(),
                k < axes@.len(),
                av == axes_view(axes@),
                idx == Seq::new(indices@.len(), |k: int| indices@[k] as nat),
                paths == axis@.paths,
                axis@ == av[k as int],
                value@.wf(),
                config@.wf(),
                entries_view(amap@) == m_k,
                target == combine(base@, Seq::empty(), av, idx),
                target == match apply_paths(c_k, paths, value@) {
                    (c1, Ok(())) => combine(
                        c1,
                        obj_insert(m_k, av[k as int].label, value@),
                        av.skip(k + 1),
                        idx.skip(k + 1),
                    ),
                    (_, Err(e)) => Err(SweepErrorV::Apply { axis_path: av[k as int].label, inner: e }),
                },
                apply_paths(c_k, paths, value@) == apply_paths(
                    config@,
                    paths.skip(j as int),
                    value@,
                ),
            decreases axis.paths@.len() - j,
        {
            assert(paths[j as int] == segs_view(axis.paths@[j as int]@));
            assert(paths.skip(j as int)[0] == paths[j as int]);
            assert(paths.skip(j as int).drop_first() =~= paths.skip(j + 1));
            let ghost before = config@;
            let segs = axis.paths[j].as_slice();
            assert(segs_view(segs@) == paths[j as int]);
            match apply_segments(&mut config, segs, value) {
                Ok(()) => {},
                Err(e) => {
                    assert(apply_paths(before, paths.skip(j as int), value@).1 == Err::<
                        (),
                        ApplyErrorV,
                    >(e@));
                    assert(apply_paths(c_k, paths, value@).1 == Err::<(), ApplyErrorV>(e@));
                    return Err(SweepError::Apply { axis_path: axis.label.clone(), inner: e });
                },
            }
            j += 1;
        }
        assert(paths.skip(j as int) =~= Seq::<Seq<SegV>>::empty());
        let ghost m0 = entries_view(amap@);
        entries_insert(&mut amap, axis.label.clone(), value.deep_clone());
        k += 1;
    }
    assert(av.skip(k as int) =~= Seq::<AxisV>::empty());
    Ok(SweepItem { axes: amap, config })
}

/// Expands the sweep into its configs: each is `base` with, for every axis
/// in order, that axis's value for the combination written at each of its
/// paths. Refused before anything is built when the sweep has more than
/// `max` configs.
pub fn expand(base: &Json, axes: &[Axis], mode: Mode, max: usize) -> (r: Result<
    Vec<SweepItem>,
    SweepError,
>)
    requires
        base@.wf(),
        axes_wf(axes_view(axes@)),
    ensures
        match r {
            Ok(items) => spec_expand(base@, axes_view(axes@), mode, max as nat) == Ok::<
                Seq<ItemV>,
                SweepErrorV,
            >(items_view(items@)),
            Err(e) => spec_expand(base@, axes_view(axes@), mode, max as nat) == Err::<
                Seq<ItemV>,
                SweepErrorV,
            >(e@),
        },
{
    let ghost av = axes_view(axes@);
    let n = match cardinality(axes, mode) {
        Ok(n) => n,
        Err(e) => {
            return Err(e);
        },
    };
    if n > max {
        return Err(SweepError::TooLarge { cardinality: n, max });
    }
    let ghost counts = value_counts(av);
    proof {
        lemma_cardinality_facts(av, mode);
    }
    assert forall|k: int| 0 <= k < axes@.len() implies #[trigger] axes@[k].values@.len() >= 1 by {
        assert(av[k] == axes@[k]@);
        assert(counts[k] >= 1);
    }
    let mut out: Vec<SweepItem> = Vec::new();
    assert(items_view(out@) =~= Seq::<ItemV>::empty());
    let mut i: usize = 0;
    while i < n
        invariant
            i <= n,
            av == axes_view(axes@),
            counts == value_counts(av),
            spec_cardinality(av, mode) == Ok::<nat, SweepErrorV>(n as nat),
            n <= max,
            base@.wf(),
            axes_wf(av),
            forall|k: int| 0 <= k < axes@.len() ==> #[trigger] axes@[k].values@.len() >= 1,
            mode == Mode::Cross ==> product(counts) <= usize::MAX,
            mode == Mode::Cross ==> product(counts) == n,
            mode == Mode::Zip ==> forall|k: int| 0 <= k < axes@.len() ==> #[trigger] counts[k] == n,
            spec_items(base@, av, mode, i as nat) == Ok::<Seq<ItemV>, SweepErrorV>(
                items_view(out@),
            ),
        decreases n - i,
    {
        let indices = index_for(i, axes, mode);
        let ghost spec_idx = spec_index_for(i as nat, counts, mode);
        assert forall|k: int| 0 <= k < axes@.len() implies #[trigger] indices@[k]
            < axes@[k].values@.len() by {
            assert(av[k] == axes@[k]@);
            assert(counts[k] == axes@[k].values@.len());
            if mode == Mode::Cross {
                lemma_mod_bound_nat(i as nat / product(counts.skip(k + 1)), counts[k]);
            }
        }
        assert(Seq::new(indices@.len(), |k: int| indices@[k] as nat) =~= spec_idx);
        match build_item(base, axes, &indices) {
            Ok(it) => {
                let ghost old_items = items_view(out@);
                let ghost itv = it@;
                out.push(it);
                assert(items_view(out@) =~= old_items.push(itv));
            },
            Err(e) => {
                proof {
                    lemma_items_err_persist(base@, av, mode, (i + 1) as nat, n as nat);
                }
                return Err(e);
            },
        }
        i += 1;
    }
    Ok(out)
}

/// What a successful cardinality tells of the axes.
proof fn lemma_cardinality_facts(axes: Seq<AxisV>, mode: Mode)
    requires
        spec_cardinality(axes, mode) is Ok,
    ensures
        forall|k: int| 0 <= k < axes.len() ==> #[trigger] value_counts(axes)[k] >= 1,
        mode == Mode::Cross ==> product(value_counts(axes)) <= usize::MAX && spec_cardinality(
            axes,
            mode,
        ) == Ok::<nat, SweepErrorV>(product(value_counts(axes))),
        mode == Mode::Zip ==> forall|k: int|
            0 <= k < axes.len() ==> #[trigger] value_counts(axes)[k] == spec_cardinality(
                axes,
                mode,
            )->Ok_0,
{
    assert forall|k: int| 0 <= k < axes.len() implies #[trigger] value_counts(axes)[k] >= 1 by {
        lemma_first_empty_none(axes, 0, k);
    }
    if mode == Mode::Zip {
        assert forall|k: int| 0 <= k < axes.len() implies #[trigger] value_counts(axes)[k]
            == spec_cardinality(axes, mode)->Ok_0 by {
            if k > 0 {
                lemma_first_mismatch_none(axes, 1, k);
            }
        }
    }
}

proof fn lemma_first_mismatch_none(axes: Seq<AxisV>, k: int, i: int)
    requires
        0 <= k <= i < axes.len(),
        first_mismatch_from(axes, k) is None,
    ensures
        axes[i].values.len() == axes[0].values.len(),
    decreases i - k,
{
    if k < i {
        lemma_first_mismatch_none(axes, k + 1, i);
    }
}


// ---------------------------------------------------------------------------
// Cross mode enumerates every combination once, rightmost fastest
// ---------------------------------------------------------------------------

/// The rank of the combination `t` in the lexicographic order of
/// combinations (the rightmost position varying fastest).
pub open spec fn combination_rank(t: Seq<nat>, counts: Seq<nat>) -> nat
    decreases t.len(),
{
    if t.len() == 0 || counts.len() == 0 {
        0
    } else {
        combination_rank(t.drop_last(), counts.drop_last()) * counts.last() + t.last()
    }
}

/// `t` picks, for each axis, one of its values.
pub open spec fn in_range(t: Seq<nat>, counts: Seq<nat>) -> bool {
    t.len() == counts.len() && forall|k: int| 0 <= k < t.len() ==> #[trigger] t[k] < counts[k]
}

pub open spec fn all_positive(counts: Seq<nat>) -> bool {
    forall|k: int| 0 <= k < counts.len() ==> #[trigger] counts[k] >= 1
}

proof fn lemma_product_drop_last(c: Seq<nat>)
    requires
        c.len() > 0,
    ensures
        product(c) == product(c.drop_last()) * c.last(),
{
    lemma_product_push(c.drop_last(), c.last());
    assert(c.drop_last().push(c.last()) =~= c);
}

proof fn lemma_digits_drop_last(i: nat, c: Seq<nat>, k: int)
    requires
        c.len() > 0,
        0 <= k < c.len() - 1,
        all_positive(c),
    ensures
        index_digit(i, c, Mode::Cross, k) == index_digit(i / c.last(), c.drop_last(), Mode::Cross, k),
{
    let cp = c.drop_last();
    let l = c.last();
    assert(c.skip(k + 1) =~= cp.skip(k + 1).push(l));
    lemma_product_push(cp.skip(k + 1), l);
    let sk = cp.skip(k + 1);
    assert forall|j: int| 0 <= j < sk.len() implies #[trigger] sk[j] >= 1 by {
        assert(sk[j] == c[j + k + 1]);
    }
    lemma_product_pos(sk);
    assert(c[k] == cp[k]);
    vstd::arithmetic::div_mod::lemma_div_denominator(i as int, l as int, product(sk) as int);
    assert(l * product(sk) == product(sk) * l) by (nonlinear_arith);
}

/// In cross mode the `i`-th config takes the combination whose rank is `i`:
/// every position is in range, and ranking the positions gives `i` back. So
/// the configs come in lexicographic order of combinations, the rightmost
/// axis varying fastest, and no combination comes twice.
pub proof fn law_cross_order(i: nat, counts: Seq<nat>)
    requires
        all_positive(counts),
        i < product(counts),
    ensures
        in_range(spec_index_for(i, counts, Mode::Cross), counts),
        combination_rank(spec_index_for(i, counts, Mode::Cross), counts) == i,
    decreases counts.len(),
{
    let t = spec_index_for(i, counts, Mode::Cross);
    assert forall|k: int| 0 <= k < t.len() implies #[trigger] t[k] < counts[k] by {
        lemma_mod_bound_nat(i / product(counts.skip(k + 1)), counts[k]);
    }
    if counts.len() > 0 {
        let cp = counts.drop_last();
        let l = counts.last();
        assert forall|k: int| 0 <= k < cp.len() implies #[trigger] cp[k] >= 1 by {
            assert(cp[k] == counts[k]);
        }
        lemma_product_drop_last(counts);
        let q = i / l;
        assert(q < product(cp)) by (nonlinear_arith)
            requires
                i < product(cp) * l,
                q == i / l,
                l >= 1,
        ;
        law_cross_order(q, cp);
        let tp = spec_index_for(q, cp, Mode::Cross);
        assert forall|k: int| 0 <= k < tp.len() implies t.drop_last()[k] == tp[k] by {
            lemma_digits_drop_last(i, counts, k);
        }
        assert(t.drop_last() =~= tp);
        assert(counts.skip(counts.len() as int) =~= Seq::<nat>::empty());
        assert(product(Seq::<nat>::empty()) == 1);
        assert(i / 1 == i);
        assert(t.last() == i % l);
        vstd::arithmetic::div_mod::lemma_fundamental_div_mod(i as int, l as int);
        assert(q * l + i % l == i) by (nonlinear_arith)
            requires
                i == l * (i / l) + i % l,
                q == i / l,
        ;
    }
}

/// Every combination is taken by exactly one config in cross mode: the one
/// whose index is the combination's rank.
pub proof fn law_cross_complete(t: Seq<nat>, counts: Seq<nat>)
    requires
        all_positive(counts),
        in_range(t, counts),
    ensures
        combination_rank(t, counts) < product(counts),
        spec_index_for(combination_rank(t, counts), counts, Mode::Cross) == t,
    decreases counts.len(),
{
    if counts.len() == 0 {
        assert(t =~= spec_index_for(0, counts, Mode::Cross));
    } else {
        let cp = counts.drop_last();
        let tp = t.drop_last();
        let l = counts.last();
        assert forall|k: int| 0 <= k < cp.len() implies #[trigger] cp[k] >= 1 by {
            assert(cp[k] == counts[k]);
        }
        assert forall|k: int| 0 <= k < tp.len() implies #[trigger] tp[k] < cp[k] by {
            assert(tp[k] == t[k]);
            assert(cp[k] == counts[k]);
        }
        law_cross_complete(tp, cp);
        lemma_product_drop_last(counts);
        let rp = combination_rank(tp, cp);
        let r = combination_rank(t, counts);
        assert(t.last() < l);
        assert(r == rp * l + t.last());
        assert(r < product(cp) * l) by (nonlinear_arith)
            requires
                r == rp * l + t.last(),
                rp < product(cp),
                t.last() < l,
        ;
        vstd::arithmetic::div_mod::lemma_fundamental_div_mod_converse(
            r as int,
            l as int,
            rp as int,
            t.last() as int,
        );
        let u = spec_index_for(r, counts, Mode::Cross);
        assert forall|k: int| 0 <= k < t.len() implies u[k] == t[k] by {
            if k < t.len() - 1 {
                lemma_digits_drop_last(r, counts, k);
                assert(spec_index_for(rp, cp, Mode::Cross)[k] == tp[k]);
                assert(tp[k] == t[k]);
            } else {
                assert(counts.skip(counts.len() as int) =~= Seq::<nat>::empty());
                assert(product(Seq::<nat>::empty()) == 1);
                assert(r / 1 == r);
            }
        }
        assert(u =~= t);
    }
}

/// In zip mode the `i`-th config takes the `i`-th value of every axis.
pub proof fn law_zip_order(i: nat, counts: Seq<nat>)
    ensures
        forall|k: int| 0 <= k < counts.len() ==> #[trigger] spec_index_for(i, counts, Mode::Zip)[k] == i,
{
}

/// The first `m` configs are built exactly when each of them is, and then
/// the `i`-th is the `i`-th config.
proof fn lemma_items_ok(base: JsonV, axes: Seq<AxisV>, mode: Mode, m: nat)
    ensures
        spec_items(base, axes, mode, m) is Ok <==> forall|i: nat|
            i < m ==> #[trigger] spec_item(base, axes, mode, i) is Ok,
        spec_items(base, axes, mode, m) matches Ok(s) ==> s.len() == m && forall|i: int|
            0 <= i < m ==> spec_item(base, axes, mode, i as nat) == Ok::<ItemV, SweepErrorV>(
                #[trigger] s[i],
            ),
    decreases m,
{
    if m > 0 {
        let p = (m - 1) as nat;
        lemma_items_ok(base, axes, mode, p);
        if spec_items(base, axes, mode, m) is Ok {
            assert forall|i: nat| i < m implies #[trigger] spec_item(base, axes, mode, i) is Ok by {
                if i < p {
                    assert(spec_item(base, axes, mode, i) is Ok);
                }
            }
        }
        if forall|i: nat| i < m ==> #[trigger] spec_item(base, axes, mode, i) is Ok {
            assert(spec_item(base, axes, mode, p) is Ok);
            assert forall|i: nat| i < p implies #[trigger] spec_item(base, axes, mode, i) is Ok by {
                assert(spec_item(base, axes, mode, i) is Ok);
            }
        }
    }
}

/// The configs of a sweep, one per combination: when `expand` succeeds it
/// gives as many configs as `cardinality` counts, no more than `max`, and
/// the `i`-th is `base` with each axis's value at the `i`-th combination
/// written at that axis's paths, the values recorded under the axes'
/// labels. It succeeds exactly when the count is within `max` and every
/// config can be built.
pub proof fn law_expand_items(base: JsonV, axes: Seq<AxisV>, mode: Mode, max: nat)
    ensures
        spec_expand(base, axes, mode, max) is Ok <==> (spec_cardinality(axes, mode) matches Ok(n)
            && n <= max && forall|i: nat| i < n ==> #[trigger] spec_item(base, axes, mode, i) is Ok),
        spec_expand(base, axes, mode, max) matches Ok(items) ==> {
            &&& spec_cardinality(axes, mode) == Ok::<nat, SweepErrorV>(items.len())
            &&& items.len() <= max
            &&& forall|i: int|
                0 <= i < items.len() ==> combine(
                    base,
                    Seq::empty(),
                    axes,
                    spec_index_for(i as nat, value_counts(axes), mode),
                ) == Ok::<ItemV, SweepErrorV>(#[trigger] items[i])
        },
{
    if let Ok(n) = spec_cardinality(axes, mode) {
        lemma_items_ok(base, axes, mode, n);
        if let Ok(items) = spec_expand(base, axes, mode, max) {
            assert forall|i: int| 0 <= i < items.len() implies combine(
                base,
                Seq::empty(),
                axes,
                spec_index_for(i as nat, value_counts(axes), mode),
            ) == Ok::<ItemV, SweepErrorV>(#[trigger] items[i]) by {
                assert(spec_item(base, axes, mode, i as nat) == Ok::<ItemV, SweepErrorV>(items[i]));
            }
        }
    }
}

} // verus!

