//! Placement-rule validation.
//!
//! A grid is checked against 27 rule groups: 9 rows, 9 columns and 9
//! 3-by-3 boxes.  Validation never stops early: every digit that occupies
//! two or more cells of one group yields one [`ValidationError`], and the
//! complete list is returned, ordered by kind (rows, then columns, then
//! boxes), then by group index, then by digit.

use crate::grid::grid_wf;
use crate::grid::Sudoku;
use some_to_err::ErrOr;
use vstd::prelude::*;

verus! {

broadcast use vstd::seq_lib::group_seq_properties;

/// The rule group a duplicated digit was found in, with its index `0..=8`.
#[derive(Debug, PartialEq, Eq, Clone, Copy, Structural)]
pub enum ValidationErrorType {
    /// A column, indexed left to right.
    Column(usize),
    /// A row, indexed top to bottom.
    Row(usize),
    /// A 3-by-3 box, indexed row-major.
    Box(usize),
}

/// The coordinates at which one digit repeats inside one rule group: at
/// least 2 and at most 9 entries, so a vector bounded by the group size.
pub type Indexes = tinyvec::ArrayVec<[(usize, usize); 9]>;

#[verifier::external_type_specification]
#[verifier::external_body]
#[verifier::reject_recursive_types(A)]
pub struct ExArrayVec<A>(tinyvec::ArrayVec<A>);

/// The sequence of coordinate pairs an `Indexes` holds, in insertion order.
pub uninterp spec fn indexes_seq(v: Indexes) -> Seq<(usize, usize)>;

/// A violation of the placement rules.
#[derive(Debug, PartialEq, Eq)]
pub enum ValidationError {
    /// `value` occurs more than once in the rule group `type_`; `indexes`
    /// lists every coordinate at which it occurs there, in scan order.
    Dublication { type_: ValidationErrorType, value: u8, indexes: Indexes },
}

/// Relies on tinyvec's `ArrayVec::new`: a freshly built vector is empty.
#[verifier::external_body]
fn indexes_new() -> (r: Indexes)
    ensures
        indexes_seq(r) == Seq::<(usize, usize)>::empty(),
{
    tinyvec::ArrayVec::new()
}

/// Relies on tinyvec's `ArrayVec::push`: the element lands at the end.  The
/// capacity of `Indexes` is 9 and `push` panics above it, so callers stay
/// below.
#[verifier::external_body]
fn indexes_push(v: &mut Indexes, row: usize, col: usize)
    requires
        indexes_seq(*old(v)).len() < 9,
    ensures
        indexes_seq(*final(v)) == indexes_seq(*old(v)).push((row, col)),
{
    v.push((row, col))
}

/// Relies on tinyvec's `ArrayVec::len`: the number of elements held.
#[verifier::external_body]
fn indexes_len(v: &Indexes) -> (n: usize)
    ensures
        n == indexes_seq(*v).len(),
{
    v.len()
}

/// Relies on some_to_err's `ErrOr::err_or`: `Some` becomes `Err` carrying
/// its value, `None` becomes `Ok` carrying the given grid.
#[verifier::external_body]
fn err_or_grid(violations: Option<Vec<ValidationError>>, ok: Sudoku) -> (r: Result<
    Sudoku,
    Vec<ValidationError>,
>)
    ensures
        r == (match violations {
            Some(es) => Err::<Sudoku, Vec<ValidationError>>(es),
            None => Ok::<Sudoku, Vec<ValidationError>>(ok),
        }),
{
    violations.err_or(ok)
}

/// Whether a group type names a group index below 9.
pub open spec fn type_wf(t: ValidationErrorType) -> bool {
    match t {
        ValidationErrorType::Row(k) => k < 9,
        ValidationErrorType::Column(k) => k < 9,
        ValidationErrorType::Box(k) => k < 9,
    }
}

/// The coordinate of position `p` inside group `t`.  Positions `0..9` walk
/// the group in the grid's row-major order: a row left to right, a column
/// top to bottom, a box row by row.
pub open spec fn group_cell(t: ValidationErrorType, p: int) -> (int, int) {
    match t {
        ValidationErrorType::Row(k) => (k as int, p),
        ValidationErrorType::Column(k) => (p, k as int),
        ValidationErrorType::Box(k) => ((k as int / 3) * 3 + p / 3, (k as int % 3) * 3 + p % 3),
    }
}

/// The coordinates among the first `p` positions of group `t` whose cell
/// holds digit `d`, in scan order.
pub open spec fn coords_upto(g: Seq<Seq<u8>>, t: ValidationErrorType, d: u8, p: int) -> Seq<
    (usize, usize),
>
    decreases p,
{
    if p <= 0 {
        Seq::empty()
    } else {
        let prev = coords_upto(g, t, d, p - 1);
        let ij = group_cell(t, p - 1);
        if g[ij.0][ij.1] == d {
            prev.push((ij.0 as usize, ij.1 as usize))
        } else {
            prev
        }
    }
}

/// Every coordinate of group `t` whose cell holds digit `d`, in scan order.
pub open spec fn dup_coords(g: Seq<Seq<u8>>, t: ValidationErrorType, d: u8) -> Seq<
    (usize, usize),
> {
    coords_upto(g, t, d, 9)
}

/// The duplicated digits of group `t`, ascending: digit `d` is listed when
/// it occupies at least two cells of the group.
pub open spec fn group_dups_upto(g: Seq<Seq<u8>>, t: ValidationErrorType, d: int) -> Seq<
    (ValidationErrorType, u8),
>
    decreases d,
{
    if d <= 0 {
        Seq::empty()
    } else {
        let prev = group_dups_upto(g, t, d - 1);
        if dup_coords(g, t, d as u8).len() >= 2 {
            prev.push((t, d as u8))
        } else {
            prev
        }
    }
}

/// The duplicated digits of group `t`, over the digits `1..=9`.
pub open spec fn group_dups(g: Seq<Seq<u8>>, t: ValidationErrorType) -> Seq<
    (ValidationErrorType, u8),
> {
    group_dups_upto(g, t, 9)
}

/// The group of one kind with index `k`: kind 0 is rows, 1 is columns, 2 is
/// boxes.
pub open spec fn kind_type(kind: int, k: int) -> ValidationErrorType {
    if kind == 0 {
        ValidationErrorType::Row(k as usize)
    } else if kind == 1 {
        ValidationErrorType::Column(k as usize)
    } else {
        ValidationErrorType::Box(k as usize)
    }
}

/// The duplications of the first `k` groups of one kind, in group order.
pub open spec fn kind_dups_upto(g: Seq<Seq<u8>>, kind: int, k: int) -> Seq<
    (ValidationErrorType, u8),
>
    decreases k,
{
    if k <= 0 {
        Seq::empty()
    } else {
        kind_dups_upto(g, kind, k - 1) + group_dups(g, kind_type(kind, k - 1))
    }
}

/// The duplications of all 9 groups of one kind.
pub open spec fn kind_dups(g: Seq<Seq<u8>>, kind: int) -> Seq<(ValidationErrorType, u8)> {
    kind_dups_upto(g, kind, 9)
}

/// Every duplication of the grid: rows first, then columns, then boxes;
/// within a kind by ascending group index; within a group by ascending
/// digit.
pub open spec fn all_dups(g: Seq<Seq<u8>>) -> Seq<(ValidationErrorType, u8)> {
    kind_dups(g, 0) + kind_dups(g, 1) + kind_dups(g, 2)
}

/// Whether the error `e` reports the duplication `d`: same group, same
/// digit, and exactly the coordinates at which the digit occurs there.
pub open spec fn err_matches(
    g: Seq<Seq<u8>>,
    e: ValidationError,
    d: (ValidationErrorType, u8),
) -> bool {
    e matches ValidationError::Dublication { type_, value, indexes } && type_ == d.0 && value
        == d.1 && indexes_seq(indexes) == dup_coords(g, d.0, d.1)
}

/// Whether the errors `es` report exactly the duplications `ds`, in order.
pub open spec fn errs_match(
    g: Seq<Seq<u8>>,
    es: Seq<ValidationError>,
    ds: Seq<(ValidationErrorType, u8)>,
) -> bool {
    es.len() == ds.len() && forall|n: int|
        0 <= n < ds.len() ==> #[trigger] err_matches(g, es[n], ds[n])
}

/// The positions of group `t` holding digit `d`, among the first `p`
/// positions.
spec fn occurrences_upto(g: Seq<Seq<u8>>, t: ValidationErrorType, d: u8, p: int) -> Set<int> {
    Set::new(|q: int| 0 <= q < p && g[group_cell(t, q).0][group_cell(t, q).1] == d)
}

/// The positions of group `t` at which the grid holds digit `d`.
pub open spec fn occurrences(g: Seq<Seq<u8>>, t: ValidationErrorType, d: u8) -> Set<int> {
    Set::new(|q: int| 0 <= q < 9 && g[group_cell(t, q).0][group_cell(t, q).1] == d)
}

/// How many cells of group `t` hold digit `d`.
pub open spec fn occurrence_count(g: Seq<Seq<u8>>, t: ValidationErrorType, d: u8) -> nat {
    occurrences(g, t, d).len()
}

proof fn lemma_coords_count_upto(g: Seq<Seq<u8>>, t: ValidationErrorType, d: u8, p: int)
    requires
        0 <= p <= 9,
    ensures
        occurrences_upto(g, t, d, p).finite(),
        coords_upto(g, t, d, p).len() == occurrences_upto(g, t, d, p).len(),
    decreases p,
{
    if p <= 0 {
        assert(occurrences_upto(g, t, d, 0) =~= Set::<int>::empty());
    } else {
        lemma_coords_count_upto(g, t, d, p - 1);
        let prev = occurrences_upto(g, t, d, p - 1);
        let ij = group_cell(t, p - 1);
        if g[ij.0][ij.1] == d {
            assert(occurrences_upto(g, t, d, p) =~= prev.insert(p - 1));
            assert(!prev.contains(p - 1));
        } else {
            assert(occurrences_upto(g, t, d, p) =~= prev);
        }
    }
}

/// Validation completeness, coordinates half: the coordinate list reported
/// for a group and digit is exactly as long as the digit's occurrence count
/// in that group.
pub proof fn lemma_dup_coords_complete(g: Seq<Seq<u8>>, t: ValidationErrorType, d: u8)
    ensures
        dup_coords(g, t, d).len() == occurrence_count(g, t, d),
{
    lemma_coords_count_upto(g, t, d, 9);
    assert(occurrences_upto(g, t, d, 9) =~= occurrences(g, t, d));
}

/// The kind a group type belongs to: 0 for rows, 1 for columns, 2 for
/// boxes.
pub open spec fn kind_of(t: ValidationErrorType) -> int {
    match t {
        ValidationErrorType::Row(_) => 0,
        ValidationErrorType::Column(_) => 1,
        ValidationErrorType::Box(_) => 2,
    }
}

/// The group index a group type carries.
pub open spec fn group_index(t: ValidationErrorType) -> int {
    match t {
        ValidationErrorType::Row(k) => k as int,
        ValidationErrorType::Column(k) => k as int,
        ValidationErrorType::Box(k) => k as int,
    }
}

proof fn lemma_group_dups_upto_mem(
    g: Seq<Seq<u8>>,
    t: ValidationErrorType,
    dmax: int,
    x: (ValidationErrorType, u8),
)
    requires
        0 <= dmax <= 9,
    ensures
        group_dups_upto(g, t, dmax).contains(x) <==> (x.0 == t && 1 <= x.1 <= dmax
            && dup_coords(g, t, x.1).len() >= 2),
    decreases dmax,
{
    if dmax > 0 {
        lemma_group_dups_upto_mem(g, t, dmax - 1, x);
        let prev = group_dups_upto(g, t, dmax - 1);
        if dup_coords(g, t, dmax as u8).len() >= 2 {
            assert(group_dups_upto(g, t, dmax) == prev.push((t, dmax as u8)));
            assert(prev.push((t, dmax as u8)).contains(x) <==> ((t, dmax as u8) == x
                || prev.contains(x)));
        }
    } else {
        assert(group_dups_upto(g, t, dmax).len() == 0);
        if group_dups_upto(g, t, dmax).contains(x) {
            let i = choose|i: int|
                0 <= i < group_dups_upto(g, t, dmax).len() && group_dups_upto(g, t, dmax)[i]
                    == x;
        }
    }
}

proof fn lemma_kind_dups_upto_mem(
    g: Seq<Seq<u8>>,
    kind: int,
    kmax: int,
    x: (ValidationErrorType, u8),
)
    requires
        0 <= kind <= 2,
        0 <= kmax <= 9,
    ensures
        kind_dups_upto(g, kind, kmax).contains(x) <==> (kind_of(x.0) == kind && 0 <= group_index(
            x.0,
        ) < kmax && 1 <= x.1 <= 9 && dup_coords(g, x.0, x.1).len() >= 2),
    decreases kmax,
{
    if kmax > 0 {
        lemma_kind_dups_upto_mem(g, kind, kmax - 1, x);
        let t = kind_type(kind, kmax - 1);
        lemma_group_dups_upto_mem(g, t, 9, x);
        let prev = kind_dups_upto(g, kind, kmax - 1);
        let seg = group_dups(g, t);
        assert(kind_dups_upto(g, kind, kmax) == prev + seg);
        assert((prev + seg).contains(x) <==> prev.contains(x) || seg.contains(x));
        if kind_of(x.0) == kind && group_index(x.0) == kmax - 1 {
            assert(x.0 == t);
        }
    } else {
        if kind_dups_upto(g, kind, kmax).contains(x) {
            let i = choose|i: int|
                0 <= i < kind_dups_upto(g, kind, kmax).len() && kind_dups_upto(g, kind, kmax)[i]
                    == x;
        }
    }
}

/// Validation completeness, membership half: a (group, digit) pair is
/// reported exactly when the digit occupies at least two cells of the
/// group.
pub proof fn lemma_all_dups_complete(g: Seq<Seq<u8>>, x: (ValidationErrorType, u8))
    ensures
        all_dups(g).contains(x) <==> (type_wf(x.0) && 1 <= x.1 <= 9 && occurrence_count(
            g,
            x.0,
            x.1,
        ) >= 2),
{
    lemma_kind_dups_upto_mem(g, 0, 9, x);
    lemma_kind_dups_upto_mem(g, 1, 9, x);
    lemma_kind_dups_upto_mem(g, 2, 9, x);
    lemma_dup_coords_complete(g, x.0, x.1);
    assert(type_wf(x.0) <==> 0 <= group_index(x.0) < 9);
    let ab = kind_dups(g, 0) + kind_dups(g, 1);
    assert(all_dups(g) == ab + kind_dups(g, 2));
    assert((ab + kind_dups(g, 2)).contains(x) <==> ab.contains(x) || kind_dups(g, 2).contains(
        x,
    ));
    assert(ab.contains(x) <==> kind_dups(g, 0).contains(x) || kind_dups(g, 1).contains(x));
}

proof fn lemma_group_dups_upto_nodup(g: Seq<Seq<u8>>, t: ValidationErrorType, dmax: int)
    requires
        0 <= dmax <= 9,
    ensures
        forall|n: int|
            0 <= n < group_dups_upto(g, t, dmax).len() ==> ((#[trigger] group_dups_upto(
                g,
                t,
                dmax,
            )[n]).0 == t && 1 <= group_dups_upto(g, t, dmax)[n].1 <= dmax),
        group_dups_upto(g, t, dmax).no_duplicates(),
    decreases dmax,
{
    if dmax > 0 {
        lemma_group_dups_upto_nodup(g, t, dmax - 1);
    }
}

proof fn lemma_kind_dups_upto_nodup(g: Seq<Seq<u8>>, kind: int, kmax: int)
    requires
        0 <= kind <= 2,
        0 <= kmax <= 9,
    ensures
        forall|n: int|
            0 <= n < kind_dups_upto(g, kind, kmax).len() ==> (kind_of(
                (#[trigger] kind_dups_upto(g, kind, kmax)[n]).0,
            ) == kind && 0 <= group_index(kind_dups_upto(g, kind, kmax)[n].0) < kmax),
        kind_dups_upto(g, kind, kmax).no_duplicates(),
    decreases kmax,
{
    if kmax > 0 {
        lemma_kind_dups_upto_nodup(g, kind, kmax - 1);
        let t = kind_type(kind, kmax - 1);
        lemma_group_dups_upto_nodup(g, t, 9);
        let prev = kind_dups_upto(g, kind, kmax - 1);
        let seg = group_dups(g, t);
        let whole = kind_dups_upto(g, kind, kmax);
        assert(whole == prev + seg);
        assert forall|n: int| 0 <= n < whole.len() implies (kind_of((#[trigger] whole[n]).0)
            == kind && 0 <= group_index(whole[n].0) < kmax) by {
            if n < prev.len() {
                assert(whole[n] == prev[n]);
            } else {
                assert(whole[n] == seg[n - prev.len()]);
            }
        }
        assert forall|m: int, n: int| 0 <= m < n < whole.len() implies whole[m]
            != whole[n] by {
            if n < prev.len() {
                assert(whole[m] == prev[m] && whole[n] == prev[n]);
            } else if m >= prev.len() {
                assert(whole[m] == seg[m - prev.len()] && whole[n] == seg[n - prev.len()]);
            } else {
                assert(whole[m] == prev[m] && whole[n] == seg[n - prev.len()]);
                assert(group_index(whole[m].0) < kmax - 1);
                assert(group_index(whole[n].0) == kmax - 1);
            }
        }
    }
}

/// Validation completeness, count half: no (group, digit) pair is reported
/// twice, so with the membership half the number of violations equals the
/// number of pairs whose digit occupies at least two cells of its group.
pub proof fn lemma_all_dups_no_duplicates(g: Seq<Seq<u8>>)
    ensures
        all_dups(g).no_duplicates(),
{
    lemma_kind_dups_upto_nodup(g, 0, 9);
    lemma_kind_dups_upto_nodup(g, 1, 9);
    lemma_kind_dups_upto_nodup(g, 2, 9);
    let a = kind_dups(g, 0);
    let b = kind_dups(g, 1);
    let c = kind_dups(g, 2);
    let whole = all_dups(g);
    assert(whole == a + b + c);
    assert forall|m: int, n: int| 0 <= m < n < whole.len() implies whole[m] != whole[n] by {
        let ka = a.len() as int;
        let kb = (a.len() + b.len()) as int;
        if n < ka {
            assert(whole[m] == a[m] && whole[n] == a[n]);
        } else if m >= kb {
            assert(whole[m] == c[m - kb] && whole[n] == c[n - kb]);
        } else if m >= ka && n < kb {
            assert(whole[m] == b[m - ka] && whole[n] == b[n - ka]);
        } else {
            assert(kind_of(whole[m].0) != kind_of(whole[n].0));
        }
    }
}

/// The pairs a validation must report: a group and a digit occupying at
/// least two of its cells.
pub open spec fn dup_pairs(g: Seq<Seq<u8>>) -> Set<(ValidationErrorType, u8)> {
    Set::new(
        |x: (ValidationErrorType, u8)|
            type_wf(x.0) && 1 <= x.1 <= 9 && occurrence_count(g, x.0, x.1) >= 2,
    )
}

/// Validation completeness, count: the number of violations equals the
/// number of (group, digit) pairs whose digit occupies at least two cells
/// of its group.
pub proof fn lemma_validation_count(g: Seq<Seq<u8>>)
    ensures
        all_dups(g).len() == dup_pairs(g).len(),
{
    lemma_all_dups_no_duplicates(g);
    all_dups(g).unique_seq_to_set();
    assert forall|x: (ValidationErrorType, u8)|
        all_dups(g).to_set().contains(x) <==> #[trigger] dup_pairs(g).contains(x) by {
        lemma_all_dups_complete(g, x);
    }
    assert(all_dups(g).to_set() =~= dup_pairs(g));
}

/// A grid obeying the full placement rules: each digit `1..=9` occupies
/// exactly one cell of every row, column and box.
pub open spec fn proper(g: Seq<Seq<u8>>) -> bool {
    forall|t: ValidationErrorType, d: u8|
        type_wf(t) && 1 <= d <= 9 ==> #[trigger] occurrence_count(g, t, d) == 1
}

proof fn lemma_proper_group(g: Seq<Seq<u8>>, t: ValidationErrorType, dmax: int)
    requires
        proper(g),
        type_wf(t),
        0 <= dmax <= 9,
    ensures
        group_dups_upto(g, t, dmax).len() == 0,
    decreases dmax,
{
    if dmax > 0 {
        lemma_proper_group(g, t, dmax - 1);
        lemma_dup_coords_complete(g, t, dmax as u8);
    }
}

proof fn lemma_proper_kind(g: Seq<Seq<u8>>, kind: int, kmax: int)
    requires
        proper(g),
        0 <= kind <= 2,
        0 <= kmax <= 9,
    ensures
        kind_dups_upto(g, kind, kmax).len() == 0,
    decreases kmax,
{
    if kmax > 0 {
        lemma_proper_kind(g, kind, kmax - 1);
        lemma_proper_group(g, kind_type(kind, kmax - 1), 9);
    }
}

/// The no-false-positives law: a grid satisfying the full placement rules
/// yields no violations at all, so validation returns the grid unchanged.
pub proof fn lemma_proper_validates(g: Seq<Seq<u8>>)
    requires
        proper(g),
    ensures
        all_dups(g).len() == 0,
{
    lemma_proper_kind(g, 0, 9);
    lemma_proper_kind(g, 1, 9);
    lemma_proper_kind(g, 2, 9);
}

/// Matching error lists compose: segment by segment.
proof fn lemma_errs_match_concat(
    g: Seq<Seq<u8>>,
    es1: Seq<ValidationError>,
    ds1: Seq<(ValidationErrorType, u8)>,
    es2: Seq<ValidationError>,
    ds2: Seq<(ValidationErrorType, u8)>,
)
    requires
        errs_match(g, es1, ds1),
        errs_match(g, es2, ds2),
    ensures
        errs_match(g, es1 + es2, ds1 + ds2),
{
    assert forall|n: int| 0 <= n < (ds1 + ds2).len() implies #[trigger] err_matches(
        g,
        (es1 + es2)[n],
        (ds1 + ds2)[n],
    ) by {
        if n < ds1.len() {
            assert((es1 + es2)[n] == es1[n]);
            assert((ds1 + ds2)[n] == ds1[n]);
        } else {
            assert((es1 + es2)[n] == es2[n - es1.len()]);
            assert((ds1 + ds2)[n] == ds2[n - ds1.len()]);
        }
    }
}

impl Sudoku {
    /// Collects the coordinates of group `t` whose cell holds digit `d`.
    fn group_coords(&self, t: ValidationErrorType, d: u8) -> (r: Indexes)
        requires
            type_wf(t),
        ensures
            indexes_seq(r) == dup_coords(self@, t, d),
    {
        proof {
            use_type_invariant(self);
        }
        let mut r = indexes_new();
        let mut p: usize = 0;
        while p < 9
            invariant
                p <= 9,
                grid_wf(self@),
                type_wf(t),
                indexes_seq(r) == coords_upto(self@, t, d, p as int),
                indexes_seq(r).len() <= p,
            decreases 9 - p,
        {
            let (i, j): (usize, usize) = match t {
                ValidationErrorType::Row(k) => (k, p),
                ValidationErrorType::Column(k) => (p, k),
                ValidationErrorType::Box(k) => ((k / 3) * 3 + p / 3, (k % 3) * 3 + p % 3),
            };
            proof {
                assert(group_cell(t, p as int) == (i as int, j as int));
            }
            if self.cell(i, j) == d {
                indexes_push(&mut r, i, j);
            }
            p += 1;
        }
        r
    }

    /// Appends one error for each digit duplicated in group `t`, digits
    /// ascending.
    fn group_errors(&self, t: ValidationErrorType, errs: &mut Vec<ValidationError>)
        requires
            type_wf(t),
        ensures
            final(errs)@.len() == old(errs)@.len() + group_dups(self@, t).len(),
            final(errs)@.subrange(0, old(errs)@.len() as int) == old(errs)@,
            errs_match(self@, final(errs)@.skip(old(errs)@.len() as int), group_dups(self@, t)),
    {
        let ghost n0 = errs@.len() as int;
        let mut d: u8 = 1;
        while d <= 9
            invariant
                1 <= d <= 10,
                type_wf(t),
                n0 == old(errs)@.len(),
                n0 <= errs@.len(),
                errs@.len() == n0 + group_dups_upto(self@, t, d - 1).len(),
                errs@.subrange(0, n0) == old(errs)@,
                errs_match(self@, errs@.skip(n0), group_dups_upto(self@, t, d - 1)),
            decreases 10 - d,
        {
            let ghost errs0 = errs@;
            let coords = self.group_coords(t, d);
            if indexes_len(&coords) >= 2 {
                let e = ValidationError::Dublication { type_: t, value: d, indexes: coords };
                errs.push(e);
                proof {
                    assert(errs@.skip(n0) =~= errs0.skip(n0).push(e));
                    assert(errs@.subrange(0, n0) =~= errs0.subrange(0, n0));
                }
            }
            proof {
                assert(group_dups_upto(self@, t, d as int) == if dup_coords(
                    self@,
                    t,
                    d,
                ).len() >= 2 {
                    group_dups_upto(self@, t, d - 1).push((t, d))
                } else {
                    group_dups_upto(self@, t, d - 1)
                });
            }
            d += 1;
        }
    }

    /// Appends the errors of all 9 groups of one kind, group indexes
    /// ascending.
    fn kind_errors(&self, kind: u8, errs: &mut Vec<ValidationError>)
        requires
            kind <= 2,
        ensures
            final(errs)@.len() == old(errs)@.len() + kind_dups(self@, kind as int).len(),
            final(errs)@.subrange(0, old(errs)@.len() as int) == old(errs)@,
            errs_match(
                self@,
                final(errs)@.skip(old(errs)@.len() as int),
                kind_dups(self@, kind as int),
            ),
    {
        let ghost n0 = errs@.len() as int;
        let mut k: usize = 0;
        while k < 9
            invariant
                k <= 9,
                kind <= 2,
                n0 == old(errs)@.len(),
                n0 <= errs@.len(),
                errs@.len() == n0 + kind_dups_upto(self@, kind as int, k as int).len(),
                errs@.subrange(0, n0) == old(errs)@,
                errs_match(self@, errs@.skip(n0), kind_dups_upto(self@, kind as int, k as int)),
            decreases 9 - k,
        {
            let ghost errs0 = errs@;
            let t = if kind == 0 {
                ValidationErrorType::Row(k)
            } else if kind == 1 {
                ValidationErrorType::Column(k)
            } else {
                ValidationErrorType::Box(k)
            };
            proof {
                assert(t == kind_type(kind as int, k as int));
            }
            self.group_errors(t, errs);
            proof {
                let ghost n1 = errs0.len() as int;
                assert(errs0.skip(n0) == errs@.subrange(n0, n1)) by {
                    assert(errs@.subrange(0, n1) == errs0);
                    assert(errs0.skip(n0) =~= errs@.subrange(n0, n1));
                }
                assert(errs@.skip(n0) =~= errs@.subrange(n0, n1) + errs@.skip(n1));
                lemma_errs_match_concat(
                    self@,
                    errs@.subrange(n0, n1),
                    kind_dups_upto(self@, kind as int, k as int),
                    errs@.skip(n1),
                    group_dups(self@, t),
                );
                assert(errs@.subrange(0, n0) =~= errs0.subrange(0, n0));
            }
            k += 1;
        }
    }

    /// Checks the grid against the placement rules.
    ///
    /// Returns the grid itself, unchanged, when no digit repeats within any
    /// row, column or box.  Otherwise returns one error per duplicated
    /// digit per group — never a subset — ordered by kind (rows, columns,
    /// boxes), then group index, then digit, each error carrying every
    /// coordinate of the duplicated digit in that group.
    pub fn validate(self) -> (r: Result<Sudoku, Vec<ValidationError>>)
        ensures
            all_dups(self@).len() == 0 ==> (r matches Ok(g) && g == self),
            all_dups(self@).len() != 0 ==> (r matches Err(es) && errs_match(
                self@,
                es@,
                all_dups(self@),
            )),
    {
        let mut errs: Vec<ValidationError> = Vec::new();
        self.kind_errors(0, &mut errs);
        let ghost e0 = errs@;
        self.kind_errors(1, &mut errs);
        let ghost e1 = errs@;
        self.kind_errors(2, &mut errs);
        proof {
            let g = self@;
            assert(e0.skip(0) =~= e0);
            assert(e0 == errs@.subrange(0, e0.len() as int));
            assert(e1 == errs@.subrange(0, e1.len() as int));
            assert(e1.skip(e0.len() as int) =~= errs@.subrange(e0.len() as int, e1.len() as int));
            lemma_errs_match_concat(
                g,
                e0,
                kind_dups(g, 0),
                errs@.subrange(e0.len() as int, e1.len() as int),
                kind_dups(g, 1),
            );
            assert(errs@.subrange(0, e1.len() as int) =~= e0 + errs@.subrange(
                e0.len() as int,
                e1.len() as int,
            ));
            lemma_errs_match_concat(
                g,
                errs@.subrange(0, e1.len() as int),
                kind_dups(g, 0) + kind_dups(g, 1),
                errs@.skip(e1.len() as int),
                kind_dups(g, 2),
            );
            assert(errs@ =~= errs@.subrange(0, e1.len() as int) + errs@.skip(e1.len() as int));
        }
        if errs.len() == 0 {
            err_or_grid(None, self)
        } else {
            err_or_grid(Some(errs), self)
        }
    }
}

} // verus!
