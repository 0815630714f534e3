//! Linear real arithmetic: an exact Simplex over Q(δ, ε), with direct decisions for
//! same-form bound conflicts and for the difference-logic fragment.
use vstd::prelude::*;
use crate::ast::{Expr, SExpr, ModelValue, Type, clone_exprs, debug_text, exprs_view, lemma_exprs_view};
use crate::ast::order::{string_order, lemma_chars_order_zero};
use crate::num::{Integer, Rational, q_add, q_eq, q_lt};
use crate::theory::lra_delta::{DeltaRational, eps_wf, smaller_of};

verus! {

broadcast use vstd::std_specs::vec::group_vec_axioms;

/// A bound on a variable.
#[derive(Debug)]
pub struct Bound {
    pub val: Rational,
    pub is_strict: bool,
}

/// A linear row: (column, coefficient) by strictly increasing column.
pub type Row = Vec<(usize, Rational)>;

/// Whether `row` is well formed over `n` variables.
pub open spec fn row_wf(row: Seq<(usize, Rational)>, n: int) -> bool {
    &&& forall|i: int| 0 <= i < row.len() ==> (#[trigger] row[i]).0 < n && row[i].1.wf()
    &&& forall|i: int, j: int| 0 <= i < j < row.len() ==> (#[trigger] row[i]).0 < (#[trigger] row[j]).0
}

/// The position of `col` in `row`.
fn row_find(row: &Row, col: usize) -> (r: Option<usize>)
    ensures
        r matches Some(i) ==> i < row@.len() && row@[i as int].0 == col,
        r is None ==> forall|i: int| 0 <= i < row@.len() ==> #[trigger] row@[i].0 != col,
{
    let mut i: usize = 0;
    while i < row.len()
        invariant
            i <= row@.len(),
            forall|q: int| 0 <= q < i ==> #[trigger] row@[q].0 != col,
        decreases row@.len() - i,
    {
        if row[i].0 == col {
            return Some(i);
        }
        i += 1;
    }
    None
}

/// The columns of `row`, in order.
pub open spec fn row_columns(row: Seq<(usize, Rational)>) -> Seq<usize> {
    row.map_values(|e: (usize, Rational)| e.0)
}

/// The recorded origins of the bounds of the columns `cols`: for each column in turn, that
/// of its lower bound, then that of its upper bound, where there is one.
pub open spec fn bound_origins(lo: Seq<Option<Expr>>, up: Seq<Option<Expr>>, cols: Seq<usize>) -> Seq<SExpr>
    decreases cols.len(),
{
    if cols.len() == 0 {
        Seq::empty()
    } else {
        let c = cols.last() as int;
        let p = bound_origins(lo, up, cols.drop_last());
        let p1 = if lo[c] is Some { p.push(lo[c]->Some_0@) } else { p };
        if up[c] is Some { p1.push(up[c]->Some_0@) } else { p1 }
    }
}

/// The view of a list of terms with one more term.
proof fn lemma_exprs_view_push(s: Seq<Expr>, e: Expr)
    ensures
        exprs_view(s.push(e)) == exprs_view(s).push(e@),
{
    lemma_exprs_view(s.push(e));
    lemma_exprs_view(s);
    assert(exprs_view(s.push(e)) =~= exprs_view(s).push(e@));
}

/// The entries of `row` with a nonzero coefficient, in order.
pub open spec fn nonzero_entries(row: Seq<(usize, Rational)>) -> Seq<(usize, Rational)>
    decreases row.len(),
{
    if row.len() == 0 {
        Seq::empty()
    } else {
        let p = nonzero_entries(row.drop_last());
        if row.last().1@.0 != 0 { p.push(row.last()) } else { p }
    }
}

/// The nonzero entries of a row with one more entry.
proof fn lemma_nonzero_entries_prefix(row: Seq<(usize, Rational)>, e: (usize, Rational))
    ensures
        nonzero_entries(row.push(e)) == if e.1@.0 != 0 { nonzero_entries(row).push(e) } else { nonzero_entries(row) },
{
    assert(row.push(e).drop_last() == row);
}

/// Whether `row` has a nonzero coefficient for `col`.
pub open spec fn row_has(row: Seq<(usize, Rational)>, col: usize) -> bool {
    exists|i: int| 0 <= i < row.len() && (#[trigger] row[i]).0 == col && row[i].1@.0 != 0
}

/// The coefficient of `col` in `row`.
fn row_get(row: &Row, col: usize) -> (r: Option<Rational>)
    requires
        forall|i: int| 0 <= i < row@.len() ==> (#[trigger] row@[i]).1.wf(),
    ensures
        r matches Some(v) ==> v.wf() && exists|i: int| 0 <= i < row@.len() && (#[trigger] row@[i]).0 == col && v@ == row@[i].1@,
        r is None ==> forall|i: int| 0 <= i < row@.len() ==> #[trigger] row@[i].0 != col,
{
    match row_find(row, col) {
        Some(i) => Some(row[i].1.duplicate()),
        None => None,
    }
}

/// Adds `val` to the coefficient of `col` (a missing coefficient counts as zero).
fn row_add(row: &mut Row, col: usize, val: &Rational, n: Ghost<int>)
    requires
        row_wf(old(row)@, n@),
        col < n@,
        val.wf(),
    ensures
        row_wf(final(row)@, n@),
        (exists|i: int| 0 <= i < old(row)@.len() && (#[trigger] old(row)@[i]).0 == col) ==> exists|i: int|
            0 <= i < old(row)@.len() && (#[trigger] old(row)@[i]).0 == col
                && final(row)@ == old(row)@.update(i, final(row)@[i])
                && final(row)@[i].0 == col
                && q_eq(final(row)@[i].1@, q_add(old(row)@[i].1@, val@)),
        (forall|i: int| 0 <= i < old(row)@.len() ==> (#[trigger] old(row)@[i]).0 != col) ==> exists|p: int|
            0 <= p <= old(row)@.len() && final(row)@ == old(row)@.insert(p, #[trigger] final(row)@[p])
                && final(row)@[p].0 == col && final(row)@[p].1@ == val@,
{
    match row_find(row, col) {
        Some(i) => {
            let v = row[i].1.add(val);
            row.set(i, (col, v));
            assert(row@ == old(row)@.update(i as int, row@[i as int]));
        },
        None => {
            let mut pos: usize = 0;
            while pos < row.len() && row[pos].0 < col
                invariant
                    pos <= row@.len(),
                    forall|q: int| 0 <= q < pos ==> #[trigger] row@[q].0 < col,
                decreases row@.len() - pos,
            {
                pos += 1;
            }
            let ghost old_row = row@;
            row.insert(pos, (col, val.duplicate()));
            assert(row@ == old_row.insert(pos as int, row@[pos as int]));
            assert forall|i: int, j: int| 0 <= i < j < row@.len() implies (#[trigger] row@[i]).0 < (#[trigger] row@[j]).0 by {
                if i < pos && j == pos {
                    assert(row@[i] == old_row[i]);
                } else if i == pos {
                    assert(row@[j] == old_row[j - 1]);
                    assert(old_row[j - 1].0 != col);
                    if pos < old_row.len() {
                        assert(old_row[pos as int].0 >= col);
                        assert(old_row[pos as int].0 <= old_row[j - 1].0);
                    }
                } else if j < pos {
                    assert(row@[i] == old_row[i] && row@[j] == old_row[j]);
                } else if i < pos {
                    assert(row@[i] == old_row[i] && row@[j] == old_row[j - 1]);
                } else {
                    assert(row@[i] == old_row[i - 1] && row@[j] == old_row[j - 1]);
                }
            }
            assert forall|i: int| 0 <= i < row@.len() implies (#[trigger] row@[i]).0 < n@ && row@[i].1.wf() by {
                if i < pos {
                    assert(row@[i] == old_row[i]);
                } else if i > pos {
                    assert(row@[i] == old_row[i - 1]);
                }
            }
        },
    }
}

/// Removes `col` from `row`, returning its coefficient.
fn row_remove(row: &mut Row, col: usize, n: Ghost<int>) -> (r: Option<Rational>)
    requires
        row_wf(old(row)@, n@),
    ensures
        row_wf(final(row)@, n@),
        r matches Some(v) ==> v.wf(),
        r is Some <==> exists|i: int| 0 <= i < old(row)@.len() && (#[trigger] old(row)@[i]).0 == col,
        r matches Some(v) ==> exists|i: int| 0 <= i < old(row)@.len() && (#[trigger] old(row)@[i]).0 == col
            && final(row)@ == old(row)@.remove(i) && v@ == old(row)@[i].1@,
        r is None ==> final(row)@ == old(row)@,
{
    match row_find(row, col) {
        Some(i) => {
            let ghost old_row = row@;
            let (_, v) = row.remove(i);
            assert(row@ == old_row.remove(i as int));
            assert forall|a: int, b: int| 0 <= a < b < row@.len() implies (#[trigger] row@[a]).0 < (#[trigger] row@[b]).0 by {
                let oa = if a < i { a } else { a + 1 };
                let ob = if b < i { b } else { b + 1 };
                assert(row@[a] == old_row[oa]);
                assert(row@[b] == old_row[ob]);
            }
            assert forall|a: int| 0 <= a < row@.len() implies (#[trigger] row@[a]).0 < n@ && row@[a].1.wf() by {
                let oa = if a < i { a } else { a + 1 };
                assert(row@[a] == old_row[oa]);
            }
            Some(v)
        },
        None => None,
    }
}

/// A copy of a row.
fn row_dup(row: &Row, n: Ghost<int>) -> (r: Row)
    requires
        row_wf(row@, n@),
    ensures
        row_wf(r@, n@),
        r@.len() == row@.len(),
        forall|i: int| 0 <= i < row@.len() ==> (#[trigger] r@[i]).0 == row@[i].0 && r@[i].1@ == row@[i].1@,
{
    let mut out: Row = Vec::new();
    let mut i: usize = 0;
    while i < row.len()
        invariant
            row_wf(row@, n@),
            i <= row@.len(),
            out@.len() == i,
            forall|q: int| 0 <= q < i ==> (#[trigger] out@[q]).0 == row@[q].0 && out@[q].1@ == row@[q].1@
                && out@[q].1.wf(),
        decreases row@.len() - i,
    {
        out.push((row[i].0, row[i].1.duplicate()));
        i += 1;
    }
    out
}

/// The lexicographic order of (column, coefficient) lists from place `i` on: -1, 0 or 1, a
/// proper prefix first.
pub open spec fn row_order_from(a: Seq<(usize, Rational)>, b: Seq<(usize, Rational)>, i: int) -> int
    decreases a.len() - i,
{
    if i < 0 || i >= a.len() || i >= b.len() {
        if a.len() < b.len() { -1 } else if a.len() > b.len() { 1 } else { 0 }
    } else if a[i].0 < b[i].0 {
        -1
    } else if a[i].0 > b[i].0 {
        1
    } else if q_lt(a[i].1@, b[i].1@) {
        -1
    } else if q_lt(b[i].1@, a[i].1@) {
        1
    } else {
        row_order_from(a, b, i + 1)
    }
}

/// -1, 0 or 1 as `a` is below, equal to or above `b` in the lexicographic order of
/// (column, coefficient) lists, a proper prefix first.
fn row_key_order(a: &Row, b: &Row) -> (r: i8)
    requires
        forall|i: int| 0 <= i < a@.len() ==> (#[trigger] a@[i]).1.wf(),
        forall|i: int| 0 <= i < b@.len() ==> (#[trigger] b@[i]).1.wf(),
    ensures
        -1 <= r <= 1,
        r == 0 ==> a@.len() == b@.len() && forall|i: int| 0 <= i < a@.len() ==>
            (#[trigger] a@[i]).0 == b@[i].0 && q_eq(a@[i].1@, b@[i].1@),
        r == row_order_from(a@, b@, 0),
{
    let mut i: usize = 0;
    while i < a.len() && i < b.len()
        invariant
            i <= a@.len(),
            i <= b@.len(),
            row_order_from(a@, b@, 0) == row_order_from(a@, b@, i as int),
            forall|q: int| 0 <= q < a@.len() ==> (#[trigger] a@[q]).1.wf(),
            forall|q: int| 0 <= q < b@.len() ==> (#[trigger] b@[q]).1.wf(),
            forall|q: int| 0 <= q < i ==> (#[trigger] a@[q]).0 == b@[q].0 && q_eq(a@[q].1@, b@[q].1@),
        decreases a@.len() - i,
    {
        if a[i].0 < b[i].0 {
            return -1;
        }
        if a[i].0 > b[i].0 {
            return 1;
        }
        let o = a[i].1.compare(&b[i].1);
        if o != 0 {
            return o;
        }
        i += 1;
    }
    if a.len() < b.len() {
        -1
    } else if a.len() > b.len() {
        1
    } else {
        0
    }
}

/// A bound of a canonical linear form: value, strictness, the slack it came from, and
/// whether it was that slack's lower bound.
type FormBound = (Rational, bool, usize, bool);

/// Whether every value in an optional form bound is well formed and its slack is below `n`.
pub open spec fn form_bound_wf(b: Option<FormBound>, n: int) -> bool {
    b is Some ==> b->Some_0.0.wf() && b->Some_0.2 < n
}

/// Whether `cand` is a tighter lower bound than `cur` (greater, or equal and strict where `cur` is not).
fn tighter_lower(cand: &FormBound, cur: &Option<FormBound>) -> (r: bool)
    requires
        cand.0.wf(),
        form_bound_wf(*cur, usize::MAX as int + 1),
    ensures
        r == match *cur {
            None => true,
            Some(c) => q_lt(c.0@, cand.0@) || (q_eq(cand.0@, c.0@) && cand.1 && !c.1),
        },
{
    match cur {
        None => true,
        Some(c) => {
            let o = cand.0.compare(&c.0);
            o == 1 || (o == 0 && cand.1 && !c.1)
        },
    }
}

/// Whether `cand` is a tighter upper bound than `cur` (smaller, or equal and strict where `cur` is not).
fn tighter_upper(cand: &FormBound, cur: &Option<FormBound>) -> (r: bool)
    requires
        cand.0.wf(),
        form_bound_wf(*cur, usize::MAX as int + 1),
    ensures
        r == match *cur {
            None => true,
            Some(c) => q_lt(cand.0@, c.0@) || (q_eq(cand.0@, c.0@) && cand.1 && !c.1),
        },
{
    match cur {
        None => true,
        Some(c) => {
            let o = cand.0.compare(&c.0);
            o == -1 || (o == 0 && cand.1 && !c.1)
        },
    }
}

/// The position of `v` in `nodes`.
fn node_index(nodes: &Vec<usize>, v: usize) -> (r: Option<usize>)
    ensures
        r matches Some(i) ==> i < nodes@.len() && nodes@[i as int] == v,
        r is None ==> !nodes@.contains(v),
{
    let mut i: usize = 0;
    while i < nodes.len()
        invariant
            i <= nodes@.len(),
            forall|q: int| 0 <= q < i ==> nodes@[q] != v,
        decreases nodes@.len() - i,
    {
        if nodes[i] == v {
            return Some(i);
        }
        i += 1;
    }
    None
}

/// Adds `v` to the ascending list `nodes` unless it is there.
fn insert_node(nodes: &mut Vec<usize>, v: usize)
    ensures
        final(nodes)@.contains(v),
        forall|x: usize| old(nodes)@.contains(x) ==> final(nodes)@.contains(x),
{
    let mut i: usize = 0;
    while i < nodes.len() && nodes[i] < v
        invariant
            i <= nodes@.len(),
        decreases nodes@.len() - i,
    {
        i += 1;
    }
    if i < nodes.len() && nodes[i] == v {
        return;
    }
    let ghost before = nodes@;
    nodes.insert(i, v);
    assert(nodes@[i as int] == v);
    assert forall|x: usize| before.contains(x) implies nodes@.contains(x) by {
        let k = choose|k: int| 0 <= k < before.len() && before[k] == x;
        if k < i {
            assert(nodes@[k] == x);
        } else {
            assert(nodes@[k + 1] == x);
        }
    }
}

/// A difference-logic edge: from, to, weight and the formula it came from.
type DlEdge = (usize, usize, DeltaRational, Expr);

/// The entries of `v` in ascending order.
fn sorted_copy(v: &Vec<usize>) -> (r: Vec<usize>)
    ensures
        r@.len() == v@.len(),
        forall|i: int| 0 <= i < r@.len() ==> v@.contains(#[trigger] r@[i]),
        forall|i: int| 0 <= i < v@.len() ==> r@.contains(#[trigger] v@[i]),
        forall|i: int, j: int| 0 <= i < j < r@.len() ==> r@[i] <= r@[j],
{
    let mut out: Vec<usize> = Vec::new();
    let mut i: usize = 0;
    while i < v.len()
        invariant
            i <= v@.len(),
            out@.len() == i,
            forall|q: int| 0 <= q < out@.len() ==> v@.contains(#[trigger] out@[q]),
            forall|q: int| 0 <= q < i ==> out@.contains(#[trigger] v@[q]),
            forall|a: int, b: int| 0 <= a < b < out@.len() ==> out@[a] <= out@[b],
        decreases v@.len() - i,
    {
        let x = v[i];
        let mut pos: usize = 0;
        while pos < out.len() && out[pos] <= x
            invariant
                pos <= out@.len(),
                forall|q: int| 0 <= q < pos ==> out@[q] <= x,
            decreases out@.len() - pos,
        {
            pos += 1;
        }
        let ghost before = out@;
        out.insert(pos, x);
        assert(v@[i as int] == x);
        assert forall|q: int| 0 <= q < out@.len() implies v@.contains(#[trigger] out@[q]) by {
            if q < pos {
                assert(out@[q] == before[q]);
            } else if q > pos {
                assert(out@[q] == before[q - 1]);
            }
        }
        assert forall|q: int| 0 <= q < i + 1 implies out@.contains(#[trigger] v@[q]) by {
            if q < i {
                let k = choose|k: int| 0 <= k < before.len() && before[k] == v@[q];
                if k < pos {
                    assert(out@[k] == before[k]);
                } else {
                    assert(out@[k + 1] == before[k]);
                }
            } else {
                assert(out@[pos as int] == x);
            }
        }
        assert forall|a: int, b: int| 0 <= a < b < out@.len() implies out@[a] <= out@[b] by {
            if b < pos {
                assert(out@[a] == before[a] && out@[b] == before[b]);
            } else if b == pos {
                assert(out@[a] == before[a]);
            } else if a < pos {
                assert(out@[a] == before[a] && out@[b] == before[b - 1]);
                assert(before[pos as int] > x);
            } else if a == pos {
                assert(out@[b] == before[b - 1]);
                assert(before[pos as int] > x);
            } else {
                assert(out@[a] == before[a - 1] && out@[b] == before[b - 1]);
            }
        }
        i += 1;
    }
    out
}

/// The value `c + kδ` as a pair with no perturbation.
fn plain(c: Rational, k: Rational) -> (r: DeltaRational)
    requires
        c.wf(),
        k.wf(),
    ensures
        r.wf(),
        r.c@ == c@,
        r.k@ == k@,
        r.eps@.len() == 0,
{
    DeltaRational { c, k, eps: Vec::new() }
}

/// The smaller of an optional bound and a value (`None` is unbounded).
fn min_room(cur: Option<DeltaRational>, room: DeltaRational) -> (r: Option<DeltaRational>)
    requires
        cur matches Some(d) ==> d.wf(),
        room.wf(),
    ensures
        r is Some,
        r->Some_0.wf(),
        cur is None ==> r == Some(room),
        cur matches Some(u) ==> smaller_of(u, room, r->Some_0),
{
    match cur {
        Some(u) => Some(u.min_delta(room)),
        None => Some(room),
    }
}

/// How a disequality repair attempt ended.
enum RepairResult {
    /// A variable was moved, inside the feasible region, breaking the equality.
    Moved,
    /// No nonbasic variable can move: the feasible region is a point, so the equality is forced.
    FrozenPolytope,
    /// The equality could not be broken, but the region is not a point.
    Stuck,
}

/// A disequality `Σ coeffs ≠ target` and the formula it came from.
pub type Disequality = (Row, Rational, Expr);

/// The linear real arithmetic solver.
pub struct LraSolver {
    /// Symbol (or term) names to variable ids, by ascending name.
    pub var_map: Vec<(String, usize)>,
    pub next_var_id: usize,
    /// For each basic variable, its row over the nonbasic variables.
    pub tableau: Vec<Option<Row>>,
    pub assignment: Vec<DeltaRational>,
    pub lower_bounds: Vec<Option<Bound>>,
    pub upper_bounds: Vec<Option<Bound>>,
    pub basic_vars: Vec<usize>,
    pub non_basic_vars: Vec<usize>,
    /// The formula each lower (resp. upper) bound came from.
    pub lower_origins: Vec<Option<Expr>>,
    pub upper_origins: Vec<Option<Expr>>,
    pub disequalities: Vec<Disequality>,
    pub last_conflict_var: Option<usize>,
    pub disequality_conflict: Option<Expr>,
    pub disequality_freeze_origins: Vec<Expr>,
    /// A budget ran out: the verdict is unknown.
    pub unknown: bool,
    /// Origins of a conflict found before the Simplex ran.
    pub bound_conflict: Vec<Expr>,
}

/// Whether an optional bound is well formed.
pub open spec fn bound_wf(b: Option<Bound>) -> bool {
    b is Some ==> b->Some_0.val.wf()
}

impl LraSolver {
    pub open spec fn wf(&self) -> bool {
        let n = self.next_var_id as int;
        &&& self.assignment@.len() == n
        &&& self.lower_bounds@.len() == n
        &&& self.upper_bounds@.len() == n
        &&& self.lower_origins@.len() == n
        &&& self.upper_origins@.len() == n
        &&& self.tableau@.len() == n
        &&& forall|i: int| 0 <= i < n ==> (#[trigger] self.assignment@[i]).wf()
        &&& forall|i: int| 0 <= i < n ==> bound_wf(#[trigger] self.lower_bounds@[i])
        &&& forall|i: int| 0 <= i < n ==> bound_wf(#[trigger] self.upper_bounds@[i])
        &&& forall|i: int| 0 <= i < n && (#[trigger] self.tableau@[i]) is Some ==> row_wf(self.tableau@[i]->Some_0@, n)
        &&& forall|k: int| 0 <= k < self.basic_vars@.len() ==> (#[trigger] self.basic_vars@[k]) < n
        &&& forall|k: int| 0 <= k < self.non_basic_vars@.len() ==> (#[trigger] self.non_basic_vars@[k]) < n
        &&& forall|k: int| 0 <= k < self.var_map@.len() ==> (#[trigger] self.var_map@[k]).1 < n
        &&& forall|k: int| 0 <= k < self.disequalities@.len() ==>
            row_wf((#[trigger] self.disequalities@[k]).0@, n) && self.disequalities@[k].1.wf()
        &&& self.last_conflict_var matches Some(v) ==> v < n
        &&& forall|i: int| 0 <= i < n && (#[trigger] self.lower_bounds@[i]) is Some ==> self.lower_origins@[i] is Some
        &&& forall|i: int| 0 <= i < n && (#[trigger] self.upper_bounds@[i]) is Some ==> self.upper_origins@[i] is Some
    }

    pub fn new() -> (r: LraSolver)
        ensures
            r.wf(),
            r.next_var_id == 0,
            !r.unknown,
    {
        LraSolver {
            var_map: Vec::new(),
            next_var_id: 0,
            tableau: Vec::new(),
            assignment: Vec::new(),
            lower_bounds: Vec::new(),
            upper_bounds: Vec::new(),
            basic_vars: Vec::new(),
            non_basic_vars: Vec::new(),
            lower_origins: Vec::new(),
            upper_origins: Vec::new(),
            disequalities: Vec::new(),
            last_conflict_var: None,
            disequality_conflict: None,
            disequality_freeze_origins: Vec::new(),
            unknown: false,
            bound_conflict: Vec::new(),
        }
    }

    /// Forgets every variable and constraint.
    pub fn reset(&mut self)
        ensures
            final(self).wf(),
            final(self).next_var_id == 0,
            !final(self).unknown,
            final(self).disequalities@.len() == 0,
            final(self).bound_conflict@.len() == 0,
    {
        self.var_map.clear();
        self.next_var_id = 0;
        self.tableau.clear();
        self.assignment.clear();
        self.lower_bounds.clear();
        self.upper_bounds.clear();
        self.basic_vars.clear();
        self.non_basic_vars.clear();
        self.lower_origins.clear();
        self.upper_origins.clear();
        self.disequalities.clear();
        self.last_conflict_var = None;
        self.disequality_conflict = None;
        self.disequality_freeze_origins.clear();
        self.unknown = false;
        self.bound_conflict.clear();
    }

    /// Whether the last check ran out of budget.
    pub fn is_unknown(&self) -> (r: bool)
        ensures
            r == self.unknown,
    {
        self.unknown
    }

    /// A fresh variable with value zero and no bounds.
    fn push_var(&mut self) -> (r: usize)
        requires
            old(self).wf(),
        ensures
            final(self).wf(),
            r == old(self).next_var_id,
            final(self).next_var_id == r + 1,
            final(self).var_map@ == old(self).var_map@,
            final(self).basic_vars@ == old(self).basic_vars@,
            final(self).non_basic_vars@ == old(self).non_basic_vars@,
            final(self).disequalities@ == old(self).disequalities@,
            final(self).unknown == old(self).unknown,
            final(self).tableau@[r as int] is None,
            final(self).lower_bounds@[r as int] is None,
            final(self).upper_bounds@[r as int] is None,
    {
        let id = self.next_var_id;
        self.assignment.push(DeltaRational::zero());
        self.lower_bounds.push(None);
        self.upper_bounds.push(None);
        self.lower_origins.push(None);
        self.upper_origins.push(None);
        self.tableau.push(None);
        self.next_var_id = self.assignment.len();
        let ghost n = self.next_var_id as int;
        assert forall|i: int| 0 <= i < n && (#[trigger] self.tableau@[i]) is Some implies row_wf(self.tableau@[i]->Some_0@, n) by {
            if i < id {
                assert(self.tableau@[i] == old(self).tableau@[i]);
            }
        }
        assert forall|k: int| 0 <= k < self.disequalities@.len() implies
            row_wf((#[trigger] self.disequalities@[k]).0@, n) && self.disequalities@[k].1.wf() by {
        }
        id
    }

    /// The variable named `name`, created (nonbasic) if new.
    #[verifier::loop_isolation(false)]
    fn get_or_create_var(&mut self, name: &String) -> (r: usize)
        requires
            old(self).wf(),
        ensures
            final(self).wf(),
            r < final(self).next_var_id,
            final(self).next_var_id >= old(self).next_var_id,
            final(self).basic_vars@ == old(self).basic_vars@,
            final(self).disequalities@ == old(self).disequalities@,
            final(self).unknown == old(self).unknown,
    {
        let mut pos: usize = 0;
        while pos < self.var_map.len()
            invariant
                pos <= self.var_map@.len(),
            decreases self.var_map@.len() - pos,
        {
            let o = string_order(&self.var_map[pos].0, name);
            if o == 0 {
                return self.var_map[pos].1;
            }
            if o == 1 {
                break;
            }
            pos += 1;
        }
        let id = self.push_var();
        self.var_map.insert(pos, (name.clone(), id));
        self.non_basic_vars.push(id);
        let ghost n = self.next_var_id as int;
        assert forall|k: int| 0 <= k < self.var_map@.len() implies (#[trigger] self.var_map@[k]).1 < n by {
            if k < pos {
                assert(self.var_map@[k] == old(self).var_map@[k]);
            } else if k > pos {
                assert(self.var_map@[k] == old(self).var_map@[k - 1]);
            }
        }
        id
    }

    /// A fresh slack variable.
    fn create_slack_var(&mut self) -> (r: usize)
        requires
            old(self).wf(),
        ensures
            final(self).wf(),
            r == old(self).next_var_id,
            final(self).next_var_id == r + 1,
            final(self).basic_vars@ == old(self).basic_vars@,
            final(self).disequalities@ == old(self).disequalities@,
            final(self).unknown == old(self).unknown,
            final(self).tableau@[r as int] is None,
            final(self).lower_bounds@[r as int] is None,
            final(self).upper_bounds@[r as int] is None,
    {
        self.push_var()
    }

    /// Everything but the assignment is as in `other`.
    pub open spec fn same_but_assignment(&self, other: &LraSolver) -> bool {
        &&& self.var_map@ == other.var_map@
        &&& self.next_var_id == other.next_var_id
        &&& self.tableau@ == other.tableau@
        &&& self.lower_bounds@ == other.lower_bounds@
        &&& self.upper_bounds@ == other.upper_bounds@
        &&& self.basic_vars@ == other.basic_vars@
        &&& self.non_basic_vars@ == other.non_basic_vars@
        &&& self.lower_origins@ == other.lower_origins@
        &&& self.upper_origins@ == other.upper_origins@
        &&& self.disequalities@ == other.disequalities@
        &&& self.last_conflict_var == other.last_conflict_var
        &&& self.disequality_conflict == other.disequality_conflict
        &&& self.disequality_freeze_origins@ == other.disequality_freeze_origins@
        &&& self.unknown == other.unknown
        &&& self.bound_conflict@ == other.bound_conflict@
    }

    /// Sets `x_j` to `v` and moves every basic variable along its row.
    #[verifier::loop_isolation(false)]
    fn update(&mut self, x_j: usize, v: DeltaRational)
        requires
            old(self).wf(),
            x_j < old(self).next_var_id,
            v.wf(),
        ensures
            final(self).wf(),
            final(self).same_but_assignment(old(self)),
            final(self).assignment@[x_j as int].c@ == v.c@,
            final(self).assignment@[x_j as int].k@ == v.k@,
    {
        let diff = v.sub(&self.assignment[x_j]);
        let ghost vc = v.c@;
        let ghost vk = v.k@;
        self.assignment.set(x_j, v);
        let n = self.tableau.len();
        let mut i: usize = 0;
        while i < n
            invariant
                self.wf(),
                self.same_but_assignment(old(self)),
                n == self.tableau@.len(),
                i <= n,
                diff.wf(),
                self.assignment@[x_j as int].c@ == vc,
                self.assignment@[x_j as int].k@ == vk,
            decreases n - i,
        {
            if i != x_j {
                let upd = match &self.tableau[i] {
                    Some(row) => match row_get(row, x_j) {
                        Some(a) => Some(self.assignment[i].add(&diff.scale(&a))),
                        None => None,
                    },
                    None => None,
                };
                if let Some(u) = upd {
                    self.assignment.set(i, u);
                }
            }
            i += 1;
        }
    }

    /// The variables, bounds, assignment and disequalities are as in `other`.
    pub open spec fn same_values(&self, other: &LraSolver) -> bool {
        &&& self.var_map@ == other.var_map@
        &&& self.next_var_id == other.next_var_id
        &&& self.assignment@ == other.assignment@
        &&& self.lower_bounds@ == other.lower_bounds@
        &&& self.upper_bounds@ == other.upper_bounds@
        &&& self.lower_origins@ == other.lower_origins@
        &&& self.upper_origins@ == other.upper_origins@
        &&& self.disequalities@ == other.disequalities@
    }

    /// Whether `x_i` has a row in which `x_j` has a nonzero coefficient.
    pub open spec fn pivotable(&self, x_i: usize, x_j: usize) -> bool {
        &&& self.tableau@[x_i as int] is Some
        &&& row_has(self.tableau@[x_i as int]->Some_0@, x_j)
    }

    /// Exchanges the basic variable `x_i` with the nonbasic `x_j`: the row of `x_i` is solved
    /// for `x_j` and substituted into every other row. A missing row or a zero coefficient
    /// leaves the tableau as it is and marks the verdict unknown.
    #[verifier::loop_isolation(false)]
    pub fn pivot(&mut self, x_i: usize, x_j: usize)
        requires
            old(self).wf(),
            x_i < old(self).next_var_id,
            x_j < old(self).next_var_id,
        ensures
            final(self).wf(),
            final(self).same_values(old(self)),
            final(self).unknown == (old(self).unknown || !old(self).pivotable(x_i, x_j)),
            old(self).pivotable(x_i, x_j) ==> final(self).tableau@[x_j as int] is Some,
            old(self).pivotable(x_i, x_j) && x_i != x_j ==> final(self).tableau@[x_i as int] is None,
            !old(self).pivotable(x_i, x_j) ==> final(self).tableau@ == old(self).tableau@
                && final(self).basic_vars@ == old(self).basic_vars@,
    {
        let ghost n = self.next_var_id as int;
        let row = match &self.tableau[x_i] {
            Some(r) => row_dup(r, Ghost(n)),
            None => {
                self.unknown = true;
                return;
            },
        };
        let a_ij = match row_get(&row, x_j) {
            Some(a) => a,
            None => {
                proof {
                    let orow = old(self).tableau@[x_i as int]->Some_0@;
                    if row_has(orow, x_j) {
                        let i = choose|i: int| 0 <= i < orow.len() && (#[trigger] orow[i]).0 == x_j && orow[i].1@.0 != 0;
                        assert(row@[i].0 == orow[i].0);
                    }
                }
                self.unknown = true;
                return;
            },
        };
        if a_ij.is_zero() {
            proof {
                let i = choose|i: int| 0 <= i < row@.len() && (#[trigger] row@[i]).0 == x_j && a_ij@ == row@[i].1@;
                assert forall|q: int| 0 <= q < row@.len() && (#[trigger] row@[q]).0 == x_j implies row@[q].1@.0 == 0 by {
                    if q < i {
                        assert(row@[q].0 < row@[i].0);
                    } else if q > i {
                        assert(row@[i].0 < row@[q].0);
                    }
                }
            }
            self.unknown = true;
            return;
        }
        self.tableau.set(x_i, None);
        assert(old(self).pivotable(x_i, x_j));
        let one = Rational::from_i64(1);
        let mut new_row: Row = Vec::new();
        row_add(&mut new_row, x_i, &one.div(&a_ij), Ghost(n));
        let mut k: usize = 0;
        while k < row.len()
            invariant
                row_wf(new_row@, n),
                row_wf(row@, n),
                a_ij.wf(),
                a_ij@.0 != 0,
                k <= row@.len(),
            decreases row@.len() - k,
        {
            if row[k].0 != x_j {
                let v = row[k].1.neg().div(&a_ij);
                row_add(&mut new_row, row[k].0, &v, Ghost(n));
            }
            k += 1;
        }
        let m = self.tableau.len();
        let mut b: usize = 0;
        while b < m
            invariant
                self.wf(),
                self.same_values(old(self)),
                self.basic_vars@ == old(self).basic_vars@,
                self.non_basic_vars@ == old(self).non_basic_vars@,
                self.unknown == old(self).unknown,
                n == self.next_var_id,
                m == self.tableau@.len(),
                row_wf(new_row@, n),
                b <= m,
                self.tableau@[x_i as int] is None,
            decreases m - b,
        {
            let updated = match &self.tableau[b] {
                Some(other) => {
                    let mut o = row_dup(other, Ghost(n));
                    match row_remove(&mut o, x_j, Ghost(n)) {
                        Some(a_ik) => {
                            let mut q: usize = 0;
                            while q < new_row.len()
                                invariant
                                    row_wf(o@, n),
                                    row_wf(new_row@, n),
                                    a_ik.wf(),
                                    q <= new_row@.len(),
                                decreases new_row@.len() - q,
                            {
                                let prod = a_ik.mul(&new_row[q].1);
                                row_add(&mut o, new_row[q].0, &prod, Ghost(n));
                                q += 1;
                            }
                            Some(o)
                        },
                        None => None,
                    }
                },
                None => None,
            };
            if let Some(o) = updated {
                self.tableau.set(b, Some(o));
            }
            b += 1;
        }
        self.tableau.set(x_j, Some(new_row));
        let mut p: usize = 0;
        while p < self.basic_vars.len()
            invariant
                self.wf(),
                self.same_values(old(self)),
                self.unknown == old(self).unknown,
                self.tableau@[x_j as int] is Some,
                x_i != x_j ==> self.tableau@[x_i as int] is None,
            decreases self.basic_vars@.len() - p,
        {
            if self.basic_vars[p] == x_i {
                self.basic_vars.set(p, x_j);
                break;
            }
            p += 1;
        }
        let mut p: usize = 0;
        while p < self.non_basic_vars.len()
            invariant
                self.wf(),
                self.same_values(old(self)),
                self.unknown == old(self).unknown,
                self.tableau@[x_j as int] is Some,
                x_i != x_j ==> self.tableau@[x_i as int] is None,
            decreases self.non_basic_vars@.len() - p,
        {
            if self.non_basic_vars[p] == x_j {
                self.non_basic_vars.set(p, x_i);
                break;
            }
            p += 1;
        }
    }

    /// The lower bound of `v` in Q(δ, ε): `l (+δ if strict) − ε_v`.
    fn perturbed_lower(&self, v: usize) -> (r: Option<DeltaRational>)
        requires
            self.wf(),
            v < self.next_var_id,
        ensures
            r is Some <==> self.lower_bounds@[v as int] is Some,
            r matches Some(d) ==> d.wf() && d.c@ == self.lower_bounds@[v as int]->Some_0.val@,
    {
        match &self.lower_bounds[v] {
            Some(b) => Some(DeltaRational::with_perturbation(
                b.val.duplicate(), if b.is_strict { 1 } else { 0 }, v, Rational::from_i64(-1))),
            None => None,
        }
    }

    /// The upper bound of `v` in Q(δ, ε): `u (−δ if strict) + ε_v`.
    fn perturbed_upper(&self, v: usize) -> (r: Option<DeltaRational>)
        requires
            self.wf(),
            v < self.next_var_id,
        ensures
            r is Some <==> self.upper_bounds@[v as int] is Some,
            r matches Some(d) ==> d.wf() && d.c@ == self.upper_bounds@[v as int]->Some_0.val@,
    {
        match &self.upper_bounds[v] {
            Some(b) => Some(DeltaRational::with_perturbation(
                b.val.duplicate(), if b.is_strict { -1 } else { 0 }, v, Rational::from_i64(1))),
            None => None,
        }
    }

    /// The origins of a bound of `v`: its lower one or its upper one.
    fn origin_of(&self, v: usize, lower: bool) -> (r: Option<Expr>)
        requires
            self.wf(),
            v < self.next_var_id,
        ensures
            lower ==> (r is Some <==> self.lower_origins@[v as int] is Some),
            !lower ==> (r is Some <==> self.upper_origins@[v as int] is Some),
            lower && r is Some ==> r->Some_0@ == self.lower_origins@[v as int]->Some_0@,
            !lower && r is Some ==> r->Some_0@ == self.upper_origins@[v as int]->Some_0@,
    {
        let o = if lower { &self.lower_origins[v] } else { &self.upper_origins[v] };
        match o {
            Some(e) => Some(e.clone()),
            None => None,
        }
    }

    /// A form bound taken from an existing bound of an existing slack.
    pub open spec fn fb_ok(&self, b: Option<FormBound>) -> bool {
        b is Some ==> {
            let x = b->Some_0;
            &&& x.0.wf()
            &&& x.2 < self.next_var_id
            &&& x.3 ==> self.lower_bounds@[x.2 as int] is Some
            &&& !x.3 ==> self.upper_bounds@[x.2 as int] is Some
        }
    }

    /// Detects two contradictory bounds on one linear form, up to a nonzero factor: each row
    /// is divided by its leading coefficient (a negative one swaps lower and upper), and the
    /// tightest bounds of each form are compared. On a conflict the two bound origins become
    /// the explanation.
    #[verifier::loop_isolation(false)]
    fn detect_row_bound_conflict(&mut self) -> (r: bool)
        requires
            old(self).wf(),
        ensures
            final(self).wf(),
            final(self).same_values(old(self)),
            final(self).tableau@ == old(self).tableau@,
            final(self).basic_vars@ == old(self).basic_vars@,
            final(self).non_basic_vars@ == old(self).non_basic_vars@,
            final(self).unknown == old(self).unknown,
            final(self).last_conflict_var == old(self).last_conflict_var,
            final(self).disequality_conflict == old(self).disequality_conflict,
            r ==> final(self).bound_conflict@.len() == 2,
            !r ==> final(self).bound_conflict@ == old(self).bound_conflict@,
    {
        let n = self.next_var_id;
        let mut groups: Vec<(Row, Option<FormBound>, Option<FormBound>)> = Vec::new();
        let mut slack: usize = 0;
        while slack < n
            invariant
                self.wf(),
                n == self.next_var_id,
                slack <= n,
                forall|g: int| 0 <= g < groups@.len() ==> row_wf((#[trigger] groups@[g]).0@, usize::MAX as int + 1)
                    && self.fb_ok(groups@[g].1) && self.fb_ok(groups@[g].2),
            decreases n - slack,
        {
            if let Some(row) = &self.tableau[slack] {
                if row.len() > 0 && !row[0].1.is_zero() {
                    let factor = row[0].1.duplicate();
                    let flip = factor.is_negative();
                    let mut key: Row = Vec::new();
                    let mut q: usize = 0;
                    while q < row.len()
                        invariant
                            row_wf(row@, n as int),
                            factor.wf(),
                            factor@.0 != 0,
                            q <= row@.len(),
                            key@.len() == q,
                            forall|t: int| 0 <= t < q ==> (#[trigger] key@[t]).0 == row@[t].0 && key@[t].1.wf(),
                        decreases row@.len() - q,
                    {
                        key.push((row[q].0, row[q].1.div(&factor)));
                        q += 1;
                    }
                    assert(row_wf(key@, usize::MAX as int + 1)) by {
                        assert forall|a: int, b: int| 0 <= a < b < key@.len() implies (#[trigger] key@[a]).0 < (#[trigger] key@[b]).0 by {
                            assert(row@[a].0 < row@[b].0);
                        }
                    }
                    let lo_src = if flip { &self.upper_bounds[slack] } else { &self.lower_bounds[slack] };
                    let hi_src = if flip { &self.lower_bounds[slack] } else { &self.upper_bounds[slack] };
                    let canon_lower: Option<FormBound> = match lo_src {
                        Some(b) => Some((b.val.div(&factor), b.is_strict, slack, !flip)),
                        None => None,
                    };
                    let canon_upper: Option<FormBound> = match hi_src {
                        Some(b) => Some((b.val.div(&factor), b.is_strict, slack, flip)),
                        None => None,
                    };
                    // Find the group of `key`, or the place where it belongs.
                    let mut g: usize = 0;
                    let mut found = false;
                    while g < groups.len()
                        invariant
                            g <= groups@.len(),
                            row_wf(key@, usize::MAX as int + 1),
                            forall|t: int| 0 <= t < groups@.len() ==> row_wf((#[trigger] groups@[t]).0@, usize::MAX as int + 1)
                                && self.fb_ok(groups@[t].1) && self.fb_ok(groups@[t].2),
                        decreases groups@.len() - g,
                    {
                        let o = row_key_order(&groups[g].0, &key);
                        if o == 0 {
                            found = true;
                            break;
                        }
                        if o == 1 {
                            break;
                        }
                        g += 1;
                    }
                    let entry = if found && g < groups.len() {
                        groups.remove(g)
                    } else {
                        (key, None, None)
                    };
                    let (ekey, mut elo, mut ehi) = entry;
                    if let Some(cl) = canon_lower {
                        if tighter_lower(&cl, &elo) {
                            elo = Some(cl);
                        }
                    }
                    if let Some(cu) = canon_upper {
                        if tighter_upper(&cu, &ehi) {
                            ehi = Some(cu);
                        }
                    }
                    groups.insert(g, (ekey, elo, ehi));
                }
            }
            slack += 1;
        }
        let mut g: usize = 0;
        while g < groups.len()
            invariant
                self.wf(),
                *self == *old(self),
                n == self.next_var_id,
                g <= groups@.len(),
                forall|t: int| 0 <= t < groups@.len() ==> row_wf((#[trigger] groups@[t]).0@, usize::MAX as int + 1)
                    && self.fb_ok(groups@[t].1) && self.fb_ok(groups@[t].2),
            decreases groups@.len() - g,
        {
            if let (Some(lo), Some(hi)) = (&groups[g].1, &groups[g].2) {
                let o = lo.0.compare(&hi.0);
                if o == 1 || (o == 0 && (lo.1 || hi.1)) {
                    let mut origins: Vec<Expr> = Vec::new();
                    if let Some(e) = self.origin_of(lo.2, lo.3) {
                        origins.push(e);
                    }
                    if let Some(e) = self.origin_of(hi.2, hi.3) {
                        origins.push(e);
                    }
                    self.bound_conflict = origins;
                    return true;
                }
            }
            g += 1;
        }
        false
    }

    /// The difference-logic reading of a row: `factor·(pos − neg)` with `factor > 0`, where
    /// `usize::MAX` stands for the constant zero; `None` when the row's nonzero part is not a
    /// single variable or a difference of two with opposite coefficients.
    fn dl_form(row: &Row, n: Ghost<int>) -> (r: Option<(usize, usize, Rational)>)
        requires
            row_wf(row@, n@),
        ensures
            r matches Some(t) ==> t.2.wf() && t.2@.0 > 0,
            ({
                let nz = nonzero_entries(row@);
                &&& r is Some <==> (nz.len() == 1
                    || (nz.len() == 2 && q_eq(nz[0].1@, (-nz[1].1@.0, nz[1].1@.1))))
                &&& nz.len() == 1 && nz[0].1@.0 > 0 ==> (r matches Some(t)
                    && t.0 == nz[0].0 && t.1 == usize::MAX && t.2@ == nz[0].1@)
                &&& nz.len() == 1 && nz[0].1@.0 <= 0 ==> (r matches Some(t)
                    && t.0 == usize::MAX && t.1 == nz[0].0 && t.2@ == (-nz[0].1@.0, nz[0].1@.1))
                &&& nz.len() == 2 && nz[0].1@.0 > 0 && r is Some ==> (r matches Some(t)
                    && t.0 == nz[0].0 && t.1 == nz[1].0 && t.2@ == nz[0].1@)
                &&& nz.len() == 2 && nz[0].1@.0 <= 0 && r is Some ==> (r matches Some(t)
                    && t.0 == nz[1].0 && t.1 == nz[0].0 && t.2@ == nz[1].1@)
            }),
    {
        let zero_node: usize = usize::MAX;
        let mut first: Option<usize> = None;
        let mut second: Option<usize> = None;
        let mut count: usize = 0;
        let mut i: usize = 0;
        while i < row.len()
            invariant
                row_wf(row@, n@),
                i <= row@.len(),
                count <= i,
                first matches Some(a) ==> a < row@.len(),
                second matches Some(b) ==> b < row@.len(),
                count >= 1 ==> first is Some,
                count >= 2 ==> second is Some,
                first matches Some(a) ==> row@[a as int].1@.0 != 0,
                second matches Some(b) ==> row@[b as int].1@.0 != 0,
                count == nonzero_entries(row@.take(i as int)).len(),
                count >= 1 ==> row@[first->0 as int] == nonzero_entries(row@.take(i as int))[0],
                count >= 2 ==> row@[second->0 as int] == nonzero_entries(row@.take(i as int))[1],
            decreases row@.len() - i,
        {
            proof {
                assert(row@.take(i + 1).drop_last() == row@.take(i as int));
                lemma_nonzero_entries_prefix(row@.take(i as int), row@[i as int]);
                assert(row@.take(i + 1) == row@.take(i as int).push(row@[i as int]));
            }
            if !row[i].1.is_zero() {
                if count == 0 {
                    first = Some(i);
                } else if count == 1 {
                    second = Some(i);
                }
                count += 1;
            }
            i += 1;
        }
        assert(row@.take(row@.len() as int) == row@);
        if count == 1 {
            let a = first.unwrap();
            let (v, c) = (row[a].0, &row[a].1);
            if c.is_positive() {
                Some((v, zero_node, c.duplicate()))
            } else {
                Some((zero_node, v, c.neg()))
            }
        } else if count == 2 {
            let a = first.unwrap();
            let b = second.unwrap();
            let (v1, c1) = (row[a].0, &row[a].1);
            let (v2, c2) = (row[b].0, &row[b].1);
            if c1.eq_value(&c2.neg()) {
                if c1.is_positive() {
                    Some((v1, v2, c1.duplicate()))
                } else {
                    assert(c2@.0 > 0) by (nonlinear_arith)
                        requires c1@.0 * c2@.1 == -c2@.0 * c1@.1, c1@.0 < 0, c1@.1 > 0, c2@.1 > 0;
                    Some((v2, v1, c2.duplicate()))
                }
            } else {
                None
            }
        } else {
            None
        }
    }

    /// Decides the difference-logic fragment: rows that read `factor·(pos − neg)` give one edge
    /// per bound, weighted by the bound (strictness as `−δ`), and a negative cycle, found by
    /// Bellman-Ford from a virtual source, is a conflict; the origins of its edges become the
    /// explanation.
    #[verifier::loop_isolation(false)]
    fn detect_difference_logic_conflict(&mut self) -> (r: bool)
        requires
            old(self).wf(),
        ensures
            final(self).wf(),
            final(self).same_values(old(self)),
            final(self).tableau@ == old(self).tableau@,
            final(self).basic_vars@ == old(self).basic_vars@,
            final(self).non_basic_vars@ == old(self).non_basic_vars@,
            final(self).unknown == old(self).unknown,
            final(self).last_conflict_var == old(self).last_conflict_var,
            final(self).disequality_conflict == old(self).disequality_conflict,
            !r ==> final(self).bound_conflict@ == old(self).bound_conflict@,
    {
        let n = self.next_var_id;
        let mut edges: Vec<DlEdge> = Vec::new();
        let mut nodes: Vec<usize> = Vec::new();
        let mut slack: usize = 0;
        while slack < n
            invariant
                self.wf(),
                *self == *old(self),
                n == self.next_var_id,
                slack <= n,
                forall|e: int| 0 <= e < edges@.len() ==> (#[trigger] edges@[e]).2.wf()
                    && nodes@.contains(edges@[e].0) && nodes@.contains(edges@[e].1),
            decreases n - slack,
        {
            if let Some(row) = &self.tableau[slack] {
                if let Some((pos, neg, factor)) = Self::dl_form(row, Ghost(n as int)) {
                    if let (Some(lb), Some(o)) = (&self.lower_bounds[slack], &self.lower_origins[slack]) {
                        let k = lb.val.div(&factor).neg();
                        let kd = if lb.is_strict { Rational::from_i64(-1) } else { Rational::zero() };
                        let w = DeltaRational { c: k, k: kd, eps: Vec::new() };
                        insert_node(&mut nodes, pos);
                        insert_node(&mut nodes, neg);
                        edges.push((pos, neg, w, o.clone()));
                    }
                    if let (Some(ub), Some(o)) = (&self.upper_bounds[slack], &self.upper_origins[slack]) {
                        let k = ub.val.div(&factor);
                        let kd = if ub.is_strict { Rational::from_i64(-1) } else { Rational::zero() };
                        let w = DeltaRational { c: k, k: kd, eps: Vec::new() };
                        insert_node(&mut nodes, neg);
                        insert_node(&mut nodes, pos);
                        edges.push((neg, pos, w, o.clone()));
                    }
                }
            }
            slack += 1;
        }
        if edges.len() == 0 {
            return false;
        }
        let nn = nodes.len();
        let mut dist: Vec<DeltaRational> = Vec::new();
        let mut pred: Vec<Option<(usize, usize)>> = Vec::new();
        let mut t: usize = 0;
        while t < nn
            invariant
                t <= nn,
                nn == nodes@.len(),
                dist@.len() == t,
                pred@.len() == t,
                forall|q: int| 0 <= q < t ==> (#[trigger] dist@[q]).wf(),
                forall|q: int| 0 <= q < t ==> ((#[trigger] pred@[q]) matches Some(pe) ==> pe.1 < edges@.len()),
            decreases nn - t,
        {
            dist.push(DeltaRational::zero());
            pred.push(None);
            t += 1;
        }
        let mut last_relaxed: Option<usize> = None;
        let mut pass: usize = 0;
        while pass < nn
            invariant
                self.wf(),
                *self == *old(self),
                pass <= nn,
                nn == nodes@.len(),
                dist@.len() == nn,
                pred@.len() == nn,
                forall|q: int| 0 <= q < nn ==> (#[trigger] dist@[q]).wf(),
                forall|q: int| 0 <= q < nn ==> ((#[trigger] pred@[q]) matches Some(pe) ==> pe.1 < edges@.len()),
                forall|e: int| 0 <= e < edges@.len() ==> (#[trigger] edges@[e]).2.wf(),
            decreases nn - pass,
        {
            let mut relaxed = false;
            let mut idx: usize = 0;
            while idx < edges.len()
                invariant
                    idx <= edges@.len(),
                    nn == nodes@.len(),
                    dist@.len() == nn,
                    pred@.len() == nn,
                    forall|q: int| 0 <= q < nn ==> (#[trigger] dist@[q]).wf(),
                    forall|q: int| 0 <= q < nn ==> ((#[trigger] pred@[q]) matches Some(pe) ==> pe.1 < edges@.len()),
                    forall|e: int| 0 <= e < edges@.len() ==> (#[trigger] edges@[e]).2.wf(),
                decreases edges@.len() - idx,
            {
                let u = edges[idx].0;
                let v = edges[idx].1;
                if let (Some(ui), Some(vi)) = (node_index(&nodes, u), node_index(&nodes, v)) {
                    let cand = dist[ui].add(&edges[idx].2);
                    if cand.lt_delta(&dist[vi]) {
                        dist.set(vi, cand);
                        pred.set(vi, Some((u, idx)));
                        relaxed = true;
                        last_relaxed = Some(v);
                    }
                }
                idx += 1;
            }
            if !relaxed {
                return false;
            }
            pass += 1;
        }
        let mut cur = match last_relaxed {
            Some(v) => v,
            None => {
                return false;
            },
        };
        let mut step: usize = 0;
        while step < nn
            invariant
                step <= nn,
                nn == nodes@.len(),
                pred@.len() == nn,
            decreases nn - step,
        {
            if let Some(ci) = node_index(&nodes, cur) {
                if let Some((p, _)) = pred[ci] {
                    cur = p;
                }
            }
            step += 1;
        }
        let entry = cur;
        let mut origins: Vec<Expr> = Vec::new();
        let mut guard: usize = 0;
        loop
            invariant
                guard <= nn,
                nn == nodes@.len(),
                pred@.len() == nn,
                forall|q: int| 0 <= q < nn ==> ((#[trigger] pred@[q]) matches Some(pe) ==> pe.1 < edges@.len()),
            decreases nn - guard,
        {
            let ci = match node_index(&nodes, cur) {
                Some(ci) => ci,
                None => {
                    break;
                },
            };
            let (p, idx) = match pred[ci] {
                Some(pe) => pe,
                None => {
                    break;
                },
            };
            origins.push(edges[idx].3.clone());
            cur = p;
            if cur == entry || guard >= nn {
                break;
            }
            guard += 1;
        }
        self.bound_conflict = origins;
        true
    }

    /// Whether the basic `x_i` bounds how far `x_j` can move up: its row gives `x_j` a
    /// positive coefficient and `x_i` has an upper bound, or a negative one and a lower bound.
    pub open spec fn limits_up(&self, x_i: int, x_j: int) -> bool {
        &&& self.tableau@[x_i] is Some
        &&& exists|k: int| 0 <= k < self.tableau@[x_i]->Some_0@.len()
            && (#[trigger] self.tableau@[x_i]->Some_0@[k]).0 == x_j
            && ((self.tableau@[x_i]->Some_0@[k].1@.0 > 0 && self.upper_bounds@[x_i] is Some)
                || (self.tableau@[x_i]->Some_0@[k].1@.0 < 0 && self.lower_bounds@[x_i] is Some))
    }

    /// Whether the basic `x_i` bounds how far `x_j` can move down (the mirror of `limits_up`).
    pub open spec fn limits_down(&self, x_i: int, x_j: int) -> bool {
        &&& self.tableau@[x_i] is Some
        &&& exists|k: int| 0 <= k < self.tableau@[x_i]->Some_0@.len()
            && (#[trigger] self.tableau@[x_i]->Some_0@[k]).0 == x_j
            && ((self.tableau@[x_i]->Some_0@[k].1@.0 > 0 && self.lower_bounds@[x_i] is Some)
                || (self.tableau@[x_i]->Some_0@[k].1@.0 < 0 && self.upper_bounds@[x_i] is Some))
    }

    /// How far the nonbasic `x_j` can move up and down while every bounded variable stays
    /// within its bounds (the Simplex ratio test); `None` is unbounded.
    #[verifier::loop_isolation(false)]
    fn feasible_room(&self, x_j: usize) -> (r: (Option<DeltaRational>, Option<DeltaRational>))
        requires
            self.wf(),
            x_j < self.next_var_id,
        ensures
            r.0 matches Some(d) ==> d.wf(),
            r.1 matches Some(d) ==> d.wf(),
            r.0 is Some <==> (self.upper_bounds@[x_j as int] is Some
                || exists|x_i: int| 0 <= x_i < self.next_var_id && #[trigger] self.limits_up(x_i, x_j as int)),
            r.1 is Some <==> (self.lower_bounds@[x_j as int] is Some
                || exists|x_i: int| 0 <= x_i < self.next_var_id && #[trigger] self.limits_down(x_i, x_j as int)),
    {
        let val_j = &self.assignment[x_j];
        let mut up: Option<DeltaRational> = match &self.upper_bounds[x_j] {
            Some(b) => Some(plain(b.val.sub(&val_j.c), val_j.k.neg())),
            None => None,
        };
        let mut down: Option<DeltaRational> = match &self.lower_bounds[x_j] {
            Some(b) => Some(plain(val_j.c.sub(&b.val), val_j.k.duplicate())),
            None => None,
        };
        let n = self.next_var_id;
        let mut x_i: usize = 0;
        while x_i < n
            invariant
                x_i <= n,
                up matches Some(d) ==> d.wf(),
                down matches Some(d) ==> d.wf(),
                up is Some <==> (self.upper_bounds@[x_j as int] is Some
                    || exists|q: int| 0 <= q < x_i && #[trigger] self.limits_up(q, x_j as int)),
                down is Some <==> (self.lower_bounds@[x_j as int] is Some
                    || exists|q: int| 0 <= q < x_i && #[trigger] self.limits_down(q, x_j as int)),
            decreases n - x_i,
        {
            proof {
                if self.tableau@[x_i as int] is Some {
                    let row = self.tableau@[x_i as int]->Some_0@;
                    assert forall|a: int, b: int| 0 <= a < row.len() && 0 <= b < row.len()
                        && row[a].0 == x_j && row[b].0 == x_j implies a == b by {
                        if a < b {
                            assert(row[a].0 < row[b].0);
                        } else if b < a {
                            assert(row[b].0 < row[a].0);
                        }
                    }
                }
            }
            let ghost up0 = up is Some;
            let ghost down0 = down is Some;
            if let Some(row) = &self.tableau[x_i] {
                let got = row_get(row, x_j);
                proof {
                    if got is None {
                        assert(!self.limits_up(x_i as int, x_j as int));
                        assert(!self.limits_down(x_i as int, x_j as int));
                    } else {
                        let v = got->Some_0;
                        let k0 = choose|k: int| 0 <= k < row@.len() && (#[trigger] row@[k]).0 == x_j && v@ == row@[k].1@;
                        assert(self.limits_up(x_i as int, x_j as int) <==> ((v@.0 > 0 && self.upper_bounds@[x_i as int] is Some)
                            || (v@.0 < 0 && self.lower_bounds@[x_i as int] is Some))) by {
                            if self.limits_up(x_i as int, x_j as int) {
                                let k = choose|k: int| 0 <= k < row@.len() && (#[trigger] row@[k]).0 == x_j
                                    && ((row@[k].1@.0 > 0 && self.upper_bounds@[x_i as int] is Some)
                                        || (row@[k].1@.0 < 0 && self.lower_bounds@[x_i as int] is Some));
                                assert(k == k0);
                            }
                            assert(row@[k0].0 == x_j);
                        }
                        assert(self.limits_down(x_i as int, x_j as int) <==> ((v@.0 > 0 && self.lower_bounds@[x_i as int] is Some)
                            || (v@.0 < 0 && self.upper_bounds@[x_i as int] is Some))) by {
                            if self.limits_down(x_i as int, x_j as int) {
                                let k = choose|k: int| 0 <= k < row@.len() && (#[trigger] row@[k]).0 == x_j
                                    && ((row@[k].1@.0 > 0 && self.lower_bounds@[x_i as int] is Some)
                                        || (row@[k].1@.0 < 0 && self.upper_bounds@[x_i as int] is Some));
                                assert(k == k0);
                            }
                            assert(row@[k0].0 == x_j);
                        }
                    }
                }
                if let Some(a_ij) = got {
                    if !a_ij.is_zero() {
                        let val_i = &self.assignment[x_i];
                        let one = Rational::from_i64(1);
                        if a_ij.is_positive() {
                            let inv = one.div(&a_ij);
                            if let Some(ub) = &self.upper_bounds[x_i] {
                                let room = plain(ub.val.sub(&val_i.c), val_i.k.neg()).scale(&inv);
                                up = min_room(up, room);
                            }
                            if let Some(lb) = &self.lower_bounds[x_i] {
                                let room = plain(val_i.c.sub(&lb.val), val_i.k.duplicate()).scale(&inv);
                                down = min_room(down, room);
                            }
                        } else {
                            let inv = one.div(&a_ij.neg());
                            if let Some(lb) = &self.lower_bounds[x_i] {
                                let room = plain(val_i.c.sub(&lb.val), val_i.k.duplicate()).scale(&inv);
                                up = min_room(up, room);
                            }
                            if let Some(ub) = &self.upper_bounds[x_i] {
                                let room = plain(ub.val.sub(&val_i.c), val_i.k.neg()).scale(&inv);
                                down = min_room(down, room);
                            }
                        }
                    }
                }
            } else {
                assert(!self.limits_up(x_i as int, x_j as int));
                assert(!self.limits_down(x_i as int, x_j as int));
            }
            proof {
                assert(up is Some <==> (up0 || self.limits_up(x_i as int, x_j as int)));
                assert(down is Some <==> (down0 || self.limits_down(x_i as int, x_j as int)));
                assert((exists|q: int| 0 <= q < x_i + 1 && #[trigger] self.limits_up(q, x_j as int))
                    <==> ((exists|q: int| 0 <= q < x_i && #[trigger] self.limits_up(q, x_j as int))
                        || self.limits_up(x_i as int, x_j as int)));
                assert((exists|q: int| 0 <= q < x_i + 1 && #[trigger] self.limits_down(q, x_j as int))
                    <==> ((exists|q: int| 0 <= q < x_i && #[trigger] self.limits_down(q, x_j as int))
                        || self.limits_down(x_i as int, x_j as int)));
            }
            x_i += 1;
        }
        (up, down)
    }

    /// Repairs the violated disequality `idx` by moving, exactly and inside the feasible
    /// region, the first nonbasic variable (by index) on which the sum depends.
    #[verifier::loop_isolation(false)]
    fn try_repair_disequality(&mut self, idx: usize) -> (r: RepairResult)
        requires
            old(self).wf(),
            idx < old(self).disequalities@.len(),
        ensures
            final(self).wf(),
            final(self).same_but_assignment(old(self)),
            !(r is Moved) ==> final(self).assignment@ == old(self).assignment@,
    {
        let ghost n = self.next_var_id as int;
        let coeffs = row_dup(&self.disequalities[idx].0, Ghost(n));
        let nb = sorted_copy(&self.non_basic_vars);
        let one = Rational::from_i64(1);
        let two = Rational::from_i64(2);
        let mut any_can_move = false;
        let mut mover: Option<(usize, DeltaRational)> = None;
        let mut t: usize = 0;
        while t < nb.len()
            invariant
                self.wf(),
                *self == *old(self),
                t <= nb@.len(),
                row_wf(coeffs@, n),
                forall|i: int| 0 <= i < nb@.len() ==> self.non_basic_vars@.contains(#[trigger] nb@[i]),
                mover matches Some(m) ==> m.0 < n && m.1.wf(),
            decreases nb@.len() - t,
        {
            let x_j = nb[t];
            assert(self.non_basic_vars@.contains(nb@[t as int]));
            let (up, down) = self.feasible_room(x_j);
            let can_up = match &up {
                Some(d) => d.is_positive(),
                None => true,
            };
            let can_down = match &down {
                Some(d) => d.is_positive(),
                None => true,
            };
            if can_up || can_down {
                any_can_move = true;
            }
            if mover.is_none() {
                let mut r_j = match row_get(&coeffs, x_j) {
                    Some(c) => c,
                    None => Rational::zero(),
                };
                let mut q: usize = 0;
                while q < coeffs.len()
                    invariant
                        self.wf(),
                        row_wf(coeffs@, n),
                        q <= coeffs@.len(),
                        r_j.wf(),
                    decreases coeffs@.len() - q,
                {
                    let v = coeffs[q].0;
                    if let Some(row) = &self.tableau[v] {
                        if let Some(a_vj) = row_get(row, x_j) {
                            r_j = r_j.add(&coeffs[q].1.mul(&a_vj));
                        }
                    }
                    q += 1;
                }
                if !r_j.is_zero() {
                    let zero = Rational::zero();
                    let delta = if can_up {
                        match up {
                            Some(r) => if r.c.is_positive() {
                                DeltaRational::rational(if r.c.lt(&one) { r.c.duplicate() } else { one.duplicate() })
                            } else {
                                plain(zero.duplicate(), r.k.div(&two))
                            },
                            None => DeltaRational::rational(one.duplicate()),
                        }
                    } else if can_down {
                        match down {
                            Some(r) => if r.c.is_positive() {
                                DeltaRational::rational(if r.c.lt(&one) { r.c.neg() } else { one.neg() })
                            } else {
                                plain(zero.duplicate(), r.k.div(&two).neg())
                            },
                            None => DeltaRational::rational(one.neg()),
                        }
                    } else {
                        DeltaRational::zero()
                    };
                    if !delta.is_zero() {
                        mover = Some((x_j, delta));
                    }
                }
            }
            t += 1;
        }
        match mover {
            Some((x_j, delta)) => {
                let moved = self.assignment[x_j].add(&delta);
                self.update(x_j, moved);
                RepairResult::Moved
            },
            None => if any_can_move {
                RepairResult::Stuck
            } else {
                RepairResult::FrozenPolytope
            },
        }
    }

    /// Records the origins of the bounds of every variable of disequality `idx`.
    #[verifier::loop_isolation(false)]
    fn collect_freeze_origins(&mut self, idx: usize)
        requires
            old(self).wf(),
            idx < old(self).disequalities@.len(),
        ensures
            exprs_view(final(self).disequality_freeze_origins@) == bound_origins(old(self).lower_origins@,
                old(self).upper_origins@, row_columns(old(self).disequalities@[idx as int].0@)),
            final(self).wf(),
            final(self).same_values(old(self)),
            final(self).tableau@ == old(self).tableau@,
            final(self).basic_vars@ == old(self).basic_vars@,
            final(self).non_basic_vars@ == old(self).non_basic_vars@,
            final(self).unknown == old(self).unknown,
            final(self).bound_conflict@ == old(self).bound_conflict@,
            final(self).last_conflict_var == old(self).last_conflict_var,
            final(self).disequality_conflict == old(self).disequality_conflict,
    {
        let ghost n = self.next_var_id as int;
        let vars = row_dup(&self.disequalities[idx].0, Ghost(n));
        let ghost cols = row_columns(vars@);
        assert(cols == row_columns(self.disequalities@[idx as int].0@));
        let mut out: Vec<Expr> = Vec::new();
        let mut q: usize = 0;
        while q < vars.len()
            invariant
                self.wf(),
                *self == *old(self),
                row_wf(vars@, n),
                q <= vars@.len(),
                cols == row_columns(vars@),
                exprs_view(out@) == bound_origins(self.lower_origins@, self.upper_origins@, cols.take(q as int)),
            decreases vars@.len() - q,
        {
            let v = vars[q].0;
            let ghost lo = self.lower_origins@;
            let ghost up = self.upper_origins@;
            proof {
                assert(cols.take(q + 1).drop_last() == cols.take(q as int));
                assert(cols.take(q + 1).last() == v);
            }
            let ghost o0 = out@;
            if let Some(e) = self.origin_of(v, true) {
                out.push(e);
                proof { lemma_exprs_view_push(o0, e); }
            }
            let ghost o1 = out@;
            if let Some(e) = self.origin_of(v, false) {
                out.push(e);
                proof { lemma_exprs_view_push(o1, e); }
            }
            q += 1;
        }
        assert(cols.take(vars@.len() as int) == cols);
        self.disequality_freeze_origins = out;
    }

    /// The first basic variable (by index) outside its perturbed bounds, and whether it is
    /// below its lower bound.
    #[verifier::loop_isolation(false)]
    fn find_violated(&self) -> (r: Option<(usize, bool)>)
        requires
            self.wf(),
        ensures
            r matches Some(p) ==> p.0 < self.next_var_id,
            r matches Some(p) ==> (p.1 ==> self.lower_bounds@[p.0 as int] is Some),
            r matches Some(p) ==> (!p.1 ==> self.upper_bounds@[p.0 as int] is Some),
            r is None ==> self.basic_bounds_hold(),
    {
        let basics = sorted_copy(&self.basic_vars);
        let mut t: usize = 0;
        while t < basics.len()
            invariant
                t <= basics@.len(),
                forall|i: int| 0 <= i < basics@.len() ==> self.basic_vars@.contains(#[trigger] basics@[i]),
                forall|i: int| 0 <= i < self.basic_vars@.len() ==> basics@.contains(#[trigger] self.basic_vars@[i]),
                forall|i: int| 0 <= i < t ==> self.within_bounds(#[trigger] basics@[i]),
            decreases basics@.len() - t,
        {
            let x_i = basics[t];
            assert(self.basic_vars@.contains(basics@[t as int]));
            let val = &self.assignment[x_i];
            if let Some(pl) = self.perturbed_lower(x_i) {
                if val.order_lex(&pl) == -1 {
                    return Some((x_i, true));
                }
            }
            if let Some(pu) = self.perturbed_upper(x_i) {
                if val.order_lex(&pu) == 1 {
                    return Some((x_i, false));
                }
            }
            assert(self.within_bounds(x_i));
            t += 1;
        }
        proof {
            assert forall|v: usize| #[trigger] self.basic_vars@.contains(v) implies self.within_bounds(v) by {
                let k = choose|k: int| 0 <= k < self.basic_vars@.len() && self.basic_vars@[k] == v;
                assert(basics@.contains(self.basic_vars@[k]));
                let j = choose|j: int| 0 <= j < basics@.len() && basics@[j] == v;
                assert(self.within_bounds(basics@[j]));
            }
        }
        None
    }

    /// Whether every variable's value lies within its bounds (in its rational part).
    #[verifier::loop_isolation(false)]
    fn all_within_bounds(&self) -> (r: bool)
        requires
            self.wf(),
        ensures
            r ==> forall|v: usize| v < self.next_var_id ==> #[trigger] self.within_bounds(v),
    {
        let n = self.next_var_id;
        let mut v: usize = 0;
        while v < n
            invariant
                v <= n,
                n == self.next_var_id,
                forall|u: usize| u < v ==> #[trigger] self.within_bounds(u),
            decreases n - v,
        {
            let val = &self.assignment[v];
            if let Some(pl) = self.perturbed_lower(v) {
                if val.order_lex(&pl) == -1 {
                    return false;
                }
            }
            if let Some(pu) = self.perturbed_upper(v) {
                if val.order_lex(&pu) == 1 {
                    return false;
                }
            }
            assert(self.within_bounds(v));
            v += 1;
        }
        true
    }

    /// The rational part of the value of `v` lies within its bounds.
    pub open spec fn within_bounds(&self, v: usize) -> bool {
        &&& (self.lower_bounds@[v as int] matches Some(b) ==> !q_lt(self.assignment@[v as int].c@, b.val@))
        &&& (self.upper_bounds@[v as int] matches Some(b) ==> !q_lt(b.val@, self.assignment@[v as int].c@))
    }

    /// Every basic variable's value lies within its bounds (in its rational part).
    pub open spec fn basic_bounds_hold(&self) -> bool {
        forall|v: usize| #[trigger] self.basic_vars@.contains(v) ==> self.within_bounds(v)
    }

    /// The first disequality whose sum, without the perturbation, equals its target.
    #[verifier::loop_isolation(false)]
    fn find_violated_disequality(&self) -> (r: Option<usize>)
        requires
            self.wf(),
        ensures
            r matches Some(i) ==> i < self.disequalities@.len(),
    {
        let mut idx: usize = 0;
        while idx < self.disequalities.len()
            invariant
                idx <= self.disequalities@.len(),
            decreases self.disequalities@.len() - idx,
        {
            let coeffs = &self.disequalities[idx].0;
            let mut sum = DeltaRational::zero();
            let mut q: usize = 0;
            while q < coeffs.len()
                invariant
                    q <= coeffs@.len(),
                    sum.wf(),
                    coeffs == &self.disequalities@[idx as int].0,
                decreases coeffs@.len() - q,
            {
                sum = sum.add(&self.assignment[coeffs[q].0].scale(&coeffs[q].1));
                q += 1;
            }
            if sum.c.eq_value(&self.disequalities[idx].1) && sum.k.is_zero() {
                return Some(idx);
            }
            idx += 1;
        }
        None
    }

    /// The Simplex feasibility check over Q(δ, ε) with Bland's rule, after the direct
    /// decisions for same-form bounds and difference logic. `false` is a conflict, recorded
    /// for [`LraSolver::explain`]; `true` with [`LraSolver::is_unknown`] set means a budget of
    /// 2000 pivots or 2000 disequality repairs ran out, or a disequality could not be settled.
    #[verifier::loop_isolation(false)]
    pub fn check_feasibility(&mut self) -> (r: bool)
        requires
            old(self).wf(),
        ensures
            final(self).wf(),
            final(self).var_map@ == old(self).var_map@,
            final(self).next_var_id == old(self).next_var_id,
            final(self).lower_bounds@ == old(self).lower_bounds@,
            final(self).upper_bounds@ == old(self).upper_bounds@,
            final(self).disequalities@ == old(self).disequalities@,
            old(self).unknown ==> final(self).unknown,
            final(self).unknown && !old(self).unknown ==> r,
            r && !final(self).unknown ==> final(self).basic_bounds_hold(),
            r && !final(self).unknown ==> forall|v: usize| v < final(self).next_var_id ==> #[trigger] final(self).within_bounds(v),
    {
        if self.detect_row_bound_conflict() {
            return false;
        }
        if self.detect_difference_logic_conflict() {
            return false;
        }
        let max_pivots: usize = 2000;
        let max_diseq_repairs: usize = 2000;
        let mut pivots: usize = 0;
        let mut diseq_repairs: usize = 0;
        loop
            invariant
                self.wf(),
                self.var_map@ == old(self).var_map@,
                self.next_var_id == old(self).next_var_id,
                self.lower_bounds@ == old(self).lower_bounds@,
                self.upper_bounds@ == old(self).upper_bounds@,
                self.disequalities@ == old(self).disequalities@,
                self.unknown == old(self).unknown,
                pivots <= max_pivots + 1,
                diseq_repairs <= max_diseq_repairs,
            decreases max_pivots + 1 - pivots,
        {
            if pivots > max_pivots {
                self.unknown = true;
                return true;
            }
            pivots += 1;
            match self.find_violated() {
                Some((x_i, is_lower)) => {
                    let target = if is_lower {
                        match self.perturbed_lower(x_i) {
                            Some(d) => d,
                            None => DeltaRational::zero(),
                        }
                    } else {
                        match self.perturbed_upper(x_i) {
                            Some(d) => d,
                            None => DeltaRational::zero(),
                        }
                    };
                    let ghost n = self.next_var_id as int;
                    let row = match &self.tableau[x_i] {
                        Some(r) => row_dup(r, Ghost(n)),
                        None => Vec::new(),
                    };
                    let nb = sorted_copy(&self.non_basic_vars);
                    let mut found_pivot = false;
                    let mut t: usize = 0;
                    while t < nb.len()
                        invariant
                            self.wf(),
                            self.var_map@ == old(self).var_map@,
                            self.next_var_id == old(self).next_var_id,
                            self.lower_bounds@ == old(self).lower_bounds@,
                            self.upper_bounds@ == old(self).upper_bounds@,
                            self.disequalities@ == old(self).disequalities@,
                            self.unknown == old(self).unknown,
                            !found_pivot,
                            t <= nb@.len(),
                            forall|i: int| 0 <= i < nb@.len() ==> (#[trigger] nb@[i]) < self.next_var_id,
                            row_wf(row@, n),
                            target.wf(),
                        decreases nb@.len() - t,
                    {
                        let x_j = nb[t];
                        let a_ij = match row_get(&row, x_j) {
                            Some(a) => a,
                            None => Rational::zero(),
                        };
                        if !a_ij.is_zero() {
                            let val_j = &self.assignment[x_j];
                            let can_increase = match self.perturbed_upper(x_j) {
                                Some(pu) => val_j.order_lex(&pu) == -1,
                                None => true,
                            };
                            let can_decrease = match self.perturbed_lower(x_j) {
                                Some(pl) => val_j.order_lex(&pl) == 1,
                                None => true,
                            };
                            let pos = a_ij.is_positive();
                            let improves = if is_lower {
                                (pos && can_increase) || (!pos && can_decrease)
                            } else {
                                (pos && can_decrease) || (!pos && can_increase)
                            };
                            if improves {
                                self.pivot(x_i, x_j);
                                if self.unknown {
                                    return true;
                                }
                                self.update(x_i, target.duplicate());
                                found_pivot = true;
                                break;
                            }
                        }
                        t += 1;
                    }
                    if !found_pivot {
                        self.last_conflict_var = Some(x_i);
                        return false;
                    }
                },
                None => {
                    match self.find_violated_disequality() {
                        None => {
                            if !self.all_within_bounds() {
                                self.unknown = true;
                            }
                            return true;
                        },
                        Some(idx) => {
                            if diseq_repairs >= max_diseq_repairs {
                                self.unknown = true;
                                return true;
                            }
                            diseq_repairs += 1;
                            match self.try_repair_disequality(idx) {
                                RepairResult::Moved => {},
                                RepairResult::FrozenPolytope => {
                                    self.disequality_conflict = Some(self.disequalities[idx].2.clone());
                                    self.collect_freeze_origins(idx);
                                    return false;
                                },
                                RepairResult::Stuck => {
                                    self.unknown = true;
                                    return true;
                                },
                            }
                        },
                    }
                },
            }
        }
    }

    /// A positive value for δ under which every bound still holds: half the smallest gap
    /// that a δ-term may close, or 1 when none limits it.
    #[verifier::loop_isolation(false)]
    fn model_delta(&self) -> (r: Rational)
        requires
            self.wf(),
        ensures
            r.wf(),
    {
        let mut upper: Option<Rational> = None;
        let n = self.next_var_id;
        let mut var: usize = 0;
        while var < n
            invariant
                var <= n,
                upper matches Some(u) ==> u.wf() && u@.0 > 0,
            decreases n - var,
        {
            let value = &self.assignment[var];
            if value.k.is_positive() {
                if let Some(ub) = &self.upper_bounds[var] {
                    if value.c.lt(&ub.val) {
                        let gap = ub.val.sub(&value.c);
                        let limit = gap.div(&value.k);
                        proof { lemma_quotient_positive(ub.val@, value.c@, gap@, value.k@, limit@); }
                        upper = Some(match upper {
                            Some(cur) => if limit.lt(&cur) { limit } else { cur },
                            None => limit,
                        });
                    }
                }
            } else if value.k.is_negative() {
                if let Some(lb) = &self.lower_bounds[var] {
                    if lb.val.lt(&value.c) {
                        let negk = value.k.neg();
                        let gap = value.c.sub(&lb.val);
                        let limit = gap.div(&negk);
                        proof { lemma_quotient_positive(value.c@, lb.val@, gap@, negk@, limit@); }
                        upper = Some(match upper {
                            Some(cur) => if limit.lt(&cur) { limit } else { cur },
                            None => limit,
                        });
                    }
                }
            }
            var += 1;
        }
        match upper {
            Some(limit) => limit.div(&Rational::from_i64(2)),
            None => Rational::from_i64(1),
        }
    }

    /// The value of every named variable, by ascending name, with δ replaced by
    /// [`LraSolver::model_delta`].
    pub fn get_all_assignments(&self) -> (r: Vec<(String, Rational)>)
        requires
            self.wf(),
        ensures
            r@.len() == self.var_map@.len(),
            forall|i: int| 0 <= i < r@.len() ==> (#[trigger] r@[i]).0@ == self.var_map@[i].0@ && r@[i].1.wf(),
    {
        let delta = self.model_delta();
        let mut out: Vec<(String, Rational)> = Vec::new();
        let mut i: usize = 0;
        while i < self.var_map.len()
            invariant
                self.wf(),
                delta.wf(),
                i <= self.var_map@.len(),
                out@.len() == i,
                forall|q: int| 0 <= q < i ==> (#[trigger] out@[q]).0@ == self.var_map@[q].0@ && out@[q].1.wf(),
            decreases self.var_map@.len() - i,
        {
            let id = self.var_map[i].1;
            let value = &self.assignment[id];
            let ratio = value.c.add(&value.k.mul(&delta));
            out.push((self.var_map[i].0.clone(), ratio));
            i += 1;
        }
        out
    }

    /// The id of the variable named `name`.
    fn lookup_var(&self, name: &String) -> (r: Option<usize>)
        requires
            self.wf(),
        ensures
            r matches Some(id) ==> id < self.next_var_id,
            r matches Some(id) ==> exists|k: int| 0 <= k < self.var_map@.len() && self.var_map@[k].0@ == name@
                && #[trigger] self.var_map@[k].1 == id,
            r is None ==> forall|k: int| 0 <= k < self.var_map@.len() ==> (#[trigger] self.var_map@[k]).0@ != name@,
    {
        let mut i: usize = 0;
        while i < self.var_map.len()
            invariant
                self.wf(),
                i <= self.var_map@.len(),
                forall|k: int| 0 <= k < i ==> (#[trigger] self.var_map@[k]).0@ != name@,
            decreases self.var_map@.len() - i,
        {
            proof {
                lemma_chars_order_zero(self.var_map@[i as int].0@, name@);
            }
            if string_order(&self.var_map[i].0, name) == 0 {
                return Some(self.var_map[i].1);
            }
            i += 1;
        }
        None
    }

    /// The value of a numeral.
    fn try_eval_const(expr: &Expr) -> (r: Option<Rational>)
        ensures
            r matches Some(v) ==> v.wf(),
            r is Some <==> (expr is Int || expr is Real),
    {
        match expr {
            Expr::Int(i) => Some(Rational::from_i64(*i)),
            Expr::Real(m, sc) => Some(Rational::decimal(*m, *sc)),
            _ => None,
        }
    }

    /// The facts about `self` that adding variables keeps.
    pub open spec fn grows_from(&self, other: &LraSolver) -> bool {
        &&& self.next_var_id >= other.next_var_id
        &&& self.basic_vars@ == other.basic_vars@
        &&& self.disequalities@ == other.disequalities@
        &&& self.unknown == other.unknown
    }

    /// Adds `scale·expr` to the linear form `coeffs` and returns its constant part; a term
    /// that is not linear (a product of two non-numerals, or any other operator) becomes a
    /// variable named after the term.
    #[verifier::loop_isolation(false)]
    fn extract_coeffs(&mut self, expr: &Expr, scale: &Rational, coeffs: &mut Row) -> (r: Rational)
        requires
            old(self).wf(),
            row_wf(old(coeffs)@, old(self).next_var_id as int),
            scale.wf(),
        ensures
            final(self).wf(),
            final(self).grows_from(old(self)),
            row_wf(final(coeffs)@, final(self).next_var_id as int),
            r.wf(),
        decreases expr,
    {
        match expr {
            Expr::Int(i) => scale.mul(&Rational::from_i64(*i)),
            Expr::Real(m, sc) => scale.mul(&Rational::decimal(*m, *sc)),
            Expr::Var(name, _) => {
                let id = self.get_or_create_var(name);
                row_add(coeffs, id, scale, Ghost(self.next_var_id as int));
                Rational::zero()
            },
            Expr::Add(args) => {
                let mut constant = Rational::zero();
                let mut i: usize = 0;
                while i < args.len()
                    invariant
                        self.wf(),
                        self.grows_from(old(self)),
                        row_wf(coeffs@, self.next_var_id as int),
                        constant.wf(),
                        scale.wf(),
                        i <= args@.len(),
                    decreases args@.len() - i,
                {
                    proof {
                        assert(decreases_to!(*expr => args@[i as int]));
                    }
                    let c = self.extract_coeffs(&args[i], scale, coeffs);
                    constant = constant.add(&c);
                    i += 1;
                }
                constant
            },
            Expr::Sub(args) => {
                if args.len() == 0 {
                    return Rational::zero();
                }
                proof {
                    assert(decreases_to!(*expr => args@[0]));
                }
                let mut constant = self.extract_coeffs(&args[0], scale, coeffs);
                let neg = scale.neg();
                let mut i: usize = 1;
                while i < args.len()
                    invariant
                        self.wf(),
                        self.grows_from(old(self)),
                        row_wf(coeffs@, self.next_var_id as int),
                        constant.wf(),
                        neg.wf(),
                        1 <= i <= args@.len(),
                    decreases args@.len() - i,
                {
                    proof {
                        assert(decreases_to!(*expr => args@[i as int]));
                    }
                    let c = self.extract_coeffs(&args[i], &neg, coeffs);
                    constant = constant.add(&c);
                    i += 1;
                }
                constant
            },
            Expr::Mul(args) => {
                if args.len() == 2 {
                    proof {
                        assert(decreases_to!(*expr => args@[0]));
                        assert(decreases_to!(*expr => args@[1]));
                    }
                    if let Some(c) = Self::try_eval_const(&args[0]) {
                        return self.extract_coeffs(&args[1], &scale.mul(&c), coeffs);
                    } else if let Some(c) = Self::try_eval_const(&args[1]) {
                        return self.extract_coeffs(&args[0], &scale.mul(&c), coeffs);
                    }
                }
                let id = self.get_or_create_var(&debug_text(expr));
                row_add(coeffs, id, scale, Ghost(self.next_var_id as int));
                Rational::zero()
            },
            _ => {
                let id = self.get_or_create_var(&debug_text(expr));
                row_add(coeffs, id, scale, Ghost(self.next_var_id as int));
                Rational::zero()
            },
        }
    }

    /// Adds the constraint `lhs − rhs  ⋈  0` of kind `kind` (0 to 4, see [`atom_kind`]) as a
    /// fresh basic slack over the linear form of `lhs − rhs`, bounded by minus its constant.
    #[verifier::loop_isolation(false)]
    fn add_constraint(&mut self, lhs: &Expr, rhs: &Expr, kind: u8, origin: &Expr)
        requires
            old(self).wf(),
            kind <= 4,
        ensures
            final(self).wf(),
            final(self).next_var_id > old(self).next_var_id,
            final(self).basic_vars@ == old(self).basic_vars@.push((final(self).next_var_id - 1) as usize),
            final(self).disequalities@.len() == old(self).disequalities@.len(),
            final(self).unknown == old(self).unknown,
            final(self).tableau@[final(self).next_var_id - 1] is Some,
            bounds_of_kind(final(self).lower_bounds@[final(self).next_var_id - 1],
                final(self).upper_bounds@[final(self).next_var_id - 1], kind as int),
    {
        let mut coeffs: Row = Vec::new();
        let c1 = self.extract_coeffs(lhs, &Rational::from_i64(1), &mut coeffs);
        let c2 = self.extract_coeffs(rhs, &Rational::from_i64(-1), &mut coeffs);
        let bound = c1.add(&c2).neg();
        let ghost n0 = self.next_var_id as int;
        let slack = self.create_slack_var();
        proof {
            lemma_row_wf_mono(coeffs@, n0, self.next_var_id as int);
        }
        self.tableau.set(slack, Some(coeffs));
        self.basic_vars.push(slack);
        if kind == 0 || kind == 1 {
            self.upper_bounds.set(slack, Some(Bound { val: bound, is_strict: kind == 1 }));
            self.upper_origins.set(slack, Some(origin.clone()));
        } else if kind == 2 || kind == 3 {
            self.lower_bounds.set(slack, Some(Bound { val: bound, is_strict: kind == 3 }));
            self.lower_origins.set(slack, Some(origin.clone()));
        } else {
            self.lower_bounds.set(slack, Some(Bound { val: bound.duplicate(), is_strict: false }));
            self.upper_bounds.set(slack, Some(Bound { val: bound, is_strict: false }));
            self.lower_origins.set(slack, Some(origin.clone()));
            self.upper_origins.set(slack, Some(origin.clone()));
        }
    }

    /// Asserts an atom: a relation adds a bounded slack; a negated relation adds the opposite
    /// one; a negated equality is kept as a disequality; anything else is ignored.
    pub fn assert_expr(&mut self, expr: &Expr)
        requires
            old(self).wf(),
        ensures
            final(self).wf(),
            final(self).unknown == old(self).unknown,
            0 <= atom_kind(expr@) <= 4 ==> final(self).basic_vars@
                == old(self).basic_vars@.push((final(self).next_var_id - 1) as usize)
                && final(self).disequalities@.len() == old(self).disequalities@.len()
                && bounds_of_kind(final(self).lower_bounds@[final(self).next_var_id - 1],
                    final(self).upper_bounds@[final(self).next_var_id - 1], atom_kind(expr@)),
            atom_kind(expr@) == 5 ==> final(self).disequalities@.len() == old(self).disequalities@.len() + 1
                && final(self).basic_vars@ == old(self).basic_vars@,
            atom_kind(expr@) == -1 ==> final(self).disequalities@ == old(self).disequalities@
                && final(self).basic_vars@ == old(self).basic_vars@
                && final(self).next_var_id == old(self).next_var_id,
    {
        proof {
            reveal_with_fuel(Expr::sv, 2);
        }
        match expr {
            Expr::Not(inner) => match &**inner {
                Expr::Le(l, r) => self.add_constraint(l, r, 3, expr),
                Expr::Ge(l, r) => self.add_constraint(l, r, 1, expr),
                Expr::Lt(l, r) => self.add_constraint(l, r, 2, expr),
                Expr::Gt(l, r) => self.add_constraint(l, r, 0, expr),
                Expr::Eq(l, r) => {
                    let mut coeffs: Row = Vec::new();
                    let c1 = self.extract_coeffs(l, &Rational::from_i64(1), &mut coeffs);
                    let c2 = self.extract_coeffs(r, &Rational::from_i64(-1), &mut coeffs);
                    let target = c1.add(&c2).neg();
                    self.disequalities.push((coeffs, target, expr.clone()));
                    proof {
                        let n = self.next_var_id as int;
                        assert forall|k: int| 0 <= k < self.disequalities@.len() implies
                            row_wf((#[trigger] self.disequalities@[k]).0@, n) && self.disequalities@[k].1.wf() by {
                            if k < old(self).disequalities@.len() {
                                assert(self.disequalities@[k] == old(self).disequalities@[k]);
                            }
                        }
                    }
                },
                _ => {},
            },
            Expr::Le(l, r) => self.add_constraint(l, r, 0, expr),
            Expr::Lt(l, r) => self.add_constraint(l, r, 1, expr),
            Expr::Ge(l, r) => self.add_constraint(l, r, 2, expr),
            Expr::Gt(l, r) => self.add_constraint(l, r, 3, expr),
            Expr::Eq(l, r) => self.add_constraint(l, r, 4, expr),
            _ => {},
        }
    }

    /// Runs the feasibility check. A feasible answer given without running out of budget
    /// leaves the value of every basic variable within its bounds.
    pub fn check(&mut self) -> (r: bool)
        requires
            old(self).wf(),
        ensures
            final(self).wf(),
            final(self).unknown && !old(self).unknown ==> r,
            r && !final(self).unknown ==> final(self).basic_bounds_hold(),
            r && !final(self).unknown ==> forall|v: usize| v < final(self).next_var_id ==> #[trigger] final(self).within_bounds(v),
            final(self).lower_bounds@ == old(self).lower_bounds@,
            final(self).upper_bounds@ == old(self).upper_bounds@,
    {
        self.check_feasibility()
    }

    /// The formulas behind the last conflict: the two bounds of a same-form conflict or the
    /// edges of a negative cycle; else a forced disequality with the bounds that pin its
    /// variables; else the violated bound of the conflict row with the bounds of its
    /// variables that block every repair.
    pub fn explain(&self) -> (r: Vec<Expr>)
        requires
            self.wf(),
        ensures
            self.bound_conflict@.len() > 0 ==> exprs_view(r@) == exprs_view(self.bound_conflict@),
            self.bound_conflict@.len() == 0 && self.disequality_conflict is Some ==>
                r@.len() == self.disequality_freeze_origins@.len() + 1
                && r@[0]@ == self.disequality_conflict->Some_0@,
            self.bound_conflict@.len() == 0 && self.disequality_conflict is None
                && self.last_conflict_var is None ==> r@.len() == 0,
    {
        if self.bound_conflict.len() > 0 {
            return clone_exprs(&self.bound_conflict);
        }
        if let Some(origin) = &self.disequality_conflict {
            let mut out: Vec<Expr> = Vec::new();
            out.push(origin.clone());
            let mut i: usize = 0;
            while i < self.disequality_freeze_origins.len()
                invariant
                    i <= self.disequality_freeze_origins@.len(),
                    out@.len() == i + 1,
                    out@[0]@ == origin@,
                decreases self.disequality_freeze_origins@.len() - i,
            {
                out.push(self.disequality_freeze_origins[i].clone());
                i += 1;
            }
            return out;
        }
        let mut conflict: Vec<Expr> = Vec::new();
        if let Some(x_i) = self.last_conflict_var {
            let val_i = &self.assignment[x_i];
            let is_lower_violated = match &self.lower_bounds[x_i] {
                Some(lb) => val_i.lt_rational(&lb.val) || (lb.is_strict && val_i.le_rational(&lb.val)),
                None => false,
            };
            if let Some(e) = self.origin_of(x_i, is_lower_violated) {
                conflict.push(e);
            }
            if let Some(row) = &self.tableau[x_i] {
                let mut q: usize = 0;
                while q < row.len()
                    invariant
                        self.wf(),
                        row_wf(row@, self.next_var_id as int),
                        q <= row@.len(),
                    decreases row@.len() - q,
                {
                    let pos = row[q].1.is_positive();
                    let needed_lower = if is_lower_violated { !pos } else { pos };
                    if let Some(e) = self.origin_of(row[q].0, needed_lower) {
                        conflict.push(e);
                    }
                    q += 1;
                }
            }
        }
        conflict
    }

    /// The value of a real variable in the current model, with δ replaced by
    /// [`LraSolver::model_delta`]; `None` for anything else or an unknown name.
    pub fn get_model_value(&self, expr: &Expr) -> (r: Option<ModelValue>)
        requires
            self.wf(),
        ensures
            r is Some ==> (expr@ matches SExpr::Var(_, t) && t == crate::ast::SType::Real),
            r matches Some(v) ==> v is Real,
            r is Some <==> (expr@ matches SExpr::Var(n, t) && t == crate::ast::SType::Real
                && exists|k: int| 0 <= k < self.var_map@.len() && #[trigger] self.var_map@[k].0@ == n),
    {
        if let Expr::Var(name, Type::Real) = expr {
            if let Some(id) = self.lookup_var(name) {
                let val = &self.assignment[id];
                let delta = self.model_delta();
                return Some(ModelValue::Real(val.c.add(&val.k.mul(&delta))));
            }
        }
        None
    }
}


/// How an atom constrains its linear form: 0 `≤`, 1 `<`, 2 `≥`, 3 `>`, 4 `=`, 5 `≠`, and -1
/// for anything the arithmetic solver does not take (a negation flips the relation).
pub open spec fn atom_kind(e: SExpr) -> int {
    match e {
        SExpr::Le(_, _) => 0,
        SExpr::Lt(_, _) => 1,
        SExpr::Ge(_, _) => 2,
        SExpr::Gt(_, _) => 3,
        SExpr::Eq(_, _) => 4,
        SExpr::Not(inner) => match *inner {
            SExpr::Le(_, _) => 3,
            SExpr::Ge(_, _) => 1,
            SExpr::Lt(_, _) => 2,
            SExpr::Gt(_, _) => 0,
            SExpr::Eq(_, _) => 5,
            _ => -1,
        },
        _ => -1,
    }
}

/// Whether the bounds of `slack` are those that an atom of kind `kind` sets.
pub open spec fn bounds_of_kind(lo: Option<Bound>, hi: Option<Bound>, kind: int) -> bool {
    &&& kind == 0 ==> lo is None && hi is Some && !hi->Some_0.is_strict
    &&& kind == 1 ==> lo is None && hi is Some && hi->Some_0.is_strict
    &&& kind == 2 ==> lo is Some && !lo->Some_0.is_strict && hi is None
    &&& kind == 3 ==> lo is Some && lo->Some_0.is_strict && hi is None
    &&& kind == 4 ==> lo is Some && !lo->Some_0.is_strict && hi is Some && !hi->Some_0.is_strict
        && q_eq(lo->Some_0.val@, hi->Some_0.val@)
}

proof fn lemma_row_wf_mono(row: Seq<(usize, Rational)>, n: int, m: int)
    requires
        row_wf(row, n),
        n <= m,
    ensures
        row_wf(row, m),
{
}

/// A quotient of a positive difference by a positive number is positive.
proof fn lemma_quotient_positive(a: (int, int), b: (int, int), d: (int, int), k: (int, int), q: (int, int))
    requires
        a.1 > 0,
        b.1 > 0,
        d.1 > 0,
        k.1 > 0,
        k.0 > 0,
        q.1 > 0,
        crate::num::q_lt(b, a),
        q_eq(d, crate::num::q_sub(a, b)),
        q_eq(q, (d.0 * k.1, d.1 * k.0)),
    ensures
        q.0 > 0,
{
    assert(a.1 * b.1 > 0) by (nonlinear_arith)
        requires a.1 > 0, b.1 > 0;
    assert(d.0 > 0) by (nonlinear_arith)
        requires d.0 * (a.1 * b.1) == (a.0 * b.1 - b.0 * a.1) * d.1, a.1 * b.1 > 0,
            a.0 * b.1 > b.0 * a.1, d.1 > 0;
    assert(q.0 > 0) by (nonlinear_arith)
        requires q.0 * (d.1 * k.0) == (d.0 * k.1) * q.1, d.0 > 0, d.1 > 0, k.0 > 0, k.1 > 0, q.1 > 0;
}

} // verus!
