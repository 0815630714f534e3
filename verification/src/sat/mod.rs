//! A CDCL SAT solver: two watched literals, first-UIP learning, activity-ordered branching
//! with phase saving, and periodic removal of learned clauses.
use vstd::prelude::*;

verus! {

broadcast use vstd::std_specs::vec::group_vec_axioms;

/// A literal: variable `v` is `v` when true and `-v` when false.
pub type Literal = i32;

/// The position of a clause in the clause store.
#[derive(Debug, Clone, Copy, PartialEq, Eq, Structural, Hash)]
pub struct ClauseIdx(pub usize);

/// A watcher: the clause and a literal whose truth makes a visit needless.
#[derive(Debug, Clone, Copy)]
pub struct Watch {
    pub blocker: Literal,
    pub idx: ClauseIdx,
}

/// The clause store: the literals of every clause, one after another, with per-clause
/// start, length, flags and learning statistics.
pub struct ClauseArena {
    pub data: Vec<Literal>,
    pub start: Vec<usize>,
    pub len: Vec<usize>,
    pub learned: Vec<bool>,
    pub deleted: Vec<bool>,
    /// How often the clause took part in a conflict analysis (learned clauses only).
    pub activity: Vec<u64>,
    /// The number of distinct decision levels among its literals when learned.
    pub lbd: Vec<usize>,
}

impl ClauseArena {
    /// The number of clauses.
    pub open spec fn count(&self) -> int {
        self.start@.len() as int
    }

    /// The literals of clause `c`.
    pub open spec fn lits(&self, c: int) -> Seq<Literal> {
        self.data@.subrange(self.start@[c] as int, self.start@[c] + self.len@[c])
    }

    pub open spec fn wf(&self) -> bool {
        let n = self.count();
        &&& self.len@.len() == n
        &&& self.learned@.len() == n
        &&& self.deleted@.len() == n
        &&& self.activity@.len() == n
        &&& self.lbd@.len() == n
        &&& forall|c: int| 0 <= c < n ==> (#[trigger] self.len@[c]) >= 2
            && self.start@[c] + self.len@[c] <= self.data@.len()
    }
}

/// The value of a variable or literal.
#[derive(Debug, Clone, Copy, PartialEq, Eq, Structural)]
pub enum Assignment {
    True,
    False,
    Unassigned,
}

/// The variable of a literal.
pub open spec fn lit_var(l: i32) -> int {
    if l >= 0 { l as int } else { -(l as int) }
}

/// Whether a literal can be negated.
pub open spec fn lit_ok(l: i32) -> bool {
    l != i32::MIN
}

/// Whether the assignment `a` makes one of the literals of `c` true.
pub open spec fn clause_true(a: Seq<Assignment>, c: Seq<Literal>) -> bool {
    exists|j: int| 0 <= j < c.len() && lit_ok(#[trigger] c[j]) && lit_var(c[j]) < a.len()
        && lit_value(a, c[j]) is True
}

/// The value of literal `l` under the assignment `a`.
pub open spec fn lit_value(a: Seq<Assignment>, l: i32) -> Assignment {
    let v = a[lit_var(l)];
    if v is Unassigned {
        Assignment::Unassigned
    } else if l > 0 {
        v
    } else if v is True {
        Assignment::False
    } else {
        Assignment::True
    }
}

/// A literal and its negation are unassigned together, and otherwise have opposite values.
pub proof fn law_negation_flips_value(a: Seq<Assignment>, l: i32)
    requires
        l != 0,
        lit_ok(l),
    ensures
        lit_value(a, l) is Unassigned <==> lit_value(a, (-l) as i32) is Unassigned,
        lit_value(a, l) is True <==> lit_value(a, (-l) as i32) is False,
        lit_value(a, l) is False <==> lit_value(a, (-l) as i32) is True,
{
    assert(lit_var((-l) as i32) == lit_var(l));
}

/// The number of unassigned variables.
pub open spec fn unassigned_count(s: Seq<Assignment>) -> nat
    decreases s.len(),
{
    if s.len() == 0 {
        0
    } else {
        unassigned_count(s.drop_last()) + if s.last() is Unassigned { 1nat } else { 0nat }
    }
}

proof fn lemma_unassigned_update(s: Seq<Assignment>, i: int, x: Assignment)
    requires
        0 <= i < s.len(),
    ensures
        unassigned_count(s.update(i, x)) == unassigned_count(s)
            - (if s[i] is Unassigned { 1int } else { 0int }) + (if x is Unassigned { 1int } else { 0int }),
    decreases s.len(),
{
    if i == s.len() - 1 {
        assert(s.update(i, x).drop_last() =~= s.drop_last());
    } else {
        lemma_unassigned_update(s.drop_last(), i, x);
        assert(s.update(i, x).drop_last() =~= s.drop_last().update(i, x));
    }
}

/// The variable of a literal.
fn var_of(lit: Literal) -> (r: usize)
    requires
        lit_ok(lit),
    ensures
        r as int == lit_var(lit),
{
    if lit >= 0 {
        lit as usize
    } else {
        (-lit) as usize
    }
}

/// The slot of a literal's watch list: `2v` when positive, `2v + 1` when negative.
fn lit_to_idx(lit: Literal) -> (r: usize)
    requires
        lit_ok(lit),
        lit_var(lit) < MAX_VARS,
    ensures
        r == spec_lit_idx(lit),
{
    if lit > 0 {
        (lit as usize) * 2
    } else {
        ((-lit) as usize) * 2 + 1
    }
}

/// The watch-list slot of a literal.
pub open spec fn spec_lit_idx(lit: i32) -> usize {
    if lit > 0 { (lit_var(lit) * 2) as usize } else { (lit_var(lit) * 2 + 1) as usize }
}

/// The larger of two activity entries: by score, then by variable.
fn entry_gt(a: (u64, usize), b: (u64, usize)) -> (r: bool)
    ensures
        r == (a.0 > b.0 || (a.0 == b.0 && a.1 > b.1)),
{
    a.0 > b.0 || (a.0 == b.0 && a.1 > b.1)
}

/// The literals of `v` in ascending order, each once.
fn sorted_distinct(v: &Vec<Literal>) -> (r: Vec<Literal>)
    ensures
        forall|i: int| 0 <= i < r@.len() ==> v@.contains(#[trigger] r@[i]),
        forall|x: Literal| v@.contains(x) ==> r@.contains(x),
        forall|i: int, j: int| 0 <= i < j < r@.len() ==> r@[i] < r@[j],
{
    let mut out: Vec<Literal> = Vec::new();
    let mut i: usize = 0;
    while i < v.len()
        invariant
            i <= v@.len(),
            forall|q: int| 0 <= q < out@.len() ==> v@.contains(#[trigger] out@[q]),
            forall|q: int| 0 <= q < i ==> out@.contains(#[trigger] v@[q]),
            forall|a: int, b: int| 0 <= a < b < out@.len() ==> out@[a] < out@[b],
        decreases v@.len() - i,
    {
        let x = v[i];
        let mut pos: usize = 0;
        while pos < out.len() && out[pos] < x
            invariant
                pos <= out@.len(),
                forall|q: int| 0 <= q < pos ==> out@[q] < x,
            decreases out@.len() - pos,
        {
            pos += 1;
        }
        assert(v@[i as int] == x);
        if pos < out.len() && out[pos] == x {
            assert(out@[pos as int] == x);
        } else {
            let ghost before = out@;
            out.insert(pos, x);
            assert(out@[pos as int] == x);
            assert forall|q: int| 0 <= q < out@.len() implies v@.contains(#[trigger] out@[q]) by {
                if q < pos {
                    assert(out@[q] == before[q]);
                } else if q > pos {
                    assert(out@[q] == before[q - 1]);
                }
            }
            assert forall|q: int| 0 <= q < i implies out@.contains(#[trigger] v@[q]) by {
                let k = choose|k: int| 0 <= k < before.len() && before[k] == v@[q];
                if k < pos {
                    assert(out@[k] == v@[q]);
                } else {
                    assert(out@[k + 1] == v@[q]);
                }
            }
            assert forall|a: int, b: int| 0 <= a < b < out@.len() implies out@[a] < out@[b] by {
                if b < pos {
                    assert(out@[a] == before[a] && out@[b] == before[b]);
                } else if b == pos {
                    assert(out@[a] == before[a]);
                } else if a < pos {
                    assert(out@[a] == before[a] && out@[b] == before[b - 1]);
                    assert(before[pos as int] > x);
                } else if a == pos {
                    assert(out@[b] == before[b - 1]);
                    assert(before[pos as int] > x);
                } else {
                    assert(out@[a] == before[a - 1] && out@[b] == before[b - 1]);
                }
            }
        }
        i += 1;
    }
    proof {
        assert forall|x: Literal| v@.contains(x) implies out@.contains(x) by {
            let k = choose|k: int| 0 <= k < v@.len() && v@[k] == x;
            assert(out@.contains(v@[k]));
        }
    }
    out
}

/// Scanning literals in order: `None` once a literal is true or a second is unassigned,
/// else `Some` of the unassigned literal seen so far (if any).
pub open spec fn unit_scan(lits: Seq<i32>, a: Seq<Assignment>) -> Option<Option<i32>>
    decreases lits.len(),
{
    if lits.len() == 0 {
        Some(None)
    } else {
        match unit_scan(lits.drop_last(), a) {
            None => None,
            Some(u) => {
                let l = lits.last();
                if lit_value(a, l) is True {
                    None
                } else if lit_value(a, l) is Unassigned {
                    if u is Some { None } else { Some(Some(l)) }
                } else {
                    Some(u)
                }
            },
        }
    }
}

/// Once the scan has stopped, it stays stopped.
pub proof fn lemma_unit_scan_none(lits: Seq<i32>, k: int)
    requires
        0 <= k <= lits.len(),
    ensures
        forall|a: Seq<Assignment>| #[trigger] unit_scan(lits.subrange(0, k), a) is None ==> unit_scan(lits, a) is None,
    decreases lits.len(),
{
    if k < lits.len() {
        lemma_unit_scan_none(lits.drop_last(), k);
        assert(lits.drop_last().subrange(0, k) =~= lits.subrange(0, k));
    } else {
        assert(lits.subrange(0, k) =~= lits);
    }
}

/// The one unassigned literal of a clause with no true literal and exactly one unassigned
/// place.
pub open spec fn unit_literal(lits: Seq<i32>, a: Seq<Assignment>) -> Option<i32> {
    match unit_scan(lits, a) {
        Some(u) => u,
        None => None,
    }
}

/// The CDCL solver.
pub struct CdclSolver {
    pub clauses: ClauseArena,
    pub watches: Vec<Vec<Watch>>,
    pub assignments: Vec<Assignment>,
    pub levels: Vec<usize>,
    pub reasons: Vec<Option<ClauseIdx>>,
    pub trail: Vec<Literal>,
    pub trail_lim: Vec<usize>,
    pub qhead: usize,
    pub current_level: usize,
    /// Branching activity of each variable, in fixed point.
    pub scores: Vec<u64>,
    pub phases: Vec<Assignment>,
    /// Activity entries `(score, var)`; the greatest is taken first.
    pub activity_queue: Vec<(u64, usize)>,
    pub score_inc: u64,
    /// The search ran out of its step budget.
    pub exhausted: bool,
    /// False once the clause set is known unsatisfiable.
    pub ok: bool,
    /// Every clause given to `add_clause`, as given; a model is checked against them before
    /// it is reported.
    pub input: Vec<Vec<Literal>>,
}

/// Variables are below this bound, which keeps every watch-list slot within `u32`.
pub const MAX_VARS: usize = 268435456;

/// The starting activity increment.
const INITIAL_SCORE_INC: u64 = 1048576;

/// The step budget of one search.
const SOLVE_STEPS: u64 = 18446744073709551615;

/// Above this activity every score is scaled down.
const RESCALE_LIMIT: u64 = 1152921504606846976;

/// A copy of a list of literals.
fn copy_literals(v: &Vec<Literal>) -> (r: Vec<Literal>)
    ensures
        r@ == v@,
{
    let mut out: Vec<Literal> = Vec::new();
    let mut i: usize = 0;
    while i < v.len()
        invariant
            i <= v@.len(),
            out@ == v@.subrange(0, i as int),
        decreases v@.len() - i,
    {
        out.push(v[i]);
        i += 1;
        assert(out@ == v@.subrange(0, i as int));
    }
    assert(v@.subrange(0, v@.len() as int) == v@);
    out
}

impl CdclSolver {
    /// The number of variables.
    pub open spec fn nv(&self) -> int {
        self.assignments@.len() as int
    }

    /// Whether `l` is a literal over the known variables.
    pub open spec fn known(&self, l: i32) -> bool {
        lit_ok(l) && lit_var(l) < self.nv()
    }

    /// The decision level of the variable of each literal of `s`.
    pub open spec fn level_seq(&self, s: Seq<Literal>) -> Seq<usize> {
        s.map_values(|l: Literal| self.levels@[lit_var(l)])
    }

    /// Whether every structural invariant holds.
    pub open spec fn wf(&self) -> bool {
        let nv = self.nv();
        let nc = self.clauses.count();
        &&& self.clauses.wf()
        &&& self.levels@.len() == nv
        &&& self.reasons@.len() == nv
        &&& self.scores@.len() == nv
        &&& self.phases@.len() == nv
        &&& self.watches@.len() == if nv == 0 { 0 } else { 2 * nv + 2 }
        &&& nv <= MAX_VARS
        &&& forall|k: int| 0 <= k < self.clauses.data@.len() ==> self.known(#[trigger] self.clauses.data@[k])
        &&& forall|s: int, w: int| 0 <= s < self.watches@.len() && 0 <= w < self.watches@[s]@.len() ==>
            (#[trigger] self.watches@[s]@[w]).idx.0 < nc && self.known(self.watches@[s]@[w].blocker)
        &&& forall|v: int| 0 <= v < nv && (#[trigger] self.reasons@[v]) is Some ==> self.reasons@[v]->Some_0.0 < nc
        &&& forall|i: int| 0 <= i < self.trail@.len() ==> self.known(#[trigger] self.trail@[i])
        &&& self.qhead <= self.trail@.len()
        &&& self.trail_lim@.len() == self.current_level
        &&& forall|q: int| 0 <= q < self.activity_queue@.len() ==> (#[trigger] self.activity_queue@[q]).1 < nv
    }

    pub fn new() -> (r: CdclSolver)
        ensures
            r.wf(),
            r.ok,
            r.nv() == 0,
    {
        CdclSolver {
            clauses: ClauseArena {
                data: Vec::new(),
                start: Vec::new(),
                len: Vec::new(),
                learned: Vec::new(),
                deleted: Vec::new(),
                activity: Vec::new(),
                lbd: Vec::new(),
            },
            watches: Vec::new(),
            assignments: Vec::new(),
            levels: Vec::new(),
            reasons: Vec::new(),
            trail: Vec::new(),
            trail_lim: Vec::new(),
            qhead: 0,
            current_level: 0,
            scores: Vec::new(),
            phases: Vec::new(),
            activity_queue: Vec::new(),
            score_inc: INITIAL_SCORE_INC,
            exhausted: false,
            ok: true,
            input: Vec::new(),
        }
    }

    /// Whether the last search ran out of its step budget.
    pub fn is_exhausted(&self) -> (r: bool)
        ensures
            r == self.exhausted,
    {
        self.exhausted
    }

    /// The value of a literal; `Unassigned` for a variable the solver has not seen.
    pub fn get_lit_value(&self, lit: Literal) -> (r: Assignment)
        requires
            lit_ok(lit),
        ensures
            lit_var(lit) < self.nv() ==> r == lit_value(self.assignments@, lit),
            lit_var(lit) >= self.nv() ==> r is Unassigned,
    {
        let var = var_of(lit);
        if var >= self.assignments.len() {
            return Assignment::Unassigned;
        }
        let a = self.assignments[var];
        match a {
            Assignment::Unassigned => Assignment::Unassigned,
            Assignment::True => if lit > 0 { Assignment::True } else { Assignment::False },
            Assignment::False => if lit > 0 { Assignment::False } else { Assignment::True },
        }
    }

    /// The clause store, trail and watches are as in `other`.
    pub open spec fn same_store(&self, other: &CdclSolver) -> bool {
        &&& self.clauses == other.clauses
        &&& self.watches@ == other.watches@
        &&& self.trail_lim@ == other.trail_lim@
        &&& self.current_level == other.current_level
    }

    /// Everything but the watch lists is as in `other`.
    pub open spec fn same_but_watches(&self, other: &CdclSolver) -> bool {
        &&& self.clauses == other.clauses
        &&& self.assignments == other.assignments
        &&& self.levels == other.levels
        &&& self.reasons == other.reasons
        &&& self.trail == other.trail
        &&& self.trail_lim == other.trail_lim
        &&& self.qhead == other.qhead
        &&& self.current_level == other.current_level
        &&& self.scores == other.scores
        &&& self.phases == other.phases
        &&& self.activity_queue == other.activity_queue
        &&& self.score_inc == other.score_inc
        &&& self.exhausted == other.exhausted
        &&& self.ok == other.ok
    }

    /// Makes `var` a known variable (unassigned, at level 0, with no activity).
    #[verifier::loop_isolation(false)]
    fn ensure_var(&mut self, var: usize)
        requires
            old(self).wf(),
            var < MAX_VARS,
        ensures
            final(self).exhausted == old(self).exhausted,
            final(self).wf(),
            final(self).nv() == if var < old(self).nv() { old(self).nv() } else { var + 1 },
            final(self).assignments@.subrange(0, old(self).nv()) == old(self).assignments@,
            forall|v: int| old(self).nv() <= v < final(self).nv() ==> (#[trigger] final(self).assignments@[v]) is Unassigned,
            final(self).clauses == old(self).clauses,
            final(self).trail@ == old(self).trail@,
            final(self).qhead == old(self).qhead,
            final(self).trail_lim@ == old(self).trail_lim@,
            final(self).current_level == old(self).current_level,
            final(self).ok == old(self).ok,
    {
        let old_len = self.assignments.len();
        if var < old_len {
            return;
        }
        while self.assignments.len() <= var
            invariant
                self.exhausted == old(self).exhausted,
                self.assignments@.len() == self.levels@.len(),
                self.assignments@.len() == self.reasons@.len(),
                self.assignments@.len() == self.scores@.len(),
                self.assignments@.len() == self.phases@.len(),
                old_len <= self.assignments@.len() <= var + 1,
                self.assignments@.subrange(0, old_len as int) == old(self).assignments@,
                forall|v: int| old_len <= v < self.assignments@.len() ==> (#[trigger] self.assignments@[v]) is Unassigned,
                forall|v: int| 0 <= v < old_len ==> self.reasons@[v] == old(self).reasons@[v],
                forall|v: int| old_len <= v < self.assignments@.len() ==> (#[trigger] self.reasons@[v]) is None,
                forall|q: int| 0 <= q < self.activity_queue@.len() ==> (#[trigger] self.activity_queue@[q]).1 < self.assignments@.len(),
                self.clauses == old(self).clauses,
                self.trail@ == old(self).trail@,
                self.watches@ == old(self).watches@,
                self.qhead == old(self).qhead,
                self.trail_lim@ == old(self).trail_lim@,
                self.current_level == old(self).current_level,
                self.ok == old(self).ok,
            decreases var + 1 - self.assignments@.len(),
        {
            let v = self.assignments.len();
            self.assignments.push(Assignment::Unassigned);
            self.levels.push(0);
            self.reasons.push(None);
            self.scores.push(0);
            self.phases.push(Assignment::False);
            self.activity_queue.push((0, v));
        }
        let target = (var + 1) * 2 + 2;
        let ghost mid = *self;
        while self.watches.len() < target
            invariant
                self.exhausted == old(self).exhausted,
                self.same_but_watches(&mid),
                self.watches@.len() <= target,
                old(self).watches@.len() <= self.watches@.len(),
                forall|s: int, w: int| 0 <= s < self.watches@.len() && 0 <= w < self.watches@[s]@.len() ==>
                    (#[trigger] self.watches@[s]@[w]) == old(self).watches@[s]@[w],
                forall|s: int| 0 <= s < self.watches@.len() ==> (#[trigger] self.watches@[s]@.len())
                    == if s < old(self).watches@.len() { old(self).watches@[s]@.len() } else { 0 },
            decreases target - self.watches@.len(),
        {
            self.watches.push(Vec::new());
        }
        proof {
            let nv = self.nv();
            assert forall|k: int| 0 <= k < self.clauses.data@.len() implies self.known(#[trigger] self.clauses.data@[k]) by {
                assert(self.clauses.data@[k] == old(self).clauses.data@[k]);
                assert(old(self).known(old(self).clauses.data@[k]));
            }
            assert forall|s: int, w: int| 0 <= s < self.watches@.len() && 0 <= w < self.watches@[s]@.len() implies
                (#[trigger] self.watches@[s]@[w]).idx.0 < self.clauses.count() && self.known(self.watches@[s]@[w].blocker) by {
                assert(self.watches@[s]@[w] == old(self).watches@[s]@[w]);
                assert(old(self).known(old(self).watches@[s]@[w].blocker));
            }
            assert forall|i: int| 0 <= i < self.trail@.len() implies self.known(#[trigger] self.trail@[i]) by {
                assert(self.trail@[i] == old(self).trail@[i]);
                assert(old(self).known(old(self).trail@[i]));
            }
            assert forall|v: int| 0 <= v < nv && (#[trigger] self.reasons@[v]) is Some implies
                self.reasons@[v]->Some_0.0 < self.clauses.count() by {
                if v < old_len {
                    assert(self.reasons@[v] == old(self).reasons@[v]);
                }
            }
        }
    }

    /// Assigns `lit` true at `level` with `reason`, unless the solver is already inconsistent;
    /// assigning a variable that holds the opposite value makes it inconsistent.
    fn assign(&mut self, lit: Literal, level: usize, reason: Option<ClauseIdx>)
        requires
            old(self).wf(),
            old(self).known(lit),
            reason matches Some(ci) ==> ci.0 < old(self).clauses.count(),
        ensures
            final(self).exhausted == old(self).exhausted,
            final(self).wf(),
            final(self).same_store(old(self)),
            final(self).nv() == old(self).nv(),
            final(self).qhead == old(self).qhead,
            old(self).ok && old(self).assignments@[lit_var(lit)] is Unassigned ==> {
                &&& final(self).trail@ == old(self).trail@.push(lit)
                &&& final(self).assignments@ == old(self).assignments@.update(lit_var(lit),
                    if lit > 0 { Assignment::True } else { Assignment::False })
                &&& unassigned_count(final(self).assignments@) + 1 == unassigned_count(old(self).assignments@)
                &&& final(self).ok
            },
            !(old(self).ok && old(self).assignments@[lit_var(lit)] is Unassigned) ==> {
                &&& final(self).trail@ == old(self).trail@
                &&& final(self).assignments@ == old(self).assignments@
                &&& final(self).ok == (old(self).ok && lit_value(old(self).assignments@, lit) is True)
            },
    {
        if !self.ok {
            return;
        }
        let var = var_of(lit);
        let val = if lit > 0 { Assignment::True } else { Assignment::False };
        let cur = self.assignments[var];
        if cur == Assignment::Unassigned {
            proof {
                lemma_unassigned_update(self.assignments@, var as int, val);
            }
            self.assignments.set(var, val);
            self.levels.set(var, level);
            self.reasons.set(var, reason);
            self.trail.push(lit);
            proof {
                assert forall|i: int| 0 <= i < self.trail@.len() implies self.known(#[trigger] self.trail@[i]) by {
                    if i < old(self).trail@.len() {
                        assert(self.trail@[i] == old(self).trail@[i]);
                    }
                }
            }
        } else if cur != val {
            self.ok = false;
        }
    }

    /// The number of distinct decision levels among `lits`.
    fn calculate_lbd(&self, lits: &Vec<Literal>) -> (r: usize)
        requires
            self.wf(),
            forall|k: int| 0 <= k < lits@.len() ==> self.known(#[trigger] lits@[k]),
        ensures
            r <= lits@.len(),
            r == self.level_seq(lits@).to_set().len(),
    {
        let mut lvls: Vec<usize> = Vec::new();
        let mut k: usize = 0;
        while k < lits.len()
            invariant
                k <= lits@.len(),
                lvls@.len() <= k,
                self.wf(),
                forall|q: int| 0 <= q < lits@.len() ==> self.known(#[trigger] lits@[q]),
                lvls@.no_duplicates(),
                lvls@.to_set() == self.level_seq(lits@.take(k as int)).to_set(),
            decreases lits@.len() - k,
        {
            let lvl = self.levels[var_of(lits[k])];
            let mut seen = false;
            let mut q: usize = 0;
            while q < lvls.len()
                invariant
                    q <= lvls@.len(),
                    seen <==> exists|p: int| 0 <= p < q && lvls@[p] == lvl,
                decreases lvls@.len() - q,
            {
                if lvls[q] == lvl {
                    seen = true;
                }
                q += 1;
            }
            let ghost before = lvls@;
            if !seen {
                lvls.push(lvl);
            }
            proof {
                let next = self.level_seq(lits@.take(k + 1));
                let prev = self.level_seq(lits@.take(k as int));
                assert(lits@.take(k + 1) == lits@.take(k as int).push(lits@[k as int]));
                assert(next == prev.push(lvl));
                assert(lvls@.to_set() == next.to_set()) by {
                    assert forall|v: usize| lvls@.to_set().contains(v) <==> next.to_set().contains(v) by {
                        if next.to_set().contains(v) {
                            let i = choose|i: int| 0 <= i < next.len() && next[i] == v;
                            if i < prev.len() {
                                assert(prev.to_set().contains(v));
                                assert(before.to_set().contains(v));
                                let j = choose|j: int| 0 <= j < before.len() && before[j] == v;
                                assert(lvls@[j] == v);
                            } else if !seen {
                                assert(lvls@[before.len() as int] == v);
                            } else {
                                let j = choose|j: int| 0 <= j < before.len() && before[j] == lvl;
                                assert(lvls@[j] == v);
                            }
                        }
                        if lvls@.to_set().contains(v) {
                            let j = choose|j: int| 0 <= j < lvls@.len() && lvls@[j] == v;
                            if j < before.len() {
                                assert(before.to_set().contains(v));
                                let i = choose|i: int| 0 <= i < prev.len() && prev[i] == v;
                                assert(next[i] == v);
                            } else {
                                assert(next[prev.len() as int] == v);
                            }
                        }
                    }
                }
            }
            k += 1;
        }
        proof {
            assert(lits@.take(lits@.len() as int) == lits@);
            lvls@.unique_seq_to_set();
        }
        lvls.len()
    }

    /// Adds `w` to watch list `slot`.
    fn add_watch(&mut self, slot: usize, w: Watch)
        requires
            old(self).wf(),
            slot < old(self).watches@.len(),
            w.idx.0 < old(self).clauses.count(),
            old(self).known(w.blocker),
        ensures
            final(self).wf(),
            final(self).same_but_watches(old(self)),
            final(self).watches@.len() == old(self).watches@.len(),
            final(self).watches@[slot as int]@ == old(self).watches@[slot as int]@.push(w),
            forall|s: int| 0 <= s < old(self).watches@.len() && s != slot ==> #[trigger] final(self).watches@[s] == old(self).watches@[s],
    {
        self.watches.push(Vec::new());
        let mut list = self.watches.swap_remove(slot);
        let ghost l0 = list@;
        list.push(w);
        self.watches.set(slot, list);
        proof {
            assert forall|s: int, q: int| 0 <= s < self.watches@.len() && 0 <= q < self.watches@[s]@.len() implies
                (#[trigger] self.watches@[s]@[q]).idx.0 < self.clauses.count() && self.known(self.watches@[s]@[q].blocker) by {
                if s != slot {
                    assert(self.watches@[s] == old(self).watches@[s]);
                } else if q < l0.len() {
                    assert(self.watches@[s]@[q] == old(self).watches@[s]@[q]);
                }
            }
        }
    }

    /// Adds a clause, recording it as given. Literals false at level 0 are dropped; a clause
    /// true at level 0, one with a literal beside its adjacent negation, or any clause once
    /// the solver is inconsistent, is ignored; an empty clause makes the solver
    /// inconsistent; a unit clause is assigned at level 0. Otherwise the clause is stored,
    /// watched on its first two literals, and its index returned.
    pub fn add_clause(&mut self, lits: Vec<Literal>) -> (r: Option<ClauseIdx>)
        requires
            old(self).wf(),
            forall|k: int| 0 <= k < lits@.len() ==> lit_ok(#[trigger] lits@[k]) && lit_var(lits@[k]) < MAX_VARS,
        ensures
            final(self).exhausted == old(self).exhausted,
            final(self).wf(),
            final(self).nv() >= old(self).nv(),
            final(self).current_level == old(self).current_level,
            final(self).trail_lim@ == old(self).trail_lim@,
            final(self).qhead == old(self).qhead,
            !old(self).ok ==> r is None && !final(self).ok,
            old(self).ok && lits@.len() == 0 ==> r is None && !final(self).ok,
            r matches Some(ci) ==> ci.0 == old(self).clauses.count() && final(self).clauses.count() == ci.0 + 1
                && final(self).ok,
            r is None ==> final(self).clauses.count() == old(self).clauses.count(),
            final(self).trail@.len() >= old(self).trail@.len(),
            old(self).ok ==> forall|k: int| 0 <= k < lits@.len() ==> lit_var(#[trigger] lits@[k]) < final(self).nv(),
            final(self).input@.len() == old(self).input@.len() + 1,
            final(self).input@.last()@ == lits@,
            forall|k: int| 0 <= k < old(self).input@.len() ==> #[trigger] final(self).input@[k] == old(self).input@[k],
    {
        let copy = copy_literals(&lits);
        let mut saved: Vec<Vec<Literal>> = Vec::new();
        std::mem::swap(&mut saved, &mut self.input);
        let r = self.add_clause_stored(lits);
        self.input = saved;
        self.input.push(copy);
        r
    }

    /// The work of `add_clause`, apart from recording the clause as given.
    #[verifier::loop_isolation(false)]
    fn add_clause_stored(&mut self, lits: Vec<Literal>) -> (r: Option<ClauseIdx>)
        requires
            old(self).wf(),
            forall|k: int| 0 <= k < lits@.len() ==> lit_ok(#[trigger] lits@[k]) && lit_var(lits@[k]) < MAX_VARS,
        ensures
            final(self).exhausted == old(self).exhausted,
            final(self).wf(),
            final(self).nv() >= old(self).nv(),
            final(self).current_level == old(self).current_level,
            final(self).trail_lim@ == old(self).trail_lim@,
            final(self).qhead == old(self).qhead,
            !old(self).ok ==> r is None && !final(self).ok,
            old(self).ok && lits@.len() == 0 ==> r is None && !final(self).ok,
            r matches Some(ci) ==> ci.0 == old(self).clauses.count() && final(self).clauses.count() == ci.0 + 1
                && final(self).ok,
            r is None ==> final(self).clauses.count() == old(self).clauses.count(),
            final(self).trail@.len() >= old(self).trail@.len(),
            old(self).ok ==> forall|k: int| 0 <= k < lits@.len() ==> lit_var(#[trigger] lits@[k]) < final(self).nv(),
    {
        if !self.ok {
            return None;
        }
        if lits.len() == 0 {
            self.ok = false;
            return None;
        }
        let mut k: usize = 0;
        while k < lits.len()
            invariant
                self.exhausted == old(self).exhausted,
                self.wf(),
                self.ok,
                self.nv() >= old(self).nv(),
                self.clauses == old(self).clauses,
                self.trail@ == old(self).trail@,
                self.qhead == old(self).qhead,
                self.trail_lim@ == old(self).trail_lim@,
                self.current_level == old(self).current_level,
                k <= lits@.len(),
                forall|q: int| 0 <= q < k ==> lit_var(#[trigger] lits@[q]) < self.nv(),
            decreases lits@.len() - k,
        {
            self.ensure_var(var_of(lits[k]));
            k += 1;
        }
        let mut cl = sorted_distinct(&lits);
        assert forall|q: int| 0 <= q < cl@.len() implies self.known(#[trigger] cl@[q]) by {
            let o = choose|o: int| 0 <= o < lits@.len() && lits@[o] == cl@[q];
            assert(lit_ok(lits@[o]));
            assert(lit_var(lits@[o]) < self.nv());
        }
        let mut i: usize = 0;
        while i < cl.len() && i + 1 < cl.len()
            invariant
                self.exhausted == old(self).exhausted,
                forall|q: int| 0 <= q < cl@.len() ==> self.known(#[trigger] cl@[q]),
            decreases cl@.len() - i,
        {
            if cl[i] == -cl[i + 1] {
                return None;
            }
            i += 1;
        }
        let mut i: usize = 0;
        while i < cl.len()
            invariant
                self.exhausted == old(self).exhausted,
                self.wf(),
                i <= cl@.len(),
                forall|q: int| 0 <= q < cl@.len() ==> self.known(#[trigger] cl@[q]),
            decreases cl@.len() - i,
        {
            let val = self.get_lit_value(cl[i]);
            let level = self.levels[var_of(cl[i])];
            if val == Assignment::True && level == 0 {
                return None;
            }
            if val == Assignment::False && level == 0 {
                let ghost before = cl@;
                cl.swap_remove(i);
                assert forall|q: int| 0 <= q < cl@.len() implies self.known(#[trigger] cl@[q]) by {
                    if q == i {
                        assert(cl@[q] == before[before.len() - 1]);
                    } else {
                        assert(cl@[q] == before[q]);
                    }
                }
                continue;
            }
            i += 1;
        }
        if cl.len() == 0 {
            self.ok = false;
            return None;
        }
        if cl.len() == 1 {
            self.assign(cl[0], 0, None);
            return None;
        }
        let learned = self.current_level > 0;
        let lbd = if learned { self.calculate_lbd(&cl) } else { 0 };
        let idx = ClauseIdx(self.clauses.start.len());
        let start = self.clauses.data.len();
        let lit0 = cl[0];
        let lit1 = cl[1];
        let n = cl.len();
        let ghost d0 = self.clauses.data@;
        let ghost c0 = cl@;
        self.clauses.data.append(&mut cl);
        assert forall|t: int| 0 <= t < self.clauses.data@.len() implies self.known(#[trigger] self.clauses.data@[t]) by {
            if t < d0.len() {
                assert(self.clauses.data@[t] == d0[t]);
            } else {
                assert(self.clauses.data@[t] == c0[t - d0.len()]);
            }
        }
        self.clauses.start.push(start);
        self.clauses.len.push(n);
        self.clauses.learned.push(learned);
        self.clauses.deleted.push(false);
        self.clauses.activity.push(0);
        self.clauses.lbd.push(lbd);
        assert(self.known(lit0) && self.known(lit1));
        let w0 = lit_to_idx(-lit0);
        let w1 = lit_to_idx(-lit1);
        self.add_watch(w0, Watch { blocker: lit1, idx });
        self.add_watch(w1, Watch { blocker: lit0, idx });
        Some(idx)
    }

    /// The `i`-th literal of clause `c`.
    fn clause_lit(&self, c: usize, i: usize) -> (r: Literal)
        requires
            self.wf(),
            c < self.clauses.count(),
            i < self.clauses.len@[c as int],
        ensures
            self.known(r),
            r == self.clauses.data@[self.clauses.start@[c as int] + i],
    {
        let _dl = self.clauses.data.len();
        assert(self.clauses.wf());
        assert(self.clauses.len@[c as int] >= 2);
        assert(self.clauses.start@[c as int] + self.clauses.len@[c as int] <= self.clauses.data@.len());
        self.clauses.data[self.clauses.start[c] + i]
    }

    /// Exchanges literals `i` and `j` of clause `c`.
    fn swap_lits(&mut self, c: usize, i: usize, j: usize)
        requires
            old(self).wf(),
            c < old(self).clauses.count(),
            i < old(self).clauses.len@[c as int],
            j < old(self).clauses.len@[c as int],
        ensures
            final(self).exhausted == old(self).exhausted,
            final(self).wf(),
            final(self).nv() == old(self).nv(),
            final(self).clauses.start@ == old(self).clauses.start@,
            final(self).clauses.len@ == old(self).clauses.len@,
            final(self).clauses.deleted@ == old(self).clauses.deleted@,
            final(self).clauses.learned@ == old(self).clauses.learned@,
            final(self).clauses.data@.len() == old(self).clauses.data@.len(),
            final(self).watches@ == old(self).watches@,
            final(self).assignments@ == old(self).assignments@,
            final(self).trail@ == old(self).trail@,
            final(self).qhead == old(self).qhead,
            final(self).trail_lim@ == old(self).trail_lim@,
            final(self).current_level == old(self).current_level,
            final(self).ok == old(self).ok,
            ({
                let a = old(self).clauses.start@[c as int] + i;
                let b = old(self).clauses.start@[c as int] + j;
                final(self).clauses.data@ == old(self).clauses.data@.update(a, old(self).clauses.data@[b])
                    .update(b, old(self).clauses.data@[a])
            }),
    {
        let _dl = self.clauses.data.len();
        assert(self.clauses.wf());
        assert(self.clauses.len@[c as int] >= 2);
        assert(self.clauses.start@[c as int] + self.clauses.len@[c as int] <= self.clauses.data@.len());
        let a = self.clauses.start[c] + i;
        let b = self.clauses.start[c] + j;
        let x = self.clauses.data[a];
        let y = self.clauses.data[b];
        self.clauses.data.set(a, y);
        self.clauses.data.set(b, x);
        assert forall|t: int| 0 <= t < self.clauses.data@.len() implies self.known(#[trigger] self.clauses.data@[t]) by {
            assert(old(self).known(old(self).clauses.data@[t]));
        }
    }

    /// Propagates the trail from `qhead` through the watched clauses; `Err` gives a clause
    /// whose literals are all false.
    #[verifier::loop_isolation(false)]
    pub fn unit_propagate(&mut self) -> (r: Result<(), ClauseIdx>)
        requires
            old(self).wf(),
        ensures
            final(self).exhausted == old(self).exhausted,
            final(self).wf(),
            final(self).nv() == old(self).nv(),
            final(self).clauses.count() == old(self).clauses.count(),
            final(self).current_level == old(self).current_level,
            final(self).trail_lim@ == old(self).trail_lim@,
            final(self).trail@.len() >= old(self).trail@.len(),
            r matches Err(ci) ==> ci.0 < final(self).clauses.count(),
            r is Ok ==> final(self).qhead == final(self).trail@.len(),
    {
        while self.qhead < self.trail.len()
            invariant
                self.exhausted == old(self).exhausted,
                self.wf(),
                self.nv() == old(self).nv(),
                self.clauses.count() == old(self).clauses.count(),
                self.current_level == old(self).current_level,
                self.trail_lim@ == old(self).trail_lim@,
                self.trail@.len() >= old(self).trail@.len(),
            decreases unassigned_count(self.assignments@), self.trail@.len() - self.qhead,
        {
            let lit = self.trail[self.qhead];
            self.qhead += 1;
            let lit_idx = lit_to_idx(lit);
            let ghost q0 = self.qhead;
            let ghost c0 = unassigned_count(self.assignments@);
            let ghost t0 = self.trail@.len();
            self.watches.push(Vec::new());
            let mut list = self.watches.swap_remove(lit_idx);
            let ghost nwl = self.watches@.len();
            let mut i: usize = 0;
            while i < list.len()
                invariant
                    self.exhausted == old(self).exhausted,
                    self.wf(),
                    self.nv() == old(self).nv(),
                    self.clauses.count() == old(self).clauses.count(),
                    self.current_level == old(self).current_level,
                    self.trail_lim@ == old(self).trail_lim@,
                    self.trail@.len() >= old(self).trail@.len(),
                    self.qhead <= self.trail@.len(),
                    self.qhead == q0,
                    lit_idx < self.watches@.len(),
                    unassigned_count(self.assignments@) < c0
                        || (unassigned_count(self.assignments@) == c0 && self.trail@.len() == t0),
                    forall|w: int| 0 <= w < list@.len() ==> (#[trigger] list@[w]).idx.0 < self.clauses.count()
                        && self.known(list@[w].blocker),
                    i <= list@.len(),
                decreases list@.len() - i,
            {
                let watch = list[i];
                if self.get_lit_value(watch.blocker) == Assignment::True {
                    i += 1;
                    continue;
                }
                let ci = watch.idx.0;
                if self.clauses.deleted[ci] {
                    list.swap_remove(i);
                    continue;
                }
                if self.clause_lit(ci, 0) == -lit {
                    self.swap_lits(ci, 0, 1);
                }
                let first_lit = self.clause_lit(ci, 0);
                if self.get_lit_value(first_lit) == Assignment::True {
                    list.set(i, Watch { blocker: first_lit, idx: watch.idx });
                    i += 1;
                    continue;
                }
                let mut found = false;
                let len = self.clauses.len[ci];
                let mut j: usize = 2;
                while j < len
                    invariant
                        self.exhausted == old(self).exhausted,
                        self.wf(),
                        len == self.clauses.len@[ci as int],
                        ci < self.clauses.count(),
                    decreases len - j,
                {
                    let cand = self.clause_lit(ci, j);
                    if self.get_lit_value(cand) != Assignment::False {
                        found = true;
                        break;
                    }
                    j += 1;
                }
                if found && j < len {
                    let cand = self.clause_lit(ci, j);
                    self.swap_lits(ci, 1, j);
                    let idx = lit_to_idx(-cand);
                    self.add_watch(idx, Watch { blocker: first_lit, idx: watch.idx });
                    list.swap_remove(i);
                    continue;
                }
                let v = self.get_lit_value(first_lit);
                if v == Assignment::False {
                    self.watches.set(lit_idx, list);
                    return Err(watch.idx);
                } else if v == Assignment::Unassigned {
                    self.assign(first_lit, self.current_level, Some(watch.idx));
                }
                i += 1;
            }
            self.watches.set(lit_idx, list);
        }
        Ok(())
    }

    /// Undoes every decision level above `level`, saving each undone value as the variable's
    /// phase.
    #[verifier::loop_isolation(false)]
    fn backtrack(&mut self, level: usize)
        requires
            old(self).wf(),
        ensures
            final(self).wf(),
            final(self).nv() == old(self).nv(),
            final(self).clauses == old(self).clauses,
            final(self).watches@ == old(self).watches@,
            final(self).current_level == if old(self).current_level > level { level } else { old(self).current_level },
            final(self).qhead == final(self).trail@.len(),
            final(self).ok == old(self).ok,
            final(self).exhausted == old(self).exhausted,
    {
        while self.current_level > level
            invariant
                self.wf(),
                self.nv() == old(self).nv(),
                self.clauses == old(self).clauses,
                self.watches@ == old(self).watches@,
                self.current_level >= level || self.current_level == old(self).current_level,
                old(self).current_level > level ==> self.current_level >= level,
                old(self).current_level <= level ==> self.current_level == old(self).current_level,
                self.ok == old(self).ok,
                self.exhausted == old(self).exhausted,
            decreases self.current_level,
        {
            let start = match self.trail_lim.pop() {
                Some(st) => st,
                None => 0,
            };
            let mut i = start;
            let ghost mid = *self;
            while i < self.trail.len()
                invariant
                    self.clauses == mid.clauses,
                    self.watches == mid.watches,
                    self.trail == mid.trail,
                    self.trail_lim == mid.trail_lim,
                    self.qhead == mid.qhead,
                    self.current_level == mid.current_level,
                    self.scores == mid.scores,
                    self.activity_queue == mid.activity_queue,
                    self.score_inc == mid.score_inc,
                    self.exhausted == mid.exhausted,
                    self.ok == mid.ok,
                    self.levels@.len() == self.nv(),
                    self.reasons@.len() == self.nv(),
                    self.phases@.len() == self.nv(),
                    self.nv() == old(self).nv(),
                    forall|t: int| 0 <= t < self.trail@.len() ==> self.known(#[trigger] self.trail@[t]),
                    forall|v: int| 0 <= v < self.nv() && (#[trigger] self.reasons@[v]) is Some ==>
                        self.reasons@[v]->Some_0.0 < self.clauses.count(),
                decreases self.trail@.len() - i,
            {
                let var = var_of(self.trail[i]);
                let cur = self.assignments[var];
                self.phases.set(var, cur);
                self.assignments.set(var, Assignment::Unassigned);
                self.reasons.set(var, None);
                self.levels.set(var, 0);
                i += 1;
            }
            self.trail.truncate(start);
            self.current_level -= 1;
            if self.qhead > self.trail.len() {
                self.qhead = self.trail.len();
            }
        }
        self.qhead = self.trail.len();
    }

    /// The only unassigned literal of clause `idx` when no literal is true, else `None`.
    fn check_unit_clause(&self, idx: ClauseIdx) -> (r: Option<Literal>)
        requires
            self.wf(),
            idx.0 < self.clauses.count(),
        ensures
            r matches Some(l) ==> self.known(l) && lit_value(self.assignments@, l) is Unassigned,
            r == unit_literal(self.clauses.lits(idx.0 as int), self.assignments@),
    {
        let len = self.clauses.len[idx.0];
        let ghost cl = self.clauses.lits(idx.0 as int);
        let mut unassigned: Option<Literal> = None;
        let mut i: usize = 0;
        while i < len
            invariant
                self.wf(),
                idx.0 < self.clauses.count(),
                len == self.clauses.len@[idx.0 as int],
                cl == self.clauses.lits(idx.0 as int),
                cl.len() == len,
                i <= len,
                unassigned matches Some(l) ==> self.known(l) && lit_value(self.assignments@, l) is Unassigned,
                unit_scan(cl.subrange(0, i as int), self.assignments@) == Some(unassigned),
            decreases len - i,
        {
            let lit = self.clause_lit(idx.0, i);
            proof {
                assert(self.clauses.wf());
                assert(self.clauses.start@[idx.0 as int] + self.clauses.len@[idx.0 as int] <= self.clauses.data@.len());
                assert(cl.subrange(0, i + 1).drop_last() =~= cl.subrange(0, i as int));
                assert(cl[i as int] == lit);
                assert(cl.subrange(0, i + 1).last() == lit);
                lemma_unit_scan_none(cl, i + 1);
            }
            match self.get_lit_value(lit) {
                Assignment::True => {
                    assert(unit_scan(cl.subrange(0, i + 1), self.assignments@) is None);
                    return None;
                },
                Assignment::Unassigned => {
                    if unassigned.is_some() {
                        assert(unit_scan(cl.subrange(0, i + 1), self.assignments@) is None);
                        return None;
                    }
                    unassigned = Some(lit);
                },
                Assignment::False => {},
            }
            i += 1;
        }
        proof {
            assert(cl.subrange(0, i as int) =~= cl);
        }
        unassigned
    }

    /// Removes, among the half of the learned clauses with the fewest levels (then the least
    /// activity), those with more than two levels that are no variable's reason.
    #[verifier::loop_isolation(false)]
    fn reduce_learned(&mut self)
        requires
            old(self).wf(),
        ensures
            final(self).wf(),
            final(self).nv() == old(self).nv(),
            final(self).clauses.count() == old(self).clauses.count(),
            final(self).clauses.data@ == old(self).clauses.data@,
            final(self).watches@ == old(self).watches@,
            final(self).assignments@ == old(self).assignments@,
            final(self).trail@ == old(self).trail@,
            final(self).qhead == old(self).qhead,
            final(self).trail_lim@ == old(self).trail_lim@,
            final(self).current_level == old(self).current_level,
            final(self).ok == old(self).ok,
            final(self).exhausted == old(self).exhausted,
    {
        let n = self.clauses.start.len();
        let mut learned: Vec<(usize, u64, usize)> = Vec::new();
        let mut c: usize = 0;
        while c < n
            invariant
                self.wf(),
                n == self.clauses.count(),
                c <= n,
                forall|q: int| 0 <= q < learned@.len() ==> (#[trigger] learned@[q]).0 < n,
            decreases n - c,
        {
            if self.clauses.learned[c] && !self.clauses.deleted[c] {
                learned.push((c, self.clauses.activity[c], self.clauses.lbd[c]));
            }
            c += 1;
        }
        // A stable insertion sort by (lbd, activity).
        let mut sorted: Vec<(usize, u64, usize)> = Vec::new();
        let mut k: usize = 0;
        while k < learned.len()
            invariant
                k <= learned@.len(),
                forall|q: int| 0 <= q < learned@.len() ==> (#[trigger] learned@[q]).0 < n,
                forall|q: int| 0 <= q < sorted@.len() ==> (#[trigger] sorted@[q]).0 < n,
            decreases learned@.len() - k,
        {
            let e = learned[k];
            let mut pos = sorted.len();
            while pos > 0 && (sorted[pos - 1].2 > e.2 || (sorted[pos - 1].2 == e.2 && sorted[pos - 1].1 > e.1))
                invariant
                    pos <= sorted@.len(),
                decreases pos,
            {
                pos -= 1;
            }
            sorted.insert(pos, e);
            assert forall|q: int| 0 <= q < sorted@.len() implies (#[trigger] sorted@[q]).0 < n by {
                assert(sorted@[q] == e || sorted@[q].0 < n);
            }
            k += 1;
        }
        let half = sorted.len() / 2;
        let mut t: usize = 0;
        while t < half
            invariant
                self.wf(),
                self.nv() == old(self).nv(),
                self.clauses.count() == old(self).clauses.count(),
                self.clauses.data@ == old(self).clauses.data@,
                self.clauses.start@ == old(self).clauses.start@,
                self.clauses.len@ == old(self).clauses.len@,
                self.watches@ == old(self).watches@,
                self.assignments@ == old(self).assignments@,
                self.trail@ == old(self).trail@,
                self.qhead == old(self).qhead,
                self.trail_lim@ == old(self).trail_lim@,
                self.current_level == old(self).current_level,
                self.ok == old(self).ok,
                self.exhausted == old(self).exhausted,
                n == self.clauses.count(),
                half <= sorted@.len(),
                forall|q: int| 0 <= q < sorted@.len() ==> (#[trigger] sorted@[q]).0 < n,
            decreases half - t,
        {
            let (idx, _, lbd) = sorted[t];
            if lbd > 2 {
                let var = var_of(self.clause_lit(idx, 0));
                let is_reason = match self.reasons[var] {
                    Some(r) => r.0 == idx,
                    None => false,
                };
                if !is_reason {
                    self.clauses.deleted.set(idx, true);
                }
            }
            t += 1;
        }
    }

    /// Takes the most active entry (by score, then variable) off the queue until one names an
    /// unassigned variable.
    #[verifier::loop_isolation(false)]
    fn pick_branching_variable(&mut self) -> (r: Option<usize>)
        requires
            old(self).wf(),
        ensures
            final(self).wf(),
            final(self).same_but_queue(old(self)),
            r matches Some(v) ==> v < final(self).nv() && final(self).assignments@[v as int] is Unassigned,
            r matches Some(v) ==> exists|q: int| 0 <= q < old(self).activity_queue@.len() && #[trigger] old(self).activity_queue@[q].1 == v,
            r is None ==> final(self).activity_queue@.len() == 0,
            r is None ==> forall|q: int| 0 <= q < old(self).activity_queue@.len() ==>
                !(final(self).assignments@[(#[trigger] old(self).activity_queue@[q]).1 as int] is Unassigned),
    {
        while self.activity_queue.len() > 0
            invariant
                self.wf(),
                self.same_but_queue(old(self)),
                forall|q: int| 0 <= q < old(self).activity_queue@.len() ==>
                    self.activity_queue@.contains(#[trigger] old(self).activity_queue@[q])
                    || !(self.assignments@[old(self).activity_queue@[q].1 as int] is Unassigned),
                forall|q: int| 0 <= q < self.activity_queue@.len() ==>
                    old(self).activity_queue@.contains(#[trigger] self.activity_queue@[q]),
            decreases self.activity_queue@.len(),
        {
            let ghost before = self.activity_queue@;
            let mut best: usize = 0;
            let mut q: usize = 1;
            while q < self.activity_queue.len()
                invariant
                    best < self.activity_queue@.len(),
                    1 <= q,
                decreases self.activity_queue@.len() - q,
            {
                if entry_gt(self.activity_queue[q], self.activity_queue[best]) {
                    best = q;
                }
                q += 1;
            }
            let (sc, var) = self.activity_queue.swap_remove(best);
            proof {
                let after = self.activity_queue@;
                assert(after =~= before.update(best as int, before.last()).drop_last());
                assert forall|k: int| 0 <= k < after.len() implies old(self).activity_queue@.contains(#[trigger] after[k]) by {
                    if k == best {
                        assert(after[k] == before[before.len() - 1]);
                    } else {
                        assert(after[k] == before[k]);
                    }
                }
                assert(old(self).activity_queue@.contains(before[best as int]));
            }
            if self.assignments[var] == Assignment::Unassigned {
                proof {
                    let j = choose|j: int| 0 <= j < old(self).activity_queue@.len() && old(self).activity_queue@[j] == before[best as int];
                    assert(old(self).activity_queue@[j].1 == var);
                }
                return Some(var);
            }
            proof {
                let after = self.activity_queue@;
                assert forall|q: int| 0 <= q < old(self).activity_queue@.len() implies
                    after.contains(#[trigger] old(self).activity_queue@[q])
                    || !(self.assignments@[old(self).activity_queue@[q].1 as int] is Unassigned) by {
                    let x = old(self).activity_queue@[q];
                    if before.contains(x) && x != (sc, var) {
                        let k = choose|k: int| 0 <= k < before.len() && before[k] == x;
                        if k == before.len() - 1 {
                            assert(after[best as int] == x);
                        } else {
                            assert(k != best);
                            assert(after[k] == x);
                        }
                    }
                }
            }
        }
        None
    }

    /// Everything but the activity queue is as in `other`.
    pub open spec fn same_but_queue(&self, other: &CdclSolver) -> bool {
        &&& self.clauses == other.clauses
        &&& self.watches@ == other.watches@
        &&& self.assignments == other.assignments
        &&& self.levels == other.levels
        &&& self.reasons == other.reasons
        &&& self.trail == other.trail
        &&& self.trail_lim == other.trail_lim
        &&& self.qhead == other.qhead
        &&& self.current_level == other.current_level
        &&& self.scores == other.scores
        &&& self.phases == other.phases
        &&& self.score_inc == other.score_inc
        &&& self.exhausted == other.exhausted
        &&& self.ok == other.ok
    }

    /// Grows the activity increment by a factor of 20/19, so later bumps weigh more.
    fn decay_scores(&mut self)
        ensures
            final(self).score_inc == old(self).score_inc.saturating_add(old(self).score_inc / 19),
            final(self).same_but_scores(old(self)),
            final(self).scores == old(self).scores,
            final(self).activity_queue == old(self).activity_queue,
    {
        self.score_inc = self.score_inc.saturating_add(self.score_inc / 19);
    }

    /// Everything but the activities is as in `other`.
    pub open spec fn same_but_scores(&self, other: &CdclSolver) -> bool {
        &&& self.clauses == other.clauses
        &&& self.watches@ == other.watches@
        &&& self.assignments == other.assignments
        &&& self.levels == other.levels
        &&& self.reasons == other.reasons
        &&& self.trail == other.trail
        &&& self.trail_lim == other.trail_lim
        &&& self.qhead == other.qhead
        &&& self.current_level == other.current_level
        &&& self.phases == other.phases
        &&& self.exhausted == other.exhausted
        &&& self.ok == other.ok
    }

    /// Raises the activity of `var` and queues it; past the limit every activity is scaled
    /// down by 2^40.
    #[verifier::loop_isolation(false)]
    fn bump_score(&mut self, var: usize)
        requires
            old(self).wf(),
            var < old(self).nv(),
        ensures
            final(self).wf(),
            final(self).same_but_scores(old(self)),
            ({
                let sc = old(self).scores@[var as int].saturating_add(old(self).score_inc);
                let raised = old(self).scores@.update(var as int, sc);
                &&& sc <= RESCALE_LIMIT ==> final(self).scores@ == raised && final(self).score_inc == old(self).score_inc
                &&& sc > RESCALE_LIMIT ==> final(self).scores@.len() == raised.len()
                    && forall|i: int| 0 <= i < raised.len() ==> #[trigger] final(self).scores@[i] == raised[i] >> 40
            }),
    {
        let sc = self.scores[var].saturating_add(self.score_inc);
        self.scores.set(var, sc);
        let ghost raised = self.scores@;
        self.activity_queue.push((sc, var));
        if sc > RESCALE_LIMIT {
            let n = self.scores.len();
            let mut i: usize = 0;
            while i < n
                invariant
                    self.wf(),
                    self.same_but_scores(old(self)),
                    n == self.nv(),
                    n == raised.len(),
                    self.scores@.len() == n,
                    forall|q: int| 0 <= q < i ==> #[trigger] self.scores@[q] == raised[q] >> 40,
                    forall|q: int| i <= q < n ==> #[trigger] self.scores@[q] == raised[q],
                decreases n - i,
            {
                let v = self.scores[i] >> 40;
                self.scores.set(i, v);
                self.activity_queue.push((v, i));
                i += 1;
            }
            self.score_inc = self.score_inc >> 40;
            if self.score_inc == 0 {
                self.score_inc = 1;
            }
        }
    }

    /// First-UIP conflict analysis from clause `conflict_idx`: bumps the activity of the
    /// clauses and variables it visits and returns the learned literals (the asserting one
    /// last) with the level to go back to: the highest level below the current one among
    /// them, or 0.
    #[verifier::loop_isolation(false)]
    fn analyze_conflict(&mut self, conflict_idx: ClauseIdx) -> (r: (Vec<Literal>, usize))
        requires
            old(self).wf(),
            conflict_idx.0 < old(self).clauses.count(),
        ensures
            final(self).wf(),
            final(self).nv() == old(self).nv(),
            final(self).clauses.count() == old(self).clauses.count(),
            final(self).clauses.data@ == old(self).clauses.data@,
            final(self).watches@ == old(self).watches@,
            final(self).assignments@ == old(self).assignments@,
            final(self).trail@ == old(self).trail@,
            final(self).trail_lim@ == old(self).trail_lim@,
            final(self).current_level == old(self).current_level,
            final(self).qhead == old(self).qhead,
            final(self).ok == old(self).ok,
            final(self).exhausted == old(self).exhausted,
            forall|k: int| 0 <= k < r.0@.len() ==> final(self).known(#[trigger] r.0@[k]),
            r.1 < final(self).current_level || r.1 == 0,
    {
        let nv = self.assignments.len();
        let mut learnt: Vec<Literal> = Vec::new();
        let mut seen: Vec<bool> = Vec::new();
        while seen.len() < nv
            invariant
                seen@.len() <= nv,
            decreases nv - seen@.len(),
        {
            seen.push(false);
        }
        let mut counter: usize = 0;
        let mut pos: usize = self.trail.len();
        let mut current: usize = conflict_idx.0;
        loop
            invariant
                self.wf(),
                self.nv() == old(self).nv(),
                nv == self.nv(),
                self.clauses.count() == old(self).clauses.count(),
                self.clauses.data@ == old(self).clauses.data@,
                self.clauses.start@ == old(self).clauses.start@,
                self.clauses.len@ == old(self).clauses.len@,
                self.watches@ == old(self).watches@,
                self.assignments@ == old(self).assignments@,
                self.levels@ == old(self).levels@,
                self.reasons@ == old(self).reasons@,
                self.trail@ == old(self).trail@,
                self.trail_lim@ == old(self).trail_lim@,
                self.current_level == old(self).current_level,
                self.qhead == old(self).qhead,
                self.ok == old(self).ok,
                self.exhausted == old(self).exhausted,
                seen@.len() == nv,
                pos <= self.trail@.len(),
                current < self.clauses.count(),
                forall|k: int| 0 <= k < learnt@.len() ==> self.known(#[trigger] learnt@[k]),
            decreases pos,
        {
            let act = self.clauses.activity[current].saturating_add(1);
            self.clauses.activity.set(current, act);
            let len = self.clauses.len[current];
            let mut i: usize = 0;
            while i < len
                invariant
                    self.wf(),
                    self.nv() == old(self).nv(),
                    nv == self.nv(),
                    self.clauses.count() == old(self).clauses.count(),
                    self.clauses.data@ == old(self).clauses.data@,
                    self.clauses.start@ == old(self).clauses.start@,
                    self.clauses.len@ == old(self).clauses.len@,
                    self.watches@ == old(self).watches@,
                    self.assignments@ == old(self).assignments@,
                    self.levels@ == old(self).levels@,
                    self.reasons@ == old(self).reasons@,
                    self.trail@ == old(self).trail@,
                    self.trail_lim@ == old(self).trail_lim@,
                    self.current_level == old(self).current_level,
                    self.qhead == old(self).qhead,
                    self.ok == old(self).ok,
                    self.exhausted == old(self).exhausted,
                    seen@.len() == nv,
                    current < self.clauses.count(),
                    len == self.clauses.len@[current as int],
                    forall|k: int| 0 <= k < learnt@.len() ==> self.known(#[trigger] learnt@[k]),
                decreases len - i,
            {
                let lit = self.clause_lit(current, i);
                let var = var_of(lit);
                if !seen[var] && self.levels[var] > 0 {
                    seen.set(var, true);
                    self.bump_score(var);
                    if self.levels[var] >= self.current_level {
                        counter = counter.saturating_add(1);
                    } else {
                        learnt.push(lit);
                    }
                }
                i += 1;
            }
            let ghost p0 = pos;
            while pos > 0 && !seen[var_of(self.trail[pos - 1])]
                invariant
                    pos <= p0,
                    pos <= self.trail@.len(),
                    seen@.len() == nv,
                    forall|t: int| 0 <= t < self.trail@.len() ==> self.known(#[trigger] self.trail@[t]),
                    nv == self.nv(),
                decreases pos,
            {
                pos -= 1;
            }
            if counter <= 1 || pos == 0 {
                break;
            }
            let last_var = var_of(self.trail[pos - 1]);
            seen.set(last_var, false);
            counter -= 1;
            match self.reasons[last_var] {
                Some(rc) => {
                    current = rc.0;
                },
                None => {
                    break;
                },
            }
            pos -= 1;
        }
        if pos > 0 {
            let l = self.trail[pos - 1];
            learnt.push(-l);
        }
        let mut bt: usize = 0;
        let mut k: usize = 0;
        while k < learnt.len()
            invariant
                self.wf(),
                k <= learnt@.len(),
                forall|q: int| 0 <= q < learnt@.len() ==> self.known(#[trigger] learnt@[q]),
                bt < self.current_level || bt == 0,
            decreases learnt@.len() - k,
        {
            let lvl = self.levels[var_of(learnt[k])];
            if lvl < self.current_level && lvl > bt {
                bt = lvl;
            }
            k += 1;
        }
        (learnt, bt)
    }

    /// Searches for a satisfying assignment: propagate; on a conflict at level 0 the clause
    /// set is unsatisfiable, otherwise learn a clause and go back; with no conflict, decide the
    /// most active unassigned variable by its saved phase, until none is left. Learned clauses
    /// are thinned every 1000 conflicts. `false` is unsatisfiable unless
    /// [`CdclSolver::is_exhausted`] reports that the step budget ran out.
    #[verifier::loop_isolation(false)]
    /// Whether the current assignment makes a literal of every input clause true.
    fn satisfies_input(&self) -> (r: bool)
        ensures
            r ==> forall|k: int| 0 <= k < self.input@.len() ==> clause_true(self.assignments@, #[trigger] self.input@[k]@),
    {
        let mut k: usize = 0;
        while k < self.input.len()
            invariant
                k <= self.input@.len(),
                forall|q: int| 0 <= q < k ==> clause_true(self.assignments@, #[trigger] self.input@[q]@),
            decreases self.input@.len() - k,
        {
            let c = &self.input[k];
            let mut found = false;
            let mut j: usize = 0;
            while j < c.len() && !found
                invariant
                    j <= c@.len(),
                    c == &self.input@[k as int],
                    found ==> clause_true(self.assignments@, c@),
                decreases c@.len() - j,
            {
                let l = c[j];
                if l != i32::MIN && self.get_lit_value(l) == Assignment::True {
                    found = true;
                }
                j += 1;
            }
            if !found {
                return false;
            }
            k += 1;
        }
        true
    }

    pub fn solve(&mut self) -> (r: bool)
        requires
            old(self).wf(),
        ensures
            final(self).wf(),
            final(self).nv() >= old(self).nv(),
            !old(self).ok ==> !r,
            r ==> final(self).ok && !final(self).exhausted,
            !r ==> !final(self).ok || final(self).exhausted,
            final(self).input@ == old(self).input@,
            r ==> forall|k: int| 0 <= k < final(self).input@.len() ==> clause_true(final(self).assignments@, #[trigger] final(self).input@[k]@),
    {
        let mut saved: Vec<Vec<Literal>> = Vec::new();
        std::mem::swap(&mut saved, &mut self.input);
        let found = self.search();
        self.input = saved;
        if found && !self.satisfies_input() {
            self.exhausted = true;
            return false;
        }
        found
    }

    /// The search behind `solve`.
    fn search(&mut self) -> (r: bool)
        requires
            old(self).wf(),
        ensures
            final(self).wf(),
            final(self).nv() >= old(self).nv(),
            !old(self).ok ==> !r,
            r ==> final(self).ok && !final(self).exhausted,
            !r ==> !final(self).ok || final(self).exhausted,
    {
        self.exhausted = false;
        if !self.ok {
            return false;
        }
        let mut conflict_count: u64 = 0;
        if self.unit_propagate().is_err() {
            self.ok = false;
            return false;
        }
        let mut fuel: u64 = SOLVE_STEPS;
        loop
            invariant
                old(self).ok,
                self.wf(),
                self.nv() >= old(self).nv(),
                !self.exhausted,
            decreases fuel,
        {
            if fuel == 0 {
                self.exhausted = true;
                return false;
            }
            fuel -= 1;
            match self.unit_propagate() {
                Err(conflict) => {
                    conflict_count = conflict_count.wrapping_add(1);
                    if self.current_level == 0 {
                        self.ok = false;
                        return false;
                    }
                    if conflict_count % 1000 == 0 {
                        self.reduce_learned();
                    }
                    let (learnt, level) = self.analyze_conflict(conflict);
                    self.decay_scores();
                    self.backtrack(level);
                    if let Some(li) = self.add_clause_stored(learnt) {
                        if let Some(unit) = self.check_unit_clause(li) {
                            let lvl = self.current_level;
                            self.assign(unit, lvl, Some(li));
                        }
                    }
                },
                Ok(()) => {
                    match self.pick_branching_variable() {
                        Some(var) => {
                            if self.current_level >= usize::MAX - 1 || var >= MAX_VARS {
                                self.exhausted = true;
                                return false;
                            }
                            self.current_level += 1;
                            let tl = self.trail.len();
                            self.trail_lim.push(tl);
                            let lit: Literal = if self.phases[var] == Assignment::True {
                                var as i32
                            } else {
                                -(var as i32)
                            };
                            let lvl = self.current_level;
                            self.assign(lit, lvl, None);
                        },
                        None => {
                            if !self.ok {
                                return false;
                            }
                            return true;
                        },
                    }
                },
            }
        }
    }
}

} // verus!
