//! An exact, deterministic SMT solver: a CDCL SAT core driving theory solvers.
pub mod num;
pub mod parser;
pub mod ast;
pub mod collections;
pub mod parity;
pub mod proofs;
pub mod render;
pub mod sat;
pub mod meaning;
pub mod tactic;
pub mod theory;

use vstd::prelude::*;
use crate::ast::{Expr, SExpr, Type, SType, ModelValue, exprs_view, lemma_exprs_view, clone_vars, vars_view};
use crate::collections::ExprMap;
use crate::num::{Integer, Rational, q_eq};
use crate::proofs::{Proof, ProofStep};
use crate::sat::{CdclSolver, Assignment, MAX_VARS, clause_true, lit_var, lit_value};
use crate::tactic::{Simplifier, SolveEqs, TacticEngine};
use crate::theory::array::ArraySolver;
use crate::theory::bv::{BitBlaster, vars_below};
use crate::theory::euf::EufSolver;
use crate::theory::fp::FpSolver;
use crate::theory::lra::LraSolver;
use crate::theory::nla::NlaSolver;
use crate::theory::quantifier::{QuantifierSolver, model_wf, model_get};
use crate::theory::string::StringSolver;

verus! {

broadcast use vstd::std_specs::vec::group_vec_axioms;

/// The literals of a list of clauses, each as given.
pub open spec fn input_clauses(v: Seq<Vec<i32>>) -> Seq<Seq<i32>> {
    Seq::new(v.len(), |i: int| v[i]@)
}

/// The negation of a literal.
pub open spec fn neg_lit(l: i32) -> i32 {
    (-l) as i32
}

/// The negations of the literals of `s`, in order.
pub open spec fn negated_lits(s: Seq<i32>) -> Seq<i32>
    decreases s.len(),
{
    if s.len() == 0 {
        Seq::empty()
    } else {
        negated_lits(s.drop_last()).push(neg_lit(s.last()))
    }
}

/// The answer to a satisfiability check.
#[derive(Debug, Clone, Copy, PartialEq, Eq, Structural)]
pub enum SolverResult {
    Sat,
    Unsat,
    Unknown,
}

/// The declarations denoted by a symbol table: later entries shadow earlier ones.
pub open spec fn symbols_map(s: Seq<(String, Type)>) -> Map<Seq<char>, SType>
    decreases s.len(),
{
    if s.len() == 0 {
        Map::empty()
    } else {
        symbols_map(s.drop_last()).insert(s.last().0@, s.last().1@)
    }
}

/// A term with the declared sort given to every symbol, in the positions that
/// `resolve_expr_types` visits; an undeclared symbol keeps the sort it carries.
pub open spec fn spec_resolve(e: SExpr, syms: Map<Seq<char>, SType>) -> SExpr
    decreases e,
{
    match e {
        SExpr::Var(n, t) => SExpr::Var(n, if syms.contains_key(n) { syms[n] } else { t }),
        SExpr::And(a) => SExpr::And(seq_resolve(a, syms)),
        SExpr::Or(a) => SExpr::Or(seq_resolve(a, syms)),
        SExpr::Add(a) => SExpr::Add(seq_resolve(a, syms)),
        SExpr::Sub(a) => SExpr::Sub(seq_resolve(a, syms)),
        SExpr::Mul(a) => SExpr::Mul(seq_resolve(a, syms)),
        SExpr::StrConcat(a) => SExpr::StrConcat(seq_resolve(a, syms)),
        SExpr::App(f, a) => SExpr::App(f, seq_resolve(a, syms)),
        SExpr::Not(a) => SExpr::Not(Box::new(spec_resolve(*a, syms))),
        SExpr::BvNot(a) => SExpr::BvNot(Box::new(spec_resolve(*a, syms))),
        SExpr::StrLen(a) => SExpr::StrLen(Box::new(spec_resolve(*a, syms))),
        SExpr::BvExtract(h, l, a) => SExpr::BvExtract(h, l, Box::new(spec_resolve(*a, syms))),
        SExpr::ForAll(v, b) => SExpr::ForAll(v, Box::new(spec_resolve(*b, syms))),
        SExpr::Exists(v, b) => SExpr::Exists(v, Box::new(spec_resolve(*b, syms))),
        SExpr::Ite(c, t, f) => SExpr::Ite(
            Box::new(spec_resolve(*c, syms)),
            Box::new(spec_resolve(*t, syms)),
            Box::new(spec_resolve(*f, syms)),
        ),
        SExpr::Store(c, t, f) => SExpr::Store(
            Box::new(spec_resolve(*c, syms)),
            Box::new(spec_resolve(*t, syms)),
            Box::new(spec_resolve(*f, syms)),
        ),
        SExpr::Implies(a, b) => SExpr::Implies(Box::new(spec_resolve(*a, syms)), Box::new(spec_resolve(*b, syms))),
        SExpr::Eq(a, b) => SExpr::Eq(Box::new(spec_resolve(*a, syms)), Box::new(spec_resolve(*b, syms))),
        SExpr::Lt(a, b) => SExpr::Lt(Box::new(spec_resolve(*a, syms)), Box::new(spec_resolve(*b, syms))),
        SExpr::Le(a, b) => SExpr::Le(Box::new(spec_resolve(*a, syms)), Box::new(spec_resolve(*b, syms))),
        SExpr::Gt(a, b) => SExpr::Gt(Box::new(spec_resolve(*a, syms)), Box::new(spec_resolve(*b, syms))),
        SExpr::Ge(a, b) => SExpr::Ge(Box::new(spec_resolve(*a, syms)), Box::new(spec_resolve(*b, syms))),
        SExpr::Div(a, b) => SExpr::Div(Box::new(spec_resolve(*a, syms)), Box::new(spec_resolve(*b, syms))),
        SExpr::BvAdd(a, b) => SExpr::BvAdd(Box::new(spec_resolve(*a, syms)), Box::new(spec_resolve(*b, syms))),
        SExpr::BvSub(a, b) => SExpr::BvSub(Box::new(spec_resolve(*a, syms)), Box::new(spec_resolve(*b, syms))),
        SExpr::BvMul(a, b) => SExpr::BvMul(Box::new(spec_resolve(*a, syms)), Box::new(spec_resolve(*b, syms))),
        SExpr::BvAnd(a, b) => SExpr::BvAnd(Box::new(spec_resolve(*a, syms)), Box::new(spec_resolve(*b, syms))),
        SExpr::BvOr(a, b) => SExpr::BvOr(Box::new(spec_resolve(*a, syms)), Box::new(spec_resolve(*b, syms))),
        SExpr::BvXor(a, b) => SExpr::BvXor(Box::new(spec_resolve(*a, syms)), Box::new(spec_resolve(*b, syms))),
        SExpr::BvShl(a, b) => SExpr::BvShl(Box::new(spec_resolve(*a, syms)), Box::new(spec_resolve(*b, syms))),
        SExpr::BvLshr(a, b) => SExpr::BvLshr(Box::new(spec_resolve(*a, syms)), Box::new(spec_resolve(*b, syms))),
        SExpr::BvAshr(a, b) => SExpr::BvAshr(Box::new(spec_resolve(*a, syms)), Box::new(spec_resolve(*b, syms))),
        SExpr::BvUle(a, b) => SExpr::BvUle(Box::new(spec_resolve(*a, syms)), Box::new(spec_resolve(*b, syms))),
        SExpr::BvUlt(a, b) => SExpr::BvUlt(Box::new(spec_resolve(*a, syms)), Box::new(spec_resolve(*b, syms))),
        SExpr::BvSle(a, b) => SExpr::BvSle(Box::new(spec_resolve(*a, syms)), Box::new(spec_resolve(*b, syms))),
        SExpr::BvSlt(a, b) => SExpr::BvSlt(Box::new(spec_resolve(*a, syms)), Box::new(spec_resolve(*b, syms))),
        SExpr::BvConcat(a, b) => SExpr::BvConcat(Box::new(spec_resolve(*a, syms)), Box::new(spec_resolve(*b, syms))),
        SExpr::Select(a, b) => SExpr::Select(Box::new(spec_resolve(*a, syms)), Box::new(spec_resolve(*b, syms))),
        SExpr::StrContains(a, b) => SExpr::StrContains(Box::new(spec_resolve(*a, syms)), Box::new(spec_resolve(*b, syms))),
        _ => e,
    }
}

/// Element-wise [`spec_resolve`].
pub open spec fn seq_resolve(s: Seq<SExpr>, syms: Map<Seq<char>, SType>) -> Seq<SExpr>
    decreases s,
{
    if s.len() == 0 {
        seq![]
    } else {
        seq_resolve(s.drop_last(), syms).push(spec_resolve(s.last(), syms))
    }
}

pub proof fn lemma_seq_resolve(s: Seq<SExpr>, syms: Map<Seq<char>, SType>)
    ensures
        seq_resolve(s, syms).len() == s.len(),
        forall|i: int| 0 <= i < s.len() ==> #[trigger] seq_resolve(s, syms)[i] == spec_resolve(s[i], syms),
    decreases s.len(),
{
    if s.len() > 0 {
        lemma_seq_resolve(s.drop_last(), syms);
    }
}

/// The sort that `infer_type` finds for a term: a symbol's own sort unless it is unknown, then
/// its declaration; an application's declared result sort; else the term's own sort, where it
/// is known.
pub open spec fn spec_infer_type(e: SExpr, syms: Map<Seq<char>, SType>) -> Option<SType> {
    match e {
        SExpr::Var(n, t) => if !(t is Unknown) {
            Some(t)
        } else if syms.contains_key(n) {
            Some(syms[n])
        } else {
            None
        },
        SExpr::App(n, _) => if syms.contains_key(n) {
            match syms[n] {
                SType::Fn(_, ret) => Some(*ret),
                t => Some(t),
            }
        } else {
            None
        },
        _ => if crate::ast::spec_get_type(e) is Unknown { None } else { Some(crate::ast::spec_get_type(e)) },
    }
}

/// Whether a term is a bit-vector operation (its own form, not its sort).
pub open spec fn bv_form(e: SExpr) -> bool {
    ||| e is BvConst
    ||| e is BvAdd
    ||| e is BvSub
    ||| e is BvMul
    ||| e is BvAnd
    ||| e is BvOr
    ||| e is BvXor
    ||| e is BvNot
    ||| e is BvShl
    ||| e is BvLshr
    ||| e is BvAshr
    ||| e is BvExtract
    ||| e is BvConcat
}

/// The largest number of check rounds (SAT search, theory checks, lemmas).
pub const CHECK_ROUNDS: u64 = 18446744073709551615;

/// The solver: a SAT solver over the Boolean structure of the assertions (Tseitin encoding,
/// bit-blasting for bit-vector equalities), the theory solvers, and the assertion stack.
pub struct Rz3Solver {
    pub sat_solver: CdclSolver,
    /// The SAT variable of each atom and Tseitin node.
    pub expr_to_lit: ExprMap<i32>,
    /// The atom of each variable, in the order the variables were made.
    pub lit_to_expr: Vec<(i32, Expr)>,
    /// The variables of the bits of bit-vector symbols and terms.
    pub blaster: BitBlaster,
    pub next_sat_var: i32,
    /// More variables were needed than the SAT solver takes.
    pub out_of_vars: bool,
    /// Declared symbols and their sorts (a later declaration replaces an earlier one).
    pub symbol_table: Vec<(String, Type)>,
    pub tactic_engine: TacticEngine,
    pub lra: LraSolver,
    pub euf: EufSolver,
    pub array: ArraySolver,
    pub quant: QuantifierSolver,
    pub string: StringSolver,
    pub nla: NlaSolver,
    pub fp: FpSolver,
    pub proof_gen: Proof,
    /// Every assertion, in order; `pop` rebuilds the solver from a prefix of it.
    pub assertion_history: Vec<Expr>,
    /// The length of the history at each open `push`.
    pub scope_stack: Vec<usize>,
}

impl Rz3Solver {
    /// The declarations in force.
    pub open spec fn symbols(&self) -> Map<Seq<char>, SType> {
        symbols_map(self.symbol_table@)
    }

    /// The assertions in force, as values.
    pub open spec fn history(&self) -> Seq<SExpr> {
        exprs_view(self.assertion_history@)
    }

    /// The internal invariant: the SAT solver's, the theory solvers' and the bit-blaster's,
    /// every variable below `next_sat_var`, and a scope stack that never passes the history.
    pub open spec fn wf(&self) -> bool {
        &&& self.sat_solver.wf()
        &&& 1 <= self.next_sat_var <= MAX_VARS
        &&& self.expr_to_lit.wf()
        &&& forall|k: int| 0 <= k < self.expr_to_lit.vals@.len() ==> 1 <= #[trigger] self.expr_to_lit.vals@[k] < self.next_sat_var
        &&& self.blaster.wf(self.next_sat_var)
        &&& self.lra.wf()
        &&& self.euf.wf()
        &&& self.array.wf()
        &&& self.quant.wf()
        &&& self.string.wf()
        &&& forall|k: int| 0 <= k < self.scope_stack@.len() ==> #[trigger] self.scope_stack@[k] <= self.assertion_history@.len()
        &&& forall|i: int, j: int| 0 <= i < j < self.scope_stack@.len() ==> self.scope_stack@[i] <= self.scope_stack@[j]
    }

    /// The assertion stack and the declarations are those of `other`.
    pub open spec fn same_context(&self, other: &Rz3Solver) -> bool {
        &&& self.assertion_history@ == other.assertion_history@
        &&& self.scope_stack@ == other.scope_stack@
        &&& self.symbol_table@ == other.symbol_table@
    }

    fn default_tactics() -> (r: TacticEngine)
        ensures
            r.tactics@.len() == 2,
    {
        let mut te = TacticEngine::new();
        te.add_tactic(Box::new(Simplifier));
        te.add_tactic(Box::new(SolveEqs));
        te
    }

    /// An empty solver.
    pub fn new() -> (r: Rz3Solver)
        ensures
            r.wf(),
            r.assertion_history@.len() == 0,
            r.scope_stack@.len() == 0,
            r.symbols() == Map::<Seq<char>, SType>::empty(),
    {
        Rz3Solver {
            sat_solver: CdclSolver::new(),
            expr_to_lit: ExprMap::new(),
            lit_to_expr: Vec::new(),
            blaster: BitBlaster::new(),
            next_sat_var: 1,
            out_of_vars: false,
            symbol_table: Vec::new(),
            tactic_engine: Self::default_tactics(),
            lra: LraSolver::new(),
            euf: EufSolver::new(),
            array: ArraySolver::new(),
            quant: QuantifierSolver::new(),
            string: StringSolver::new(),
            nla: NlaSolver::new(),
            fp: FpSolver::new(),
            proof_gen: Proof::new(),
            assertion_history: Vec::new(),
            scope_stack: Vec::new(),
        }
    }

    /// Opens a scope: the current length of the assertion history is saved.
    pub fn push(&mut self)
        requires
            old(self).wf(),
        ensures
            final(self).wf(),
            final(self).assertion_history@ == old(self).assertion_history@,
            final(self).scope_stack@ == old(self).scope_stack@.push(old(self).assertion_history@.len() as usize),
            final(self).symbol_table@ == old(self).symbol_table@,
    {
        let n = self.assertion_history.len();
        self.scope_stack.push(n);
    }

    /// Closes the innermost scope: the assertions made since its `push` are dropped and the
    /// solver is rebuilt from the rest. Without an open scope nothing changes.
    pub fn pop(&mut self)
        requires
            old(self).wf(),
        ensures
            final(self).wf(),
            final(self).symbol_table@ == old(self).symbol_table@,
            old(self).scope_stack@.len() == 0 ==> final(self).assertion_history@ == old(self).assertion_history@
                && final(self).scope_stack@ == old(self).scope_stack@,
            old(self).scope_stack@.len() > 0 ==> final(self).scope_stack@ == old(self).scope_stack@.drop_last()
                && final(self).assertion_history@ == old(self).assertion_history@.subrange(0, old(self).scope_stack@.last() as int),
    {
        match self.scope_stack.pop() {
            Some(saved_len) => {
                self.assertion_history.truncate(saved_len);
                proof {
                    assert forall|k: int| 0 <= k < self.scope_stack@.len() implies #[trigger] self.scope_stack@[k] <= self.assertion_history@.len() by {
                        assert(old(self).scope_stack@[k] <= old(self).scope_stack@[old(self).scope_stack@.len() - 1]);
                    }
                }
                self.rebuild();
            },
            None => {},
        }
    }

    /// Every solver part made anew, then the history asserted again.
    fn rebuild(&mut self)
        requires
            old(self).wf(),
        ensures
            final(self).wf(),
            final(self).same_context(old(self)),
    {
        self.sat_solver = CdclSolver::new();
        self.expr_to_lit = ExprMap::new();
        self.lit_to_expr = Vec::new();
        self.blaster = BitBlaster::new();
        self.next_sat_var = 1;
        self.out_of_vars = false;
        self.tactic_engine = Self::default_tactics();
        self.lra = LraSolver::new();
        self.euf = EufSolver::new();
        self.array = ArraySolver::new();
        self.quant = QuantifierSolver::new();
        self.string = StringSolver::new();
        self.nla = NlaSolver::new();
        self.fp = FpSolver::new();
        self.proof_gen = Proof::new();
        let history = crate::ast::clone_exprs(&self.assertion_history);
        let mut i: usize = 0;
        while i < history.len()
            invariant
                self.wf(),
                self.same_context(old(self)),
            decreases history@.len() - i,
        {
            self.assert_no_track(&history[i]);
            i += 1;
        }
    }

    /// Simplifies `expr` (after resolving its symbols' sorts) and hands it to every theory
    /// solver and, Tseitin-encoded, to the SAT solver as a unit clause; `true` is dropped and
    /// `false` makes the SAT solver inconsistent.
    fn assert_no_track(&mut self, expr: &Expr)
        requires
            old(self).wf(),
        ensures
            final(self).wf(),
            final(self).same_context(old(self)),
    {
        let typed = self.resolve_expr_types(expr);
        let simplified = self.tactic_engine.apply(typed);
        match &simplified {
            Expr::Bool(true) => {
                return;
            },
            Expr::Bool(false) => {
                self.sat_solver.ok = false;
                return;
            },
            _ => {},
        }
        self.lra.assert_expr(&simplified);
        self.euf.assert_expr(&simplified);
        self.array.assert_expr(&simplified);
        self.quant.assert_expr(&simplified);
        self.string.assert_expr(&simplified);
        self.nla.assert_expr(&simplified);
        self.fp.assert_expr(&simplified);
        let lit = self.tseitin(&simplified);
        let _ = self.sat_solver.add_clause(clause1(lit));
    }

    /// Declares `name` with sort `ty`, replacing an earlier declaration.
    pub fn declare_fun(&mut self, name: String, ty: Type)
        requires
            old(self).wf(),
        ensures
            final(self).wf(),
            final(self).symbols() == old(self).symbols().insert(name@, ty@),
            final(self).assertion_history@ == old(self).assertion_history@,
            final(self).scope_stack@ == old(self).scope_stack@,
    {
        self.symbol_table.push((name, ty));
        assert(self.symbol_table@.drop_last() =~= old(self).symbol_table@);
    }

    /// Declares a function symbol: with parameters its sort is `Fn(params, return_type)`,
    /// without it is `return_type`.
    pub fn declare_fun_signature(&mut self, name: String, params: Vec<Type>, return_type: Type)
        requires
            old(self).wf(),
        ensures
            final(self).wf(),
            params@.len() == 0 ==> final(self).symbols() == old(self).symbols().insert(name@, return_type@),
            params@.len() > 0 ==> final(self).symbols() == old(self).symbols().insert(
                name@,
                SType::Fn(crate::ast::types_view(params@), Box::new(return_type@)),
            ),
            final(self).assertion_history@ == old(self).assertion_history@,
            final(self).scope_stack@ == old(self).scope_stack@,
    {
        let ty = if params.len() == 0 { return_type } else { Type::Fn(params, Box::new(return_type)) };
        self.declare_fun(name, ty);
    }

    /// The declared sort of `name`.
    fn lookup_symbol(&self, name: &String) -> (r: Option<&Type>)
        ensures
            r is Some <==> self.symbols().contains_key(name@),
            r matches Some(t) ==> t@ == self.symbols()[name@],
    {
        let mut i = self.symbol_table.len();
        assert(self.symbol_table@.subrange(0, i as int) =~= self.symbol_table@);
        while i > 0
            invariant
                i <= self.symbol_table@.len(),
                symbols_map(self.symbol_table@.subrange(0, i as int)).contains_key(name@) == self.symbols().contains_key(name@),
                symbols_map(self.symbol_table@.subrange(0, i as int)).contains_key(name@) ==>
                    symbols_map(self.symbol_table@.subrange(0, i as int))[name@] == self.symbols()[name@],
            decreases i,
        {
            assert(self.symbol_table@.subrange(0, i as int).drop_last() =~= self.symbol_table@.subrange(0, i - 1));
            if self.symbol_table[i - 1].0 == *name {
                return Some(&self.symbol_table[i - 1].1);
            }
            i -= 1;
        }
        assert(self.symbol_table@.subrange(0, 0) =~= Seq::<(String, Type)>::empty());
        None
    }

    /// `expr` with the declared sort given to each symbol (see [`spec_resolve`]).
    fn resolve_expr_types(&self, expr: &Expr) -> (r: Expr)
        ensures
            r@ == spec_resolve(expr@, self.symbols()),
        decreases expr, 2nat,
    {
        match expr {
            Expr::Var(name, ty) => {
                let t = match self.lookup_symbol(name) {
                    Some(t) => t.clone(),
                    None => ty.clone(),
                };
                Expr::Var(name.clone(), t)
            },
            Expr::And(args) => Expr::And(self.resolve_all(args)),
            Expr::Or(args) => Expr::Or(self.resolve_all(args)),
            Expr::Add(args) => Expr::Add(self.resolve_all(args)),
            Expr::Sub(args) => Expr::Sub(self.resolve_all(args)),
            Expr::Mul(args) => Expr::Mul(self.resolve_all(args)),
            Expr::StrConcat(args) => Expr::StrConcat(self.resolve_all(args)),
            Expr::App(f, args) => Expr::App(f.clone(), self.resolve_all(args)),
            Expr::Not(a) => Expr::Not(Box::new(self.resolve_expr_types(a))),
            Expr::BvNot(a) => Expr::BvNot(Box::new(self.resolve_expr_types(a))),
            Expr::StrLen(a) => Expr::StrLen(Box::new(self.resolve_expr_types(a))),
            Expr::BvExtract(h, l, a) => Expr::BvExtract(*h, *l, Box::new(self.resolve_expr_types(a))),
            Expr::ForAll(v, b) => Expr::ForAll(clone_vars(v), Box::new(self.resolve_expr_types(b))),
            Expr::Exists(v, b) => Expr::Exists(clone_vars(v), Box::new(self.resolve_expr_types(b))),
            Expr::Ite(c, t, f) => Expr::Ite(
                Box::new(self.resolve_expr_types(c)),
                Box::new(self.resolve_expr_types(t)),
                Box::new(self.resolve_expr_types(f)),
            ),
            Expr::Store(c, t, f) => Expr::Store(
                Box::new(self.resolve_expr_types(c)),
                Box::new(self.resolve_expr_types(t)),
                Box::new(self.resolve_expr_types(f)),
            ),
            Expr::Implies(..) | Expr::Eq(..) | Expr::Lt(..) | Expr::Le(..) | Expr::Gt(..) | Expr::Ge(..)
            | Expr::Div(..) | Expr::BvAdd(..) | Expr::BvSub(..) | Expr::BvMul(..) | Expr::BvAnd(..)
            | Expr::BvOr(..) | Expr::BvXor(..) | Expr::BvShl(..) | Expr::BvLshr(..) | Expr::BvAshr(..)
            | Expr::BvUle(..) | Expr::BvUlt(..) | Expr::BvSle(..) | Expr::BvSlt(..) | Expr::BvConcat(..)
            | Expr::Select(..) | Expr::StrContains(..) => self.resolve_binary(expr),
            _ => expr.clone(),
        }
    }

    /// [`Rz3Solver::resolve_expr_types`] on the two operands of a binary operator.
    fn resolve_binary(&self, expr: &Expr) -> (r: Expr)
        requires
            expr@ is Implies || expr@ is Eq || expr@ is Lt || expr@ is Le || expr@ is Gt || expr@ is Ge || expr@ is Div || expr@ is BvAdd || expr@ is BvSub || expr@ is BvMul || expr@ is BvAnd || expr@ is BvOr || expr@ is BvXor || expr@ is BvShl || expr@ is BvLshr || expr@ is BvAshr || expr@ is BvUle || expr@ is BvUlt || expr@ is BvSle || expr@ is BvSlt || expr@ is BvConcat || expr@ is Select || expr@ is StrContains,
        ensures
            r@ == spec_resolve(expr@, self.symbols()),
        decreases expr, 1nat,
    {
        match expr {
            Expr::Implies(..) | Expr::Eq(..) | Expr::Lt(..) | Expr::Le(..) | Expr::Gt(..) | Expr::Ge(..) | Expr::Div(..) | Expr::BvAdd(..) => self.resolve_comparison(expr),
            Expr::BvSub(..) | Expr::BvMul(..) | Expr::BvAnd(..) | Expr::BvOr(..) | Expr::BvXor(..) | Expr::BvShl(..) | Expr::BvLshr(..) | Expr::BvAshr(..) => self.resolve_bv_arith(expr),
            Expr::BvUle(..) | Expr::BvUlt(..) | Expr::BvSle(..) | Expr::BvSlt(..) | Expr::BvConcat(..) | Expr::Select(..) | Expr::StrContains(..) => self.resolve_bv_other(expr),
            _ => expr.clone(),
        }
    }

    /// [`Rz3Solver::resolve_expr_types`] on the operands of a comparison and arithmetic operator.
    fn resolve_comparison(&self, expr: &Expr) -> (r: Expr)
        requires
            expr@ is Implies || expr@ is Eq || expr@ is Lt || expr@ is Le || expr@ is Gt || expr@ is Ge || expr@ is Div || expr@ is BvAdd,
        ensures
            r@ == spec_resolve(expr@, self.symbols()),
        decreases expr, 0nat,
    {
        match expr {
            Expr::Implies(a, b) => Expr::Implies(Box::new(self.resolve_expr_types(a)), Box::new(self.resolve_expr_types(b))),
            Expr::Eq(a, b) => Expr::Eq(Box::new(self.resolve_expr_types(a)), Box::new(self.resolve_expr_types(b))),
            Expr::Lt(a, b) => Expr::Lt(Box::new(self.resolve_expr_types(a)), Box::new(self.resolve_expr_types(b))),
            Expr::Le(a, b) => Expr::Le(Box::new(self.resolve_expr_types(a)), Box::new(self.resolve_expr_types(b))),
            Expr::Gt(a, b) => Expr::Gt(Box::new(self.resolve_expr_types(a)), Box::new(self.resolve_expr_types(b))),
            Expr::Ge(a, b) => Expr::Ge(Box::new(self.resolve_expr_types(a)), Box::new(self.resolve_expr_types(b))),
            Expr::Div(a, b) => Expr::Div(Box::new(self.resolve_expr_types(a)), Box::new(self.resolve_expr_types(b))),
            Expr::BvAdd(a, b) => Expr::BvAdd(Box::new(self.resolve_expr_types(a)), Box::new(self.resolve_expr_types(b))),
            _ => expr.clone(),
        }
    }

    /// [`Rz3Solver::resolve_expr_types`] on the operands of a bit-vector arithmetic and logic operator.
    fn resolve_bv_arith(&self, expr: &Expr) -> (r: Expr)
        requires
            expr@ is BvSub || expr@ is BvMul || expr@ is BvAnd || expr@ is BvOr || expr@ is BvXor || expr@ is BvShl || expr@ is BvLshr || expr@ is BvAshr,
        ensures
            r@ == spec_resolve(expr@, self.symbols()),
        decreases expr, 0nat,
    {
        match expr {
            Expr::BvSub(a, b) => Expr::BvSub(Box::new(self.resolve_expr_types(a)), Box::new(self.resolve_expr_types(b))),
            Expr::BvMul(a, b) => Expr::BvMul(Box::new(self.resolve_expr_types(a)), Box::new(self.resolve_expr_types(b))),
            Expr::BvAnd(a, b) => Expr::BvAnd(Box::new(self.resolve_expr_types(a)), Box::new(self.resolve_expr_types(b))),
            Expr::BvOr(a, b) => Expr::BvOr(Box::new(self.resolve_expr_types(a)), Box::new(self.resolve_expr_types(b))),
            Expr::BvXor(a, b) => Expr::BvXor(Box::new(self.resolve_expr_types(a)), Box::new(self.resolve_expr_types(b))),
            Expr::BvShl(a, b) => Expr::BvShl(Box::new(self.resolve_expr_types(a)), Box::new(self.resolve_expr_types(b))),
            Expr::BvLshr(a, b) => Expr::BvLshr(Box::new(self.resolve_expr_types(a)), Box::new(self.resolve_expr_types(b))),
            Expr::BvAshr(a, b) => Expr::BvAshr(Box::new(self.resolve_expr_types(a)), Box::new(self.resolve_expr_types(b))),
            _ => expr.clone(),
        }
    }

    /// [`Rz3Solver::resolve_expr_types`] on the operands of a other binary operator.
    fn resolve_bv_other(&self, expr: &Expr) -> (r: Expr)
        requires
            expr@ is BvUle || expr@ is BvUlt || expr@ is BvSle || expr@ is BvSlt || expr@ is BvConcat || expr@ is Select || expr@ is StrContains,
        ensures
            r@ == spec_resolve(expr@, self.symbols()),
        decreases expr, 0nat,
    {
        match expr {
            Expr::BvUle(a, b) => Expr::BvUle(Box::new(self.resolve_expr_types(a)), Box::new(self.resolve_expr_types(b))),
            Expr::BvUlt(a, b) => Expr::BvUlt(Box::new(self.resolve_expr_types(a)), Box::new(self.resolve_expr_types(b))),
            Expr::BvSle(a, b) => Expr::BvSle(Box::new(self.resolve_expr_types(a)), Box::new(self.resolve_expr_types(b))),
            Expr::BvSlt(a, b) => Expr::BvSlt(Box::new(self.resolve_expr_types(a)), Box::new(self.resolve_expr_types(b))),
            Expr::BvConcat(a, b) => Expr::BvConcat(Box::new(self.resolve_expr_types(a)), Box::new(self.resolve_expr_types(b))),
            Expr::Select(a, b) => Expr::Select(Box::new(self.resolve_expr_types(a)), Box::new(self.resolve_expr_types(b))),
            Expr::StrContains(a, b) => Expr::StrContains(Box::new(self.resolve_expr_types(a)), Box::new(self.resolve_expr_types(b))),
            _ => expr.clone(),
        }
    }

    /// `resolve_expr_types` on each term of `args`.
    fn resolve_all(&self, args: &Vec<Expr>) -> (r: Vec<Expr>)
        ensures
            exprs_view(r@) == seq_resolve(exprs_view(args@), self.symbols()),
        decreases args, 3nat,
    {
        let mut out: Vec<Expr> = Vec::new();
        let mut i: usize = 0;
        while i < args.len()
            invariant
                i <= args@.len(),
                out@.len() == i,
                forall|j: int| 0 <= j < i ==> #[trigger] out@[j]@ == spec_resolve(args@[j]@, self.symbols()),
            decreases args@.len() - i,
        {
            proof {
                assert(decreases_to!(*args => args@[i as int]));
            }
            out.push(self.resolve_expr_types(&args[i]));
            i += 1;
        }
        proof {
            lemma_exprs_view(out@);
            lemma_exprs_view(args@);
            lemma_seq_resolve(exprs_view(args@), self.symbols());
            assert(exprs_view(out@) =~= seq_resolve(exprs_view(args@), self.symbols()));
        }
        out
    }

    /// The SAT variable of `expr`, made on first use. Once the variables run out the last one
    /// is reused and `out_of_vars` is set.
    fn get_or_create_lit(&mut self, expr: &Expr) -> (r: i32)
        requires
            old(self).wf(),
        ensures
            final(self).wf(),
            final(self).same_context(old(self)),
            final(self).sat_solver == old(self).sat_solver,
            final(self).next_sat_var >= old(self).next_sat_var,
            1 <= r < final(self).next_sat_var,
            keeps_lits(old(self), final(self)),
            !final(self).out_of_vars ==> lit_of(final(self).expr_to_lit, expr@, r),
    {
        match self.expr_to_lit.get(expr) {
            Some(l) => *l,
            None => {
                if self.next_sat_var < 268435456 {
                    let lit = self.next_sat_var;
                    self.next_sat_var = self.next_sat_var + 1;
                    let ghost before = self.expr_to_lit;
                    let pos = self.expr_to_lit.insert_new(expr.clone(), lit);
                    proof {
                        assert forall|k: int| 0 <= k < self.expr_to_lit.vals@.len() implies 1 <= #[trigger] self.expr_to_lit.vals@[k] < self.next_sat_var by {
                            if k < pos {
                                assert(self.expr_to_lit.vals@[k] == before.vals@[k]);
                            } else if k > pos {
                                assert(self.expr_to_lit.vals@[k] == before.vals@[k - 1]);
                            }
                        }
                        assert forall|e: SExpr, l: i32| #[trigger] lit_of(before, e, l) implies lit_of(self.expr_to_lit, e, l) by {
                            let i = choose|i: int| 0 <= i < before.keys@.len() && before.keys@[i]@ == e && before.vals@[i] == l;
                            if i < pos {
                                assert(self.expr_to_lit.keys@[i] == before.keys@[i]);
                                assert(self.expr_to_lit.vals@[i] == before.vals@[i]);
                            } else {
                                assert(self.expr_to_lit.keys@[i + 1] == before.keys@[i]);
                                assert(self.expr_to_lit.vals@[i + 1] == before.vals@[i]);
                            }
                        }
                        assert(self.expr_to_lit.keys@[pos as int]@ == expr@);
                        crate::theory::bv::lemma_wf_grows(&self.blaster, lit, self.next_sat_var);
                    }
                    self.lit_to_expr.push((lit, expr.clone()));
                    lit
                } else {
                    self.out_of_vars = true;
                    self.next_sat_var - 1
                }
            },
        }
    }

    /// A variable of its own (for a bit of an equality); once the variables run out the last
    /// one is reused and `out_of_vars` is set.
    fn fresh_var(&mut self) -> (r: i32)
        requires
            old(self).wf(),
        ensures
            final(self).wf(),
            final(self).same_context(old(self)),
            final(self).sat_solver == old(self).sat_solver,
            final(self).next_sat_var >= old(self).next_sat_var,
            1 <= r < final(self).next_sat_var,
            final(self).expr_to_lit == old(self).expr_to_lit,
            old(self).out_of_vars ==> final(self).out_of_vars,
    {
        if self.next_sat_var < 268435456 {
            let v = self.next_sat_var;
            self.next_sat_var = self.next_sat_var + 1;
            proof {
                crate::theory::bv::lemma_wf_grows(&self.blaster, v, self.next_sat_var);
            }
            v
        } else {
            self.out_of_vars = true;
            self.next_sat_var - 1
        }
    }

    /// Adds a clause over variables already made.
    fn add_clause(&mut self, lits: Vec<i32>)
        requires
            old(self).wf(),
            lits_below(lits@, old(self).next_sat_var),
        ensures
            final(self).wf(),
            final(self).same_context(old(self)),
            final(self).next_sat_var == old(self).next_sat_var,
            final(self).expr_to_lit == old(self).expr_to_lit,
            final(self).out_of_vars == old(self).out_of_vars,
            input_clauses(final(self).sat_solver.input@) == input_clauses(old(self).sat_solver.input@).push(lits@),
    {
        let ghost before = self.sat_solver.input@;
        let ghost lv = lits@;
        let _ = self.sat_solver.add_clause(lits);
        assert(input_clauses(self.sat_solver.input@) =~= input_clauses(before).push(lv));
    }

    /// The sort of `expr`, where one is known (see [`spec_infer_type`]).
    fn infer_type(&self, expr: &Expr) -> (r: Option<Type>)
        ensures
            r is None <==> spec_infer_type(expr@, self.symbols()) is None,
            r matches Some(t) ==> spec_infer_type(expr@, self.symbols()) == Some(t@),
    {
        match expr {
            Expr::Var(name, ty) => match ty {
                Type::Unknown => match self.lookup_symbol(name) {
                    Some(t) => Some(t.clone()),
                    None => None,
                },
                _ => Some(ty.clone()),
            },
            Expr::App(name, _) => match self.lookup_symbol(name) {
                Some(Type::Fn(_, ret)) => Some((**ret).clone()),
                Some(t) => Some(t.clone()),
                None => {
                    let ty = expr.get_type();
                    match ty {
                        Type::Unknown => None,
                        _ => Some(ty),
                    }
                },
            },
            _ => {
                let ty = expr.get_type();
                match ty {
                    Type::Unknown => None,
                    _ => Some(ty),
                }
            },
        }
    }

    /// Whether `expr` is a bit-vector: by its sort or by its form.
    fn is_bv(&self, expr: &Expr) -> (r: bool)
        ensures
            r == ((spec_infer_type(expr@, self.symbols()) matches Some(SType::BitVec(_))) || bv_form(expr@)),
    {
        let by_sort = match self.infer_type(expr) {
            Some(Type::BitVec(_)) => true,
            _ => false,
        };
        by_sort || match expr {
            Expr::BvConst(..) | Expr::BvAdd(..) | Expr::BvSub(..) | Expr::BvMul(..) | Expr::BvAnd(..)
            | Expr::BvOr(..) | Expr::BvXor(..) | Expr::BvNot(..) | Expr::BvShl(..) | Expr::BvLshr(..)
            | Expr::BvAshr(..) | Expr::BvExtract(..) | Expr::BvConcat(..) => true,
            _ => false,
        }
    }

    /// Asserts `expr`: it joins the assertion history and goes to the solvers.
    pub fn assert_expr(&mut self, expr: &Expr)
        requires
            old(self).wf(),
        ensures
            final(self).wf(),
            final(self).assertion_history@.len() == old(self).assertion_history@.len() + 1,
            final(self).history() == old(self).history().push(expr@),
            final(self).assertion_history@.subrange(0, old(self).assertion_history@.len() as int)
                == old(self).assertion_history@,
            final(self).scope_stack@ == old(self).scope_stack@,
            final(self).symbol_table@ == old(self).symbol_table@,
    {
        self.assertion_history.push(expr.clone());
        proof {
            assert(self.assertion_history@.drop_last() =~= old(self).assertion_history@);
            assert(self.assertion_history@.subrange(0, old(self).assertion_history@.len() as int) =~= old(self).assertion_history@);
        }
        self.assert_no_track(expr);
    }

    /// The literal of `expr` in the Tseitin encoding, with the clauses that define it:
    /// `and`, `or`, `=>`, `not` and equalities of Booleans are encoded, equalities of
    /// bit-vectors are bit-blasted, `true` and `false` get unit clauses, and every other term
    /// is an atom.
    fn tseitin(&mut self, expr: &Expr) -> (r: i32)
        requires
            old(self).wf(),
        ensures
            final(self).wf(),
            final(self).same_context(old(self)),
            final(self).next_sat_var >= old(self).next_sat_var,
            lit_below(r, final(self).next_sat_var),
            keeps_lits(old(self), final(self)),
            !(expr@ is Not || expr@ is Implies) && !final(self).out_of_vars ==> lit_of(final(self).expr_to_lit, expr@, r),
        decreases expr, 1nat,
    {
        match expr {
            Expr::Bool(b) => self.tseitin_constant(expr, *b),
            Expr::Not(inner) => {
                let lit = self.tseitin(inner);
                -lit
            },
            Expr::And(_) | Expr::Or(_) => self.tseitin_junction(expr),
            Expr::Implies(_, _) => self.tseitin_implies(expr),
            Expr::Eq(a, b) => {
                if self.is_bv(a) || self.is_bv(b) {
                    self.bv_equality(expr, a, b)
                } else {
                    self.tseitin_equality(expr)
                }
            },
            _ => self.get_or_create_lit(expr),
        }
    }

    /// The literal of `true` or `false`, fixed by a unit clause.
    fn tseitin_constant(&mut self, expr: &Expr, b: bool) -> (r: i32)
        requires
            old(self).wf(),
        ensures
            final(self).wf(),
            final(self).same_context(old(self)),
            final(self).next_sat_var >= old(self).next_sat_var,
            1 <= r < final(self).next_sat_var,
            keeps_lits(old(self), final(self)),
            !final(self).out_of_vars ==> lit_of(final(self).expr_to_lit, expr@, r),
    {
        let lit = self.get_or_create_lit(expr);
        if b {
            self.add_clause(clause1(lit));
        } else {
            self.add_clause(clause1(-lit));
        }
        lit
    }

    /// The literal of a conjunction (`and` true) or disjunction, defined over its operands'
    /// literals.
    fn tseitin_junction(&mut self, expr: &Expr) -> (r: i32)
        requires
            old(self).wf(),
        ensures
            final(self).wf(),
            final(self).same_context(old(self)),
            final(self).next_sat_var >= old(self).next_sat_var,
            1 <= r < final(self).next_sat_var,
            keeps_lits(old(self), final(self)),
            !final(self).out_of_vars ==> lit_of(final(self).expr_to_lit, expr@, r),
        decreases expr, 0nat,
    {
        let res = self.get_or_create_lit(expr);
        match expr {
            Expr::And(args) => {
                let arg_lits = self.tseitin_all(args);
                self.encode_and(res, arg_lits);
            },
            Expr::Or(args) => {
                let arg_lits = self.tseitin_all(args);
                self.encode_or(res, arg_lits);
            },
            _ => {},
        }
        res
    }

    /// The literal of `a => b`: that of `(or (not a) b)`.
    fn tseitin_implies(&mut self, expr: &Expr) -> (r: i32)
        requires
            old(self).wf(),
        ensures
            final(self).wf(),
            final(self).same_context(old(self)),
            final(self).next_sat_var >= old(self).next_sat_var,
            1 <= r < final(self).next_sat_var,
            keeps_lits(old(self), final(self)),
        decreases expr, 0nat,
    {
        match expr {
            Expr::Implies(a, b) => {
                let not_a_or_b = Expr::Or(vec![Expr::Not(Box::new((**a).clone())), (**b).clone()]);
                let res = self.get_or_create_lit(&not_a_or_b);
                let la = self.tseitin(a);
                let lb = self.tseitin(b);
                self.encode_or(res, clause2(-la, lb));
                res
            },
            _ => self.get_or_create_lit(expr),
        }
    }

    /// The literal of an equality: of Booleans, defined as the equivalence of the sides'
    /// literals; of other terms, an atom.
    fn tseitin_equality(&mut self, expr: &Expr) -> (r: i32)
        requires
            old(self).wf(),
        ensures
            final(self).wf(),
            final(self).same_context(old(self)),
            final(self).next_sat_var >= old(self).next_sat_var,
            1 <= r < final(self).next_sat_var,
            keeps_lits(old(self), final(self)),
            !final(self).out_of_vars ==> lit_of(final(self).expr_to_lit, expr@, r),
        decreases expr, 0nat,
    {
        match expr {
            Expr::Eq(a, b) => {
                let bool_sides = match self.infer_type(a) {
                    Some(Type::Bool) => true,
                    _ => false,
                };
                if bool_sides {
                    let res = self.get_or_create_lit(expr);
                    let la = self.tseitin(a);
                    let lb = self.tseitin(b);
                    self.add_clause(clause3(la, -lb, -res));
                    self.add_clause(clause3(-la, lb, -res));
                    self.add_clause(clause3(-la, -lb, res));
                    self.add_clause(clause3(la, lb, res));
                    res
                } else {
                    self.get_or_create_lit(expr)
                }
            },
            _ => self.get_or_create_lit(expr),
        }
    }

    /// The Tseitin literals of each term of `args`.
    fn tseitin_all(&mut self, args: &Vec<Expr>) -> (r: Vec<i32>)
        requires
            old(self).wf(),
        ensures
            final(self).wf(),
            final(self).same_context(old(self)),
            final(self).next_sat_var >= old(self).next_sat_var,
            lits_below(r@, final(self).next_sat_var),
            keeps_lits(old(self), final(self)),
        decreases args, 0nat,
    {
        let mut out: Vec<i32> = Vec::new();
        let mut i: usize = 0;
        while i < args.len()
            invariant
                self.wf(),
                self.same_context(old(self)),
                self.next_sat_var >= old(self).next_sat_var,
                lits_below(out@, self.next_sat_var),
                keeps_lits(old(self), self),
            decreases args@.len() - i,
        {
            proof {
                assert(decreases_to!(*args => args@[i as int]));
            }
            let l = self.tseitin(&args[i]);
            out.push(l);
            i += 1;
        }
        out
    }

    /// `res ⇔ ⋀ args`: `¬res ∨ a` for each `a`, and `res ∨ ⋁ ¬a`.
    fn encode_and(&mut self, res: i32, args: Vec<i32>)
        requires
            old(self).wf(),
            1 <= res < old(self).next_sat_var,
            lits_below(args@, old(self).next_sat_var),
        ensures
            final(self).wf(),
            final(self).same_context(old(self)),
            final(self).next_sat_var == old(self).next_sat_var,
            final(self).expr_to_lit == old(self).expr_to_lit,
            final(self).out_of_vars == old(self).out_of_vars,
            input_clauses(final(self).sat_solver.input@) == input_clauses(old(self).sat_solver.input@)
                + Seq::new(args@.len(), |i: int| seq![neg_lit(res), args@[i]])
                + seq![negated_lits(args@).push(res)],
    {
        let ghost start = input_clauses(self.sat_solver.input@);
        let mut i: usize = 0;
        while i < args.len()
            invariant
                self.wf(),
                self.same_context(old(self)),
                self.next_sat_var == old(self).next_sat_var,
                lits_below(args@, self.next_sat_var),
                1 <= res < self.next_sat_var,
                self.expr_to_lit == old(self).expr_to_lit,
                self.out_of_vars == old(self).out_of_vars,
                i <= args@.len(),
                input_clauses(self.sat_solver.input@) == start + Seq::new(i as nat, |q: int| seq![neg_lit(res), args@[q]]),
            decreases args@.len() - i,
        {
            self.add_clause(clause2(-res, args[i]));
            assert(Seq::new((i + 1) as nat, |q: int| seq![neg_lit(res), args@[q]])
                =~= Seq::new(i as nat, |q: int| seq![neg_lit(res), args@[q]]).push(seq![neg_lit(res), args@[i as int]]));
            i += 1;
        }
        let ghost mid = input_clauses(self.sat_solver.input@);
        let mut clause: Vec<i32> = Vec::new();
        let mut j: usize = 0;
        while j < args.len()
            invariant
                j <= args@.len(),
                lits_below(args@, self.next_sat_var),
                lits_below(clause@, self.next_sat_var),
                clause@ == negated_lits(args@.take(j as int)),
            decreases args@.len() - j,
        {
            clause.push(-args[j]);
            proof {
                assert(args@.take(j + 1).drop_last() == args@.take(j as int));
            }
            j += 1;
        }
        assert(args@.take(args@.len() as int) == args@);
        clause.push(res);
        self.add_clause(clause);
    }

    /// `res ⇔ ⋁ args`: `¬a ∨ res` for each `a`, and `¬res ∨ ⋁ a`.
    fn encode_or(&mut self, res: i32, args: Vec<i32>)
        requires
            old(self).wf(),
            1 <= res < old(self).next_sat_var,
            lits_below(args@, old(self).next_sat_var),
        ensures
            final(self).wf(),
            final(self).same_context(old(self)),
            final(self).next_sat_var == old(self).next_sat_var,
            final(self).expr_to_lit == old(self).expr_to_lit,
            final(self).out_of_vars == old(self).out_of_vars,
            input_clauses(final(self).sat_solver.input@) == input_clauses(old(self).sat_solver.input@)
                + Seq::new(args@.len(), |i: int| seq![neg_lit(args@[i]), res])
                + seq![args@.push(neg_lit(res))],
    {
        let ghost start = input_clauses(self.sat_solver.input@);
        let mut i: usize = 0;
        while i < args.len()
            invariant
                self.wf(),
                self.same_context(old(self)),
                self.next_sat_var == old(self).next_sat_var,
                lits_below(args@, self.next_sat_var),
                1 <= res < self.next_sat_var,
                self.expr_to_lit == old(self).expr_to_lit,
                self.out_of_vars == old(self).out_of_vars,
                i <= args@.len(),
                input_clauses(self.sat_solver.input@) == start + Seq::new(i as nat, |q: int| seq![neg_lit(args@[q]), res]),
            decreases args@.len() - i,
        {
            self.add_clause(clause2(-args[i], res));
            assert(Seq::new((i + 1) as nat, |q: int| seq![neg_lit(args@[q]), res])
                =~= Seq::new(i as nat, |q: int| seq![neg_lit(args@[q]), res]).push(seq![neg_lit(args@[i as int]), res]));
            i += 1;
        }
        let mut clause = args;
        clause.push(-res);
        self.add_clause(clause);
    }

    /// The literal of a bit-vector equality: both sides are bit-blasted, each pair of bits
    /// gets a variable equivalent to their equality, and the literal is the conjunction of
    /// those (over the shorter side).
    fn bv_equality(&mut self, expr: &Expr, a: &Expr, b: &Expr) -> (r: i32)
        requires
            old(self).wf(),
        ensures
            final(self).wf(),
            final(self).same_context(old(self)),
            final(self).next_sat_var >= old(self).next_sat_var,
            1 <= r < final(self).next_sat_var,
            keeps_lits(old(self), final(self)),
            !final(self).out_of_vars ==> lit_of(final(self).expr_to_lit, expr@, r),
    {
        let bits_a = self.blaster.bit_blast(&mut self.sat_solver, &mut self.next_sat_var, a);
        let bits_b = self.blaster.bit_blast(&mut self.sat_solver, &mut self.next_sat_var, b);
        proof {
            assert forall|k: int| 0 <= k < self.expr_to_lit.vals@.len() implies 1 <= #[trigger] self.expr_to_lit.vals@[k] < self.next_sat_var by {
                assert(old(self).expr_to_lit.vals@[k] < old(self).next_sat_var);
            }
        }
        let res = self.get_or_create_lit(expr);
        let n = if bits_a.len() < bits_b.len() { bits_a.len() } else { bits_b.len() };
        let mut bit_eqs: Vec<i32> = Vec::new();
        let mut k: usize = 0;
        while k < n
            invariant
                self.wf(),
                self.same_context(old(self)),
                self.next_sat_var >= old(self).next_sat_var,
                n <= bits_a@.len(),
                n <= bits_b@.len(),
                vars_below(bits_a@, self.next_sat_var),
                vars_below(bits_b@, self.next_sat_var),
                vars_below(bit_eqs@, self.next_sat_var),
                1 <= res < self.next_sat_var,
                keeps_lits(old(self), self),
                !self.out_of_vars ==> lit_of(self.expr_to_lit, expr@, res),
            decreases n - k,
        {
            let la = bits_a[k];
            let lb = bits_b[k];
            let eq = self.fresh_var();
            self.add_clause(clause3(-la, lb, -eq));
            self.add_clause(clause3(la, -lb, -eq));
            self.add_clause(clause3(la, lb, eq));
            self.add_clause(clause3(-la, -lb, eq));
            bit_eqs.push(eq);
            k += 1;
        }
        let mut q: usize = 0;
        while q < bit_eqs.len()
            invariant
                self.wf(),
                self.same_context(old(self)),
                self.next_sat_var >= old(self).next_sat_var,
                vars_below(bit_eqs@, self.next_sat_var),
                1 <= res < self.next_sat_var,
                keeps_lits(old(self), self),
                !self.out_of_vars ==> lit_of(self.expr_to_lit, expr@, res),
            decreases bit_eqs@.len() - q,
        {
            self.add_clause(clause2(-res, bit_eqs[q]));
            q += 1;
        }
        let mut final_clause: Vec<i32> = Vec::new();
        let mut j: usize = 0;
        while j < bit_eqs.len()
            invariant
                vars_below(bit_eqs@, self.next_sat_var),
                lits_below(final_clause@, self.next_sat_var),
            decreases bit_eqs@.len() - j,
        {
            final_clause.push(-bit_eqs[j]);
            j += 1;
        }
        final_clause.push(res);
        self.add_clause(final_clause);
        res
    }

    /// For a Boolean symbol or application, the equality with its assigned truth value that
    /// the congruence solver is given.
    fn euf_assignment_assertion(&self, expr: &Expr, is_true: bool) -> (r: Option<Expr>)
        ensures
            r is Some <==> ((expr@ is Var || expr@ is App) && spec_infer_type(expr@, self.symbols()) == Some(SType::Bool)),
            r matches Some(e) ==> e@ == SExpr::Eq(Box::new(expr@), Box::new(SExpr::Bool(is_true))),
    {
        match expr {
            Expr::Var(..) | Expr::App(..) => match self.infer_type(expr) {
                Some(Type::Bool) => {
                    let v = Expr::Bool(is_true);
                    assert(v@ == SExpr::Bool(is_true));
                    Some(Expr::Eq(Box::new(expr.clone()), Box::new(v)))
                },
                _ => None,
            },
            _ => None,
        }
    }

    /// Adds the clause that rules out a theory conflict: the negation of each literal that the
    /// conflict's terms (or the terms they negate) have.
    fn learn_conflict(&mut self, conflict: &Vec<Expr>)
        requires
            old(self).wf(),
        ensures
            final(self).wf(),
            final(self).same_context(old(self)),
            final(self).next_sat_var == old(self).next_sat_var,
    {
        if conflict.len() == 0 {
            return;
        }
        let mut clause: Vec<i32> = Vec::new();
        let mut k: usize = 0;
        while k < conflict.len()
            invariant
                self.wf(),
                lits_below(clause@, self.next_sat_var),
            decreases conflict@.len() - k,
        {
            match self.expr_to_lit.get(&conflict[k]) {
                Some(l) => {
                    clause.push(-*l);
                },
                None => match &conflict[k] {
                    Expr::Not(inner) => match self.expr_to_lit.get(inner) {
                        Some(l) => {
                            clause.push(*l);
                        },
                        None => {},
                    },
                    _ => {},
                },
            }
            k += 1;
        }
        if clause.len() > 0 {
            self.add_clause(clause);
        }
    }

    /// The model: each Boolean symbol's assigned value, each bit-vector symbol's value
    /// gathered from its bits (bits past 63 are not represented), and the arithmetic solver's
    /// value of every other variable (an integer for a symbol declared `Int`).
    pub fn get_model(&self) -> (r: Vec<(String, ModelValue)>)
        requires
            self.wf(),
        ensures
            names_distinct(r@),
            model_wf(r@),
            binds_booleans(*self, r@),
            forall|j: int, b: u64| 0 <= j < r@.len() && r@[j].1 is BitVec && b < 64 ==>
                (#[trigger] bit_set(r@[j].1->BitVec_0, b) <==> bit_true_in(self.blaster.bv_vars@, self.sat_solver, r@[j].0@, b as int)),
    {
        let mut model: Vec<(String, ModelValue)> = Vec::new();
        let mut k: usize = 0;
        while k < self.expr_to_lit.keys.len()
            invariant
                self.wf(),
                k <= self.expr_to_lit.keys@.len(),
                names_distinct(model@),
                model_wf(model@),
                forall|j: int| 0 <= j < k && (#[trigger] self.expr_to_lit.keys@[j])@ is Var
                    && self.expr_to_lit.keys@[j]@->Var_1 is Bool
                    ==> has_entry(model@, self.expr_to_lit.keys@[j]@->Var_0,
                        ModelValue::Bool(lit_true(self.sat_solver, self.expr_to_lit.vals@[j]))),
                forall|i: int| 0 <= i < model@.len() ==> !((#[trigger] model@[i]).1 is BitVec),
            decreases self.expr_to_lit.keys@.len() - k,
        {
            match &self.expr_to_lit.keys[k] {
                Expr::Var(name, Type::Bool) => {
                    let lit = self.expr_to_lit.vals[k];
                    let val = match self.sat_solver.get_lit_value(lit) {
                        Assignment::True => true,
                        _ => false,
                    };
                    let ghost before = model@;
                    model_set(&mut model, name, ModelValue::Bool(val));
                    proof {
                        assert forall|j: int| 0 <= j < k + 1 && (#[trigger] self.expr_to_lit.keys@[j])@ is Var
                            && self.expr_to_lit.keys@[j]@->Var_1 is Bool
                            implies has_entry(model@, self.expr_to_lit.keys@[j]@->Var_0,
                                ModelValue::Bool(lit_true(self.sat_solver, self.expr_to_lit.vals@[j]))) by {
                            if j < k {
                                assert(self.expr_to_lit.keys@[j]@ != self.expr_to_lit.keys@[k as int]@);
                                assert(self.expr_to_lit.keys@[j]@->Var_0 != name@);
                            }
                        }
                    }
                },
                _ => {},
            }
            k += 1;
        }
        let mut q: usize = 0;
        let ghost vars = self.blaster.bv_vars@;
        proof {
            assert(bits_agree(vars.take(0), self.sat_solver, model@));
        }
        while q < self.blaster.bv_vars.len()
            invariant
                self.wf(),
                names_distinct(model@),
                model_wf(model@),
                binds_booleans(*self, model@),
                vars == self.blaster.bv_vars@,
                q <= vars.len(),
                bits_agree(vars.take(q as int), self.sat_solver, model@),
                forall|p: int| 0 <= p < q ==> #[trigger] has_name(model@, vars[p].0.0@),
            decreases self.blaster.bv_vars@.len() - q,
        {
            let name = &self.blaster.bv_vars[q].0.0;
            let bit = self.blaster.bv_vars[q].0.1;
            let lit = self.blaster.bv_vars[q].1;
            let val: u64 = match self.sat_solver.get_lit_value(lit) {
                Assignment::True => 1,
                _ => 0,
            };
            let ghost m0 = model@;
            let ghost pre = vars.take(q as int);
            let ghost post = vars.take(q + 1);
            proof {
                assert(post == pre.push(vars[q as int]));
                assert forall|n: Seq<char>, b: int| n != name@ implies
                    (bit_true_in(post, self.sat_solver, n, b) <==> bit_true_in(pre, self.sat_solver, n, b)) by {
                    if bit_true_in(post, self.sat_solver, n, b) {
                        let w = choose|w: int| 0 <= w < post.len() && (#[trigger] post[w]).0.0@ == n && post[w].0.1 == b
                            && lit_true(self.sat_solver, post[w].1);
                        assert(w < pre.len());
                        assert(pre[w] == post[w]);
                    }
                    if bit_true_in(pre, self.sat_solver, n, b) {
                        let w = choose|w: int| 0 <= w < pre.len() && (#[trigger] pre[w]).0.0@ == n && pre[w].0.1 == b
                            && lit_true(self.sat_solver, pre[w].1);
                        assert(post[w] == pre[w]);
                    }
                }
                assert forall|b: int| (bit_true_in(post, self.sat_solver, name@, b) <==>
                    (bit_true_in(pre, self.sat_solver, name@, b) || (b == bit && lit_true(self.sat_solver, lit)))) by {
                    if bit_true_in(post, self.sat_solver, name@, b) {
                        let w = choose|w: int| 0 <= w < post.len() && (#[trigger] post[w]).0.0@ == name@ && post[w].0.1 == b
                            && lit_true(self.sat_solver, post[w].1);
                        if w < pre.len() {
                            assert(pre[w] == post[w]);
                        }
                    }
                    if bit_true_in(pre, self.sat_solver, name@, b) {
                        let w = choose|w: int| 0 <= w < pre.len() && (#[trigger] pre[w]).0.0@ == name@ && pre[w].0.1 == b
                            && lit_true(self.sat_solver, pre[w].1);
                        assert(post[w] == pre[w]);
                    }
                    if b == bit && lit_true(self.sat_solver, lit) {
                        assert(post[q as int] == vars[q as int]);
                    }
                }
            }
            let idx = match model_find(&model, name) {
                Some(i) => i,
                None => {
                    model.push((name.clone(), ModelValue::BitVec(0, 0)));
                    proof {
                        assert forall|n: Seq<char>, x: ModelValue| has_entry(m0, n, x) implies has_entry(model@, n, x) by {
                            let j = choose|j: int| 0 <= j < m0.len() && #[trigger] m0[j].0@ == n && m0[j].1 == x;
                            assert(model@[j] == m0[j]);
                        }
                        assert forall|b: int| !bit_true_in(pre, self.sat_solver, name@, b) by {
                            if bit_true_in(pre, self.sat_solver, name@, b) {
                                let w = choose|w: int| 0 <= w < pre.len() && (#[trigger] pre[w]).0.0@ == name@ && pre[w].0.1 == b
                                    && lit_true(self.sat_solver, pre[w].1);
                                assert(has_name(m0, vars[w].0.0@));
                                let j = choose|j: int| 0 <= j < m0.len() && (#[trigger] m0[j]).0@ == vars[w].0.0@;
                                assert(m0[j].0@ != name@);
                            }
                        }
                        assert forall|j: int, b: u64| 0 <= j < model@.len() && model@[j].1 is BitVec && b < 64 implies
                            (#[trigger] bit_set(model@[j].1->BitVec_0, b) <==> bit_true_in(pre, self.sat_solver, model@[j].0@, b as int)) by {
                            if j < m0.len() {
                                assert(model@[j] == m0[j]);
                            } else {
                                lemma_zero_bits(b);
                            }
                        }
                        assert forall|p: int| 0 <= p < q implies #[trigger] has_name(model@, vars[p].0.0@) by {
                            assert(has_name(m0, vars[p].0.0@));
                            let j = choose|j: int| 0 <= j < m0.len() && (#[trigger] m0[j]).0@ == vars[p].0.0@;
                            assert(model@[j] == m0[j]);
                        }
                        assert forall|a: int, c: int| 0 <= a < c < model@.len() implies model@[a].0@ != model@[c].0@ by {
                            if c == m0.len() {
                                assert(model@[a] == m0[a]);
                            } else {
                                assert(model@[a] == m0[a]);
                                assert(model@[c] == m0[c]);
                            }
                        }
                    }
                    model.len() - 1
                },
            };
            let ghost m_mid = model@;
            proof {
                assert(model@[idx as int].0@ == name@);
            }
            let updated = match &model[idx].1 {
                ModelValue::BitVec(curr, width) => {
                    let c = if bit < 64 { *curr | (val << (bit as u64)) } else { *curr };
                    let w = if bit < usize::MAX && *width < bit + 1 { bit + 1 } else { *width };
                    Some(ModelValue::BitVec(c, w))
                },
                _ => None,
            };
            match updated {
                Some(u) => {
                    let n = model[idx].0.clone();
                    let ghost m1 = model@;
                    model.set(idx, (n, u));
                    proof {
                        assert forall|n: Seq<char>, b: bool| has_entry(m1, n, ModelValue::Bool(b)) implies has_entry(model@, n, ModelValue::Bool(b)) by {
                            let j = choose|j: int| 0 <= j < m1.len() && #[trigger] m1[j].0@ == n && m1[j].1 == ModelValue::Bool(b);
                            assert(j != idx);
                            assert(model@[j] == m1[j]);
                        }
                        assert forall|j: int, b: u64| 0 <= j < model@.len() && model@[j].1 is BitVec && b < 64 implies
                            (#[trigger] bit_set(model@[j].1->BitVec_0, b) <==> bit_true_in(post, self.sat_solver, model@[j].0@, b as int)) by {
                            if j == idx {
                                let curr = m1[j].1->BitVec_0;
                                assert(bit_set(m1[j].1->BitVec_0, b) <==> bit_true_in(pre, self.sat_solver, name@, b as int));
                                if bit < 64 {
                                    lemma_or_shift_bit(curr, val, bit as u64, b);
                                }
                            } else {
                                assert(model@[j] == m1[j]);
                                assert(m1[j].0@ != name@);
                            }
                        }
                        assert forall|p: int| 0 <= p < q + 1 implies #[trigger] has_name(model@, vars[p].0.0@) by {
                            if p == q {
                                assert(model@[idx as int].0@ == name@);
                            } else {
                                assert(has_name(m1, vars[p].0.0@));
                                let j = choose|j: int| 0 <= j < m1.len() && (#[trigger] m1[j]).0@ == vars[p].0.0@;
                                if j != idx {
                                    assert(model@[j] == m1[j]);
                                }
                            }
                        }
                        assert forall|a: int, c: int| 0 <= a < c < model@.len() implies model@[a].0@ != model@[c].0@ by {
                            assert(model@[a].0@ == m1[a].0@);
                            assert(model@[c].0@ == m1[c].0@);
                        }
                    }
                },
                None => {
                    proof {
                        assert forall|j: int, b: u64| 0 <= j < model@.len() && model@[j].1 is BitVec && b < 64 implies
                            (#[trigger] bit_set(model@[j].1->BitVec_0, b) <==> bit_true_in(post, self.sat_solver, model@[j].0@, b as int)) by {
                            assert(j != idx);
                            assert(model@[j].0@ != name@);
                        }
                        assert forall|p: int| 0 <= p < q + 1 implies #[trigger] has_name(model@, vars[p].0.0@) by {
                            if p == q {
                                assert(model@[idx as int].0@ == name@);
                            }
                        }
                    }
                },
            }
            q += 1;
        }
        proof {
            assert(vars.take(vars.len() as int) == vars);
        }
        let assigns = self.lra.get_all_assignments();
        let mut t: usize = 0;
        while t < assigns.len()
            invariant
                names_distinct(model@),
                model_wf(model@),
                binds_booleans(*self, model@),
                forall|i: int| 0 <= i < assigns@.len() ==> (#[trigger] assigns@[i]).1.wf(),
                bits_agree(self.blaster.bv_vars@, self.sat_solver, model@),
            decreases assigns@.len() - t,
        {
            let name = &assigns[t].0;
            match model_find(&model, name) {
                Some(_) => {},
                None => {
                    let v = match self.lookup_symbol(name) {
                        Some(Type::Int) => ModelValue::Int(assigns[t].1.to_integer()),
                        _ => ModelValue::Real(assigns[t].1.duplicate()),
                    };
                    let ghost m0 = model@;
                    model.push((name.clone(), v));
                    proof {
                        assert forall|n: Seq<char>, x: ModelValue| has_entry(m0, n, x) implies has_entry(model@, n, x) by {
                            let j = choose|j: int| 0 <= j < m0.len() && #[trigger] m0[j].0@ == n && m0[j].1 == x;
                            assert(model@[j] == m0[j]);
                        }
                        assert forall|j: int, b: u64| 0 <= j < model@.len() && model@[j].1 is BitVec && b < 64 implies
                            (#[trigger] bit_set(model@[j].1->BitVec_0, b) <==> bit_true_in(self.blaster.bv_vars@, self.sat_solver, model@[j].0@, b as int)) by {
                            assert(j < m0.len());
                            assert(model@[j] == m0[j]);
                        }
                    }
                },
            }
            t += 1;
        }
        model
    }

    /// The model value of a literal term.
    fn literal_model_value(expr: &Expr) -> (r: Option<ModelValue>)
        ensures
            r is Some <==> (expr@ is Bool || expr@ is Int || expr@ is Real || expr@ is BvConst),
            expr@ is Bool ==> r == Some(ModelValue::Bool(expr@->Bool_0)),
            expr@ is BvConst ==> r == Some(ModelValue::BitVec(expr@->BvConst_0, expr@->BvConst_1)),
            expr@ is Int ==> (r matches Some(ModelValue::Int(n)) && n@ == expr@->Int_0),
            expr@ is Real ==> (r matches Some(ModelValue::Real(q))
                && q_eq(q@, (expr@->Real_0 as int, vstd::arithmetic::power::pow(10, expr@->Real_1 as nat)))),
    {
        match expr {
            Expr::Bool(b) => Some(ModelValue::Bool(*b)),
            Expr::Int(v) => Some(ModelValue::Int(Integer::from_i64(*v))),
            Expr::Real(v, scale) => Some(ModelValue::Real(Rational::decimal(*v, *scale))),
            Expr::BvConst(v, w) => Some(ModelValue::BitVec(*v, *w)),
            _ => None,
        }
    }

    /// The value of `expr` in the current model: a literal's own value, a symbol's model
    /// value, else the first theory solver that gives one (floating point, arithmetic,
    /// congruence, arrays, strings, nonlinear, quantifiers).
    pub fn get_value(&self, expr: &Expr) -> (r: Option<ModelValue>)
        requires
            self.wf(),
        ensures
            expr@ is Bool ==> r == Some(ModelValue::Bool(expr@->Bool_0)),
            expr@ is BvConst ==> r == Some(ModelValue::BitVec(expr@->BvConst_0, expr@->BvConst_1)),
            expr@ is Int ==> (r matches Some(ModelValue::Int(n)) && n@ == expr@->Int_0),
            expr@ is Real ==> (r matches Some(ModelValue::Real(q))
                && q_eq(q@, (expr@->Real_0 as int, vstd::arithmetic::power::pow(10, expr@->Real_1 as nat)))),
            forall|k: int| 0 <= k < self.expr_to_lit.keys@.len()
                && spec_resolve(expr@, self.symbols()) is Var
                && (#[trigger] self.expr_to_lit.keys@[k])@ is Var
                && self.expr_to_lit.keys@[k]@->Var_1 is Bool
                && self.expr_to_lit.keys@[k]@->Var_0 == spec_resolve(expr@, self.symbols())->Var_0
                ==> r == Some(ModelValue::Bool(lit_true(self.sat_solver, self.expr_to_lit.vals@[k]))),
    {
        let typed = self.resolve_expr_types(expr);
        match Self::literal_model_value(&typed) {
            Some(v) => {
                return Some(v);
            },
            None => {},
        }
        match &typed {
            Expr::Var(name, _) => {
                let model = self.get_model();
                let found = model_get(&model, name);
                proof {
                    assert forall|k: int| 0 <= k < self.expr_to_lit.keys@.len()
                        && (#[trigger] self.expr_to_lit.keys@[k])@ is Var
                        && self.expr_to_lit.keys@[k]@->Var_1 is Bool
                        && self.expr_to_lit.keys@[k]@->Var_0 == name@
                        implies found == Some(&ModelValue::Bool(lit_true(self.sat_solver, self.expr_to_lit.vals@[k]))) by {
                        let b = ModelValue::Bool(lit_true(self.sat_solver, self.expr_to_lit.vals@[k]));
                        assert(has_entry(model@, name@, b));
                        let j = choose|j: int| 0 <= j < model@.len() && #[trigger] model@[j].0@ == name@ && model@[j].1 == b;
                        let i = choose|i: int| 0 <= i < model@.len() && (#[trigger] model@[i]).1 == *found->Some_0 && model@[i].0@ == name@;
                        assert(i == j);
                    }
                }
                return match found {
                    Some(v) => Some(v.duplicate()),
                    None => None,
                };
            },
            _ => {},
        }
        match self.fp.get_model_value(&typed) {
            Some(v) => {
                return Some(v);
            },
            None => {},
        }
        match self.lra.get_model_value(&typed) {
            Some(v) => {
                return Some(v);
            },
            None => {},
        }
        match self.euf.get_model_value(&typed) {
            Some(v) => {
                return Some(v);
            },
            None => {},
        }
        match self.array.get_model_value(&typed) {
            Some(v) => {
                return Some(v);
            },
            None => {},
        }
        match self.string.get_model_value(&typed) {
            Some(v) => {
                return Some(v);
            },
            None => {},
        }
        match self.nla.get_model_value(&typed) {
            Some(v) => {
                return Some(v);
            },
            None => {},
        }
        self.quant.get_model_value(&typed)
    }

    /// Clears the theory solvers and gives them every atom that the SAT solver assigned (its
    /// negation when assigned false; Boolean symbols and applications go to the congruence
    /// solver as equalities with their value). The string solver keeps the lemmas it found
    /// when the assertions were made until they are handed out.
    fn load_assignment(&mut self)
        requires
            old(self).wf(),
        ensures
            final(self).wf(),
            final(self).same_context(old(self)),
            final(self).sat_solver == old(self).sat_solver,
            final(self).next_sat_var == old(self).next_sat_var,
    {
        self.lra.reset();
        self.euf.reset();
        self.array.reset();
        self.quant.reset();
        self.nla.reset();
        self.fp.reset();
        let mut k: usize = 0;
        while k < self.expr_to_lit.keys.len()
            invariant
                self.wf(),
                self.same_context(old(self)),
                self.sat_solver == old(self).sat_solver,
                self.next_sat_var == old(self).next_sat_var,
                self.expr_to_lit == old(self).expr_to_lit,
            decreases self.expr_to_lit.keys@.len() - k,
        {
            let lit = self.expr_to_lit.vals[k];
            let is_true = match self.sat_solver.get_lit_value(lit) {
                Assignment::True => Some(true),
                Assignment::False => Some(false),
                Assignment::Unassigned => None,
            };
            match is_true {
                Some(t) => {
                    let e = self.expr_to_lit.keys[k].clone();
                    let a = if t { e.clone() } else { Expr::Not(Box::new(e.clone())) };
                    let euf_a = self.euf_assignment_assertion(&e, t);
                    self.lra.assert_expr(&a);
                    match euf_a {
                        Some(x) => self.euf.assert_expr(&x),
                        None => self.euf.assert_expr(&a),
                    }
                    self.array.assert_expr(&a);
                    self.quant.assert_expr(&a);
                    self.string.assert_expr(&a);
                    self.nla.assert_expr(&a);
                    self.fp.assert_expr(&a);
                },
                None => {},
            }
            k += 1;
        }
    }

    /// Records a theory's conflict in the proof and learns its clause; false when the
    /// conflict is empty.
    fn report_conflict(&mut self, conflict: Vec<Expr>, theory: &str) -> (r: bool)
        requires
            old(self).wf(),
        ensures
            final(self).wf(),
            final(self).same_context(old(self)),
            final(self).next_sat_var == old(self).next_sat_var,
            r == (conflict@.len() > 0),
    {
        if conflict.len() == 0 {
            return false;
        }
        if self.proof_gen.steps.len() < usize::MAX {
            self.proof_gen.add_step(ProofStep::TheoryLemma(crate::ast::clone_exprs(&conflict), theory.to_owned()));
        }
        self.learn_conflict(&conflict);
        true
    }

    /// One round of theory reasoning on the current SAT assignment: `Some(Sat)` when every
    /// theory accepts it and no lemma is left, `Some(Unknown)` when the arithmetic solver gives
    /// up, `Some(Unsat)` when a conflict has nothing left to block; otherwise the lemmas are
    /// asserted or the conflicts learned and the search goes on (`None`).
    fn theory_round(&mut self) -> (r: Option<SolverResult>)
        requires
            old(self).wf(),
        ensures
            final(self).wf(),
            final(self).scope_stack@ == old(self).scope_stack@,
            final(self).symbol_table@ == old(self).symbol_table@,
            final(self).assertion_history@.len() >= old(self).assertion_history@.len(),
            final(self).assertion_history@.subrange(0, old(self).assertion_history@.len() as int)
                == old(self).assertion_history@,
            r == Some(SolverResult::Sat) ==> final(self).sat_solver == old(self).sat_solver,
    {
        let lra_ok = self.lra.check();
        if self.lra.is_unknown() {
            return Some(SolverResult::Unknown);
        }
        let euf_ok = self.euf.check();
        let array_ok = self.array.check();
        let string_ok = self.string.check();
        let nla_ok = self.nla.check();
        let fp_ok = self.fp.check();
        if lra_ok && euf_ok && array_ok && string_ok && nla_ok && fp_ok {
            let model = self.get_model();
            let array_lemmas = self.array.generate_lemmas();
            let quant_lemmas = self.quant.generate_lemmas(&mut self.euf, &model);
            let string_lemmas = self.string.generate_lemmas();
            if array_lemmas.len() == 0 && quant_lemmas.len() == 0 && string_lemmas.len() == 0 {
                return Some(SolverResult::Sat);
            }
            let mut all: Vec<Expr> = array_lemmas;
            let mut qs = quant_lemmas;
            let mut ss = string_lemmas;
            all.append(&mut qs);
            all.append(&mut ss);
            let mut k: usize = 0;
            while k < all.len()
                invariant
                    self.wf(),
                    self.scope_stack@ == old(self).scope_stack@,
                    self.symbol_table@ == old(self).symbol_table@,
                    self.assertion_history@.len() >= old(self).assertion_history@.len(),
                    self.assertion_history@.subrange(0, old(self).assertion_history@.len() as int)
                        == old(self).assertion_history@,
                decreases all@.len() - k,
            {
                let ghost before = self.assertion_history@;
                self.assert_expr(&all[k]);
                proof {
                    assert(self.assertion_history@.subrange(0, old(self).assertion_history@.len() as int)
                        =~= before.subrange(0, old(self).assertion_history@.len() as int));
                }
                k += 1;
            }
            return None;
        }
        let mut explanation_found = false;
        if !lra_ok {
            let c = self.lra.explain();
            explanation_found = self.report_conflict(c, "LRA") || explanation_found;
        }
        if !euf_ok {
            let c = self.euf.explain();
            explanation_found = self.report_conflict(c, "EUF") || explanation_found;
        }
        if !nla_ok {
            let c = self.nla.explain();
            explanation_found = self.report_conflict(c, "NLA") || explanation_found;
        }
        if !fp_ok {
            let c = self.fp.explain();
            explanation_found = self.report_conflict(c, "FP") || explanation_found;
        }
        if !explanation_found {
            let mut clause: Vec<i32> = Vec::new();
            let mut k: usize = 0;
            while k < self.expr_to_lit.vals.len()
                invariant
                    self.wf(),
                    lits_below(clause@, self.next_sat_var),
                decreases self.expr_to_lit.vals@.len() - k,
            {
                let lit = self.expr_to_lit.vals[k];
                match self.sat_solver.get_lit_value(lit) {
                    Assignment::True => {
                        clause.push(-lit);
                    },
                    Assignment::False => {
                        clause.push(lit);
                    },
                    Assignment::Unassigned => {},
                }
                k += 1;
            }
            if clause.len() > 0 {
                self.add_clause(clause);
            } else {
                return Some(SolverResult::Unsat);
            }
        }
        None
    }

    /// Decides the assertions: SAT search and theory checks alternate, with conflicts learned
    /// and lemmas asserted, until an answer comes. `Unknown` when the arithmetic solver gives
    /// up, the SAT solver's step budget or the variables run out, or the rounds run out.
    pub fn check(&mut self) -> (r: SolverResult)
        requires
            old(self).wf(),
        ensures
            final(self).wf(),
            final(self).scope_stack@ == old(self).scope_stack@,
            final(self).symbol_table@ == old(self).symbol_table@,
            final(self).assertion_history@.len() >= old(self).assertion_history@.len(),
            final(self).assertion_history@.subrange(0, old(self).assertion_history@.len() as int)
                == old(self).assertion_history@,
            r is Sat ==> final(self).sat_solver.ok,
            r is Sat ==> forall|k: int| 0 <= k < final(self).sat_solver.input@.len()
                ==> clause_true(final(self).sat_solver.assignments@, #[trigger] final(self).sat_solver.input@[k]@),
    {
        let mut rounds: u64 = 0;
        while rounds < CHECK_ROUNDS
            invariant
                self.wf(),
                self.scope_stack@ == old(self).scope_stack@,
                self.symbol_table@ == old(self).symbol_table@,
                self.assertion_history@.len() >= old(self).assertion_history@.len(),
                self.assertion_history@.subrange(0, old(self).assertion_history@.len() as int)
                    == old(self).assertion_history@,
            decreases CHECK_ROUNDS - rounds,
        {
            rounds += 1;
            if self.out_of_vars || self.blaster.overflow {
                return SolverResult::Unknown;
            }
            if !self.sat_solver.solve() {
                if self.sat_solver.is_exhausted() {
                    return SolverResult::Unknown;
                }
                return SolverResult::Unsat;
            }
            let ghost solved = self.sat_solver;
            self.load_assignment();
            let ghost before = self.assertion_history@;
            let step = self.theory_round();
            assert(step == Some(SolverResult::Sat) ==> self.sat_solver == solved);
            proof {
                assert(self.assertion_history@.subrange(0, old(self).assertion_history@.len() as int)
                    =~= before.subrange(0, old(self).assertion_history@.len() as int));
            }
            match step {
                Some(res) => {
                    return res;
                },
                None => {},
            }
        }
        SolverResult::Unknown
    }
}

/// A `pop` undoes everything since its `push`: from the state after a `push`, any
/// operations that keep the scope stack and only add to the assertion history (assertions,
/// declarations, checks), then a `pop`, give back the history and the scope stack from
/// before the `push`.
pub proof fn law_pop_undoes_push(before: Rz3Solver, pushed: Rz3Solver, later: Rz3Solver, popped: Rz3Solver)
    requires
        pushed.assertion_history@ == before.assertion_history@,
        pushed.scope_stack@.len() == before.scope_stack@.len() + 1,
        pushed.scope_stack@.drop_last() == before.scope_stack@,
        pushed.scope_stack@.last() == before.assertion_history@.len(),
        later.scope_stack@ == pushed.scope_stack@,
        later.assertion_history@.len() >= pushed.assertion_history@.len(),
        later.assertion_history@.subrange(0, pushed.assertion_history@.len() as int) == pushed.assertion_history@,
        popped.scope_stack@ == later.scope_stack@.drop_last(),
        popped.assertion_history@ == later.assertion_history@.subrange(0, later.scope_stack@.last() as int),
    ensures
        popped.assertion_history@ == before.assertion_history@,
        popped.scope_stack@ == before.scope_stack@,
{
    assert(later.scope_stack@.last() == before.assertion_history@.len());
    assert(popped.scope_stack@ =~= before.scope_stack@);
}

/// Each atom has one SAT variable: in a well-formed atom table two variables of the same
/// atom are equal (and [`keeps_lits`], which every encoding step ensures, keeps it so).
pub proof fn law_one_variable_per_atom(m: ExprMap<i32>, e: SExpr, l1: i32, l2: i32)
    requires
        m.wf(),
        lit_of(m, e, l1),
        lit_of(m, e, l2),
    ensures
        l1 == l2,
{
    let i = choose|i: int| 0 <= i < m.keys@.len() && m.keys@[i]@ == e && m.vals@[i] == l1;
    let j = choose|j: int| 0 <= j < m.keys@.len() && m.keys@[j]@ == e && m.vals@[j] == l2;
    if i < j {
        assert(m.keys@[i]@ != m.keys@[j]@);
    } else if j < i {
        assert(m.keys@[j]@ != m.keys@[i]@);
    }
}

/// Whether `m` binds `n` to `v`.
pub open spec fn has_entry(m: Seq<(String, ModelValue)>, n: Seq<char>, v: ModelValue) -> bool {
    exists|j: int| 0 <= j < m.len() && #[trigger] m[j].0@ == n && m[j].1 == v
}

/// Whether the SAT solver assigns the literal `l` true.
pub open spec fn lit_true(sat: CdclSolver, l: i32) -> bool {
    lit_var(l) < sat.nv() && lit_value(sat.assignments@, l) is True
}

/// Every Boolean symbol with a SAT variable is bound in `m` to its assigned value (false
/// when unassigned).
pub open spec fn binds_booleans(s: Rz3Solver, m: Seq<(String, ModelValue)>) -> bool {
    forall|k: int| 0 <= k < s.expr_to_lit.keys@.len() && (#[trigger] s.expr_to_lit.keys@[k])@ is Var
        && s.expr_to_lit.keys@[k]@->Var_1 is Bool
        ==> has_entry(m, s.expr_to_lit.keys@[k]@->Var_0, ModelValue::Bool(lit_true(s.sat_solver, s.expr_to_lit.vals@[k])))
}

/// Whether bit `b` of `v` is set.
pub open spec fn bit_set(v: u64, b: u64) -> bool {
    (v >> b) & 1u64 == 1u64
}

/// Whether one of the recorded bit variables `vars` for bit `b` of the bit-vector symbol `n`
/// has its SAT literal true.
pub open spec fn bit_true_in(vars: Seq<((String, usize), i32)>, sat: CdclSolver, n: Seq<char>, b: int) -> bool {
    exists|q: int| 0 <= q < vars.len() && (#[trigger] vars[q]).0.0@ == n && vars[q].0.1 == b
        && lit_true(sat, vars[q].1)
}

/// Every bit-vector value of `m` has exactly the bits (below 64) whose SAT literals are true.
pub open spec fn bits_agree(vars: Seq<((String, usize), i32)>, sat: CdclSolver, m: Seq<(String, ModelValue)>) -> bool {
    forall|j: int, b: u64| 0 <= j < m.len() && m[j].1 is BitVec && b < 64 ==>
        (#[trigger] bit_set(m[j].1->BitVec_0, b) <==> bit_true_in(vars, sat, m[j].0@, b as int))
}

/// Whether `m` has an entry named `n`.
pub open spec fn has_name(m: Seq<(String, ModelValue)>, n: Seq<char>) -> bool {
    exists|j: int| 0 <= j < m.len() && (#[trigger] m[j]).0@ == n
}

/// Setting bit `bit` to `val` in `c` changes only that bit.
proof fn lemma_or_shift_bit(c: u64, val: u64, bit: u64, b: u64)
    requires
        val <= 1,
        bit < 64,
        b < 64,
    ensures
        bit_set(c | (val << bit), b) <==> (bit_set(c, b) || (val == 1 && b == bit)),
{
    assert((((c | (val << bit)) >> b) & 1u64 == 1u64) <==> (((c >> b) & 1u64 == 1u64) || (val == 1 && b == bit)))
        by (bit_vector)
        requires val <= 1, bit < 64, b < 64;
}

/// Zero has no bit set.
proof fn lemma_zero_bits(b: u64)
    requires
        b < 64,
    ensures
        !bit_set(0, b),
{
    assert(((0u64 >> b) & 1u64) != 1u64) by (bit_vector);
}

/// Whether the names of a model are distinct.
pub open spec fn names_distinct(m: Seq<(String, ModelValue)>) -> bool {
    forall|i: int, j: int| 0 <= i < j < m.len() ==> m[i].0@ != m[j].0@
}

/// The position of `name` in `model`.
fn model_find(model: &Vec<(String, ModelValue)>, name: &String) -> (r: Option<usize>)
    ensures
        r matches Some(i) ==> i < model@.len() && model@[i as int].0@ == name@,
        r is None ==> forall|k: int| 0 <= k < model@.len() ==> model@[k].0@ != name@,
{
    let mut k: usize = 0;
    while k < model.len()
        invariant
            k <= model@.len(),
            forall|j: int| 0 <= j < k ==> model@[j].0@ != name@,
        decreases model@.len() - k,
    {
        if model[k].0 == *name {
            return Some(k);
        }
        k += 1;
    }
    None
}

/// Sets the value of `name` in `model`, adding it if absent.
fn model_set(model: &mut Vec<(String, ModelValue)>, name: &String, v: ModelValue)
    requires
        names_distinct(old(model)@),
        model_wf(old(model)@),
        crate::theory::quantifier::value_wf(v),
    ensures
        names_distinct(final(model)@),
        model_wf(final(model)@),
        has_entry(final(model)@, name@, v),
        forall|n: Seq<char>, x: ModelValue| n != name@ && has_entry(old(model)@, n, x) ==> has_entry(final(model)@, n, x),
        (forall|i: int| 0 <= i < old(model)@.len() ==> !((#[trigger] old(model)@[i]).1 is BitVec)) && !(v is BitVec)
            ==> forall|j: int| 0 <= j < final(model)@.len() ==> !((#[trigger] final(model)@[j]).1 is BitVec),
{
    let ghost before = model@;
    match model_find(model, name) {
        Some(i) => {
            model.set(i, (name.clone(), v));
            assert(model@[i as int].0@ == name@);
            assert forall|j: int| 0 <= j < model@.len() && j != i implies model@[j] == before[j] by {}
            assert forall|n: Seq<char>, x: ModelValue| n != name@ && has_entry(before, n, x) implies has_entry(model@, n, x) by {
                let j = choose|j: int| 0 <= j < before.len() && #[trigger] before[j].0@ == n && before[j].1 == x;
                assert(model@[j] == before[j]);
            }
        },
        None => {
            model.push((name.clone(), v));
            assert(model@[model@.len() - 1].0@ == name@);
            assert forall|n: Seq<char>, x: ModelValue| n != name@ && has_entry(before, n, x) implies has_entry(model@, n, x) by {
                let j = choose|j: int| 0 <= j < before.len() && #[trigger] before[j].0@ == n && before[j].1 == x;
                assert(model@[j] == before[j]);
            }
        },
    }
}

/// The clause `[a]`.
fn clause1(a: i32) -> (r: Vec<i32>)
    ensures
        r@ == seq![a],
{
    let mut v: Vec<i32> = Vec::new();
    v.push(a);
    v
}

/// The clause `[a, b]`.
fn clause2(a: i32, b: i32) -> (r: Vec<i32>)
    ensures
        r@ == seq![a, b],
{
    let mut v = clause1(a);
    v.push(b);
    v
}

/// The clause `[a, b, c]`.
fn clause3(a: i32, b: i32, c: i32) -> (r: Vec<i32>)
    ensures
        r@ == seq![a, b, c],
{
    let mut v = clause2(a, b);
    v.push(c);
    v
}

impl Default for Rz3Solver {
    fn default() -> (r: Rz3Solver)
        ensures
            r.wf(),
            r.assertion_history@.len() == 0,
            r.scope_stack@.len() == 0,
            r.symbols() == Map::<Seq<char>, SType>::empty(),
    {
        Rz3Solver::new()
    }
}

/// Whether the atom with value `e` has the variable `l` in `m`.
pub open spec fn lit_of(m: ExprMap<i32>, e: SExpr, l: i32) -> bool {
    exists|i: int| 0 <= i < m.keys@.len() && m.keys@[i]@ == e && m.vals@[i] == l
}

/// `new` keeps the variables that `old` gave to atoms, and a shortage of variables once met
/// stays recorded.
pub open spec fn keeps_lits(old: &Rz3Solver, new: &Rz3Solver) -> bool {
    &&& old.out_of_vars ==> new.out_of_vars
    &&& forall|e: SExpr, l: i32| #[trigger] lit_of(old.expr_to_lit, e, l) ==> lit_of(new.expr_to_lit, e, l)
}

/// Whether `l` is a literal of a variable in `1..next`.
pub open spec fn lit_below(l: i32, next: i32) -> bool {
    (1 <= l < next) || (1 <= -(l as int) < next)
}

/// Whether every literal of `v` is over a variable in `1..next`.
pub open spec fn lits_below(v: Seq<i32>, next: i32) -> bool {
    forall|k: int| 0 <= k < v.len() ==> lit_below(#[trigger] v[k], next)
}

} // verus!
