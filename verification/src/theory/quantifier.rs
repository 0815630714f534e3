//! Universal quantifiers: instances from ground terms, from the model, and from
//! E-matching of patterns against the congruence closure.
use vstd::prelude::*;
use crate::ast::{Expr, SExpr, Type, ModelValue, Bindings};
use crate::ast::order::{string_order, lemma_chars_order_zero};
use crate::collections::ExprSet;
use crate::num::{Integer, Rational, trunc_div};
use crate::theory::euf::{EufSolver, Node};

verus! {

broadcast use vstd::std_specs::vec::group_vec_axioms;

/// A model: symbol names and their values.
pub type Model = Vec<(String, ModelValue)>;

/// The value of `name` in `model` (its first binding).
pub fn model_get<'a>(model: &'a Model, name: &String) -> (r: Option<&'a ModelValue>)
    ensures
        r is None <==> forall|k: int| 0 <= k < model@.len() ==> (#[trigger] model@[k]).0@ != name@,
        r matches Some(v) ==> exists|k: int| 0 <= k < model@.len() && (#[trigger] model@[k]).1 == *v && model@[k].0@ == name@,
{
    let mut k: usize = 0;
    while k < model.len()
        invariant
            k <= model@.len(),
            forall|q: int| 0 <= q < k ==> (#[trigger] model@[q]).0@ != name@,
        decreases model@.len() - k,
    {
        if model[k].0 == *name {
            return Some(&model[k].1);
        }
        k += 1;
    }
    None
}

/// Whether the variable `name` occurs in `expr` through applications and array reads.
pub open spec fn spec_uses_variable(e: SExpr, name: Seq<char>) -> bool
    decreases e,
{
    match e {
        SExpr::Var(n, _) => n == name,
        SExpr::App(_, args) => seq_uses_variable(args, name),
        SExpr::Select(a, i) => spec_uses_variable(*a, name) || spec_uses_variable(*i, name),
        _ => false,
    }
}

/// Whether the variable `name` occurs in some term of `s`.
pub open spec fn seq_uses_variable(s: Seq<SExpr>, name: Seq<char>) -> bool
    decreases s,
{
    if s.len() == 0 {
        false
    } else {
        seq_uses_variable(s.drop_last(), name) || spec_uses_variable(s.last(), name)
    }
}

pub proof fn lemma_seq_uses_variable(s: Seq<SExpr>, name: Seq<char>)
    ensures
        seq_uses_variable(s, name) <==> exists|i: int| 0 <= i < s.len() && #[trigger] spec_uses_variable(s[i], name),
    decreases s.len(),
{
    if s.len() > 0 {
        let t = s.drop_last();
        lemma_seq_uses_variable(t, name);
        assert forall|i: int| 0 <= i < t.len() implies #[trigger] t[i] == s[i] by {}
        if seq_uses_variable(s, name) {
            if seq_uses_variable(t, name) {
                let i = choose|i: int| 0 <= i < t.len() && #[trigger] spec_uses_variable(t[i], name);
                assert(spec_uses_variable(s[i], name));
            } else {
                assert(spec_uses_variable(s[s.len() - 1], name));
            }
        }
        if exists|i: int| 0 <= i < s.len() && #[trigger] spec_uses_variable(s[i], name) {
            let i = choose|i: int| 0 <= i < s.len() && #[trigger] spec_uses_variable(s[i], name);
            if i < s.len() - 1 {
                assert(spec_uses_variable(t[i], name));
            }
        }
    }
}

/// An instance `∀… body ⇒ body[σ]` of the quantified formula `q`.
pub open spec fn is_instance_of(lemma: SExpr, q: SExpr) -> bool {
    lemma matches SExpr::Implies(a, _) && *a == q
}

/// The quantifier solver.
pub struct QuantifierSolver {
    /// The universally quantified formulas asserted.
    pub quantifiers: Vec<Expr>,
    /// The ground terms known to the congruence closure.
    pub ground_terms: ExprSet,
    /// Every instance produced so far.
    pub instantiations: ExprSet,
    /// For each function symbol (and `select`), the ids of the ground terms it heads.
    pub pattern_index: Vec<(String, Vec<usize>)>,
}

impl QuantifierSolver {
    pub open spec fn wf(&self) -> bool {
        &&& self.ground_terms.wf()
        &&& self.instantiations.wf()
        &&& forall|k: int| 0 <= k < self.quantifiers@.len() ==> (#[trigger] self.quantifiers@[k])@ is ForAll
    }

    /// Whether every id in the pattern index is below `n`.
    pub open spec fn index_below(&self, n: int) -> bool {
        forall|k: int, q: int| 0 <= k < self.pattern_index@.len() && 0 <= q < self.pattern_index@[k].1@.len() ==>
            (#[trigger] self.pattern_index@[k].1@[q]) < n
    }

    pub fn new() -> (r: QuantifierSolver)
        ensures
            r.wf(),
            r.quantifiers@.len() == 0,
            r.instantiations.items@.len() == 0,
            r.ground_terms.items@.len() == 0,
            r.pattern_index@.len() == 0,
    {
        QuantifierSolver {
            quantifiers: Vec::new(),
            ground_terms: ExprSet::new(),
            instantiations: ExprSet::new(),
            pattern_index: Vec::new(),
        }
    }

    /// Forgets the quantifiers, ground terms and index; the instances produced stay produced.
    pub fn reset(&mut self)
        requires
            old(self).wf(),
        ensures
            final(self).wf(),
            final(self).quantifiers@.len() == 0,
            final(self).ground_terms.items@.len() == 0,
            final(self).pattern_index@.len() == 0,
            final(self).instantiations == old(self).instantiations,
    {
        self.quantifiers.clear();
        self.ground_terms.clear();
        self.pattern_index.clear();
    }

    /// Keeps `expr` when it is a universally quantified formula.
    pub fn assert_expr(&mut self, expr: &Expr)
        requires
            old(self).wf(),
        ensures
            final(self).wf(),
            final(self).instantiations == old(self).instantiations,
            expr@ is ForAll ==> final(self).quantifiers@.len() == old(self).quantifiers@.len() + 1
                && final(self).quantifiers@.last()@ == expr@,
            !(expr@ is ForAll) ==> final(self).quantifiers@ == old(self).quantifiers@,
    {
        if let Expr::ForAll(_, _) = expr {
            self.quantifiers.push(expr.clone());
        }
    }

    /// Quantifiers are handled by instantiation alone.
    pub fn check(&mut self) -> (r: bool)
        ensures
            r,
            *final(self) == *old(self),
    {
        true
    }

    pub fn explain(&self) -> (r: Vec<Expr>)
        ensures
            r@.len() == 0,
    {
        Vec::new()
    }

    pub fn get_model_value(&self, expr: &Expr) -> (r: Option<ModelValue>)
        ensures
            r is None,
    {
        None
    }

    /// Adds `id` to the index entry of `name`.
    fn index_add(&mut self, name: &String, id: usize)
        requires
            old(self).wf(),
        ensures
            final(self).wf(),
            final(self).quantifiers == old(self).quantifiers,
            final(self).ground_terms == old(self).ground_terms,
            final(self).instantiations == old(self).instantiations,
            forall|n: int| old(self).index_below(n) && id < n ==> final(self).index_below(n),
            (exists|k: int| 0 <= k < old(self).pattern_index@.len()
                && (#[trigger] old(self).pattern_index@[k]).0@ == name@
                && final(self).pattern_index@ == old(self).pattern_index@.update(k, final(self).pattern_index@[k])
                && final(self).pattern_index@[k].0 == old(self).pattern_index@[k].0
                && final(self).pattern_index@[k].1@ == old(self).pattern_index@[k].1@.push(id))
            || (exists|k: int| 0 <= k <= old(self).pattern_index@.len()
                && final(self).pattern_index@ == old(self).pattern_index@.insert(k, #[trigger] final(self).pattern_index@[k])
                && final(self).pattern_index@[k].0@ == name@
                && final(self).pattern_index@[k].1@ == seq![id]),
    {
        let mut k: usize = 0;
        while k < self.pattern_index.len()
            invariant
                self.wf(),
                *self == *old(self),
                k <= self.pattern_index@.len(),
            decreases self.pattern_index@.len() - k,
        {
            let o = string_order(&self.pattern_index[k].0, name);
            if o == 0 {
                let (nm, mut ids) = self.pattern_index.remove(k);
                let ghost e0 = ids@;
                ids.push(id);
                let ghost ne = (nm, ids);
                self.pattern_index.insert(k, (nm, ids));
                proof {
                    lemma_chars_order_zero(old(self).pattern_index@[k as int].0@, name@);
                    assert(self.pattern_index@ =~= old(self).pattern_index@.update(k as int, ne));
                    assert forall|n: int| old(self).index_below(n) && id < n implies self.index_below(n) by {
                        assert forall|a: int, q: int| 0 <= a < self.pattern_index@.len() && 0 <= q < self.pattern_index@[a].1@.len()
                            implies (#[trigger] self.pattern_index@[a].1@[q]) < n by {
                            if a != k {
                                assert(self.pattern_index@[a] == old(self).pattern_index@[a]);
                            } else if q < e0.len() {
                                assert(self.pattern_index@[a].1@[q] == old(self).pattern_index@[a].1@[q]);
                            }
                        }
                    }
                }
                return;
            }
            if o == 1 {
                break;
            }
            k += 1;
        }
        let mut ids: Vec<usize> = Vec::new();
        ids.push(id);
        let ghost before = self.pattern_index@;
        self.pattern_index.insert(k, (name.clone(), ids));
        proof {
            assert(self.pattern_index@ == before.insert(k as int, self.pattern_index@[k as int]));
            assert(self.pattern_index@[k as int].1@ =~= seq![id]);
            assert forall|n: int| old(self).index_below(n) && id < n implies self.index_below(n) by {
                assert forall|a: int, q: int| 0 <= a < self.pattern_index@.len() && 0 <= q < self.pattern_index@[a].1@.len()
                    implies (#[trigger] self.pattern_index@[a].1@[q]) < n by {
                    if a < k {
                        assert(self.pattern_index@[a] == old(self).pattern_index@[a]);
                    } else if a > k {
                        assert(self.pattern_index@[a] == old(self).pattern_index@[a - 1]);
                    }
                }
            }
        }
    }

    /// Indexes the applications and array reads of `expr` that the congruence closure knows,
    /// under their function symbol (`select` for reads).
    #[verifier::loop_isolation(false)]
    fn collect_ground_terms(&mut self, expr: &Expr, euf: &EufSolver)
        requires
            old(self).wf(),
            euf.wf(),
            old(self).index_below(euf.parent@.len() as int),
        ensures
            final(self).wf(),
            final(self).quantifiers == old(self).quantifiers,
            final(self).ground_terms == old(self).ground_terms,
            final(self).instantiations == old(self).instantiations,
            final(self).index_below(euf.parent@.len() as int),
        decreases expr,
    {
        match expr {
            Expr::App(name, args) => {
                if let Some(id) = euf.get_id_public(expr) {
                    self.index_add(name, id);
                }
                let mut k: usize = 0;
                while k < args.len()
                    invariant
                        self.wf(),
                        euf.wf(),
                        self.quantifiers == old(self).quantifiers,
                        self.ground_terms == old(self).ground_terms,
                        self.instantiations == old(self).instantiations,
                        self.index_below(euf.parent@.len() as int),
                    decreases args@.len() - k,
                {
                    proof {
                        assert(decreases_to!(*expr => args@[k as int]));
                    }
                    self.collect_ground_terms(&args[k], euf);
                    k += 1;
                }
            },
            Expr::Select(a, i) => {
                if let Some(id) = euf.get_id_public(expr) {
                    self.index_add(&"select".to_owned(), id);
                }
                self.collect_ground_terms(a, euf);
                self.collect_ground_terms(i, euf);
            },
            _ => {},
        }
    }

    /// Whether the variable `name` occurs in `expr` through applications and array reads.
    #[verifier::loop_isolation(false)]
    fn uses_variable(expr: &Expr, name: &String) -> (r: bool)
        ensures
            r == spec_uses_variable(expr@, name@),
        decreases expr,
    {
        match expr {
            Expr::Var(n, _) => *n == *name,
            Expr::App(f, args) => {
                proof {
                    crate::ast::lemma_exprs_view(args@);
                    assert(expr@ == SExpr::App(f@, crate::ast::exprs_view(args@)));
                    lemma_seq_uses_variable(crate::ast::exprs_view(args@), name@);
                }
                let mut k: usize = 0;
                while k < args.len()
                    invariant
                        k <= args@.len(),
                        crate::ast::exprs_view(args@).len() == args@.len(),
                        forall|q: int| 0 <= q < args@.len() ==> #[trigger] crate::ast::exprs_view(args@)[q] == args@[q]@,
                        forall|q: int| 0 <= q < k ==> !spec_uses_variable(#[trigger] crate::ast::exprs_view(args@)[q], name@),
                    decreases args@.len() - k,
                {
                    proof {
                        assert(decreases_to!(*expr => args@[k as int]));
                    }
                    if Self::uses_variable(&args[k], name) {
                        proof {
                            let ev = crate::ast::exprs_view(args@);
                            assert(spec_uses_variable(ev[k as int], name@));
                            assert(exists|q: int| 0 <= q < ev.len() && spec_uses_variable(#[trigger] ev[q], name@));
                        }
                        return true;
                    }
                    k += 1;
                }
                false
            },
            Expr::Select(a, i) => Self::uses_variable(a, name) || Self::uses_variable(i, name),
            _ => false,
        }
    }

    /// The pattern of a quantifier body: the body itself when it is an application or array
    /// read over a bound variable (the body as a whole otherwise).
    fn infer_patterns(body: &Expr, vars: &Vec<(String, Type)>) -> (r: Vec<Expr>)
        ensures
            r@.len() == 1,
            r@[0]@ == body@,
    {
        let mut patterns: Vec<Expr> = Vec::new();
        Self::collect_apps(body, vars, &mut patterns);
        if patterns.len() == 0 {
            patterns.push(body.clone());
        }
        patterns
    }

    /// Adds `expr` to `patterns` when it is an application or array read that uses one of
    /// `vars`.
    #[verifier::loop_isolation(false)]
    fn collect_apps(expr: &Expr, vars: &Vec<(String, Type)>, patterns: &mut Vec<Expr>)
        ensures
            ((expr@ is App || expr@ is Select) && exists|k: int| 0 <= k < vars@.len()
                && spec_uses_variable(expr@, #[trigger] vars@[k].0@)) ==> final(patterns)@.len() == old(patterns)@.len() + 1
                && final(patterns)@.last()@ == expr@,
            !((expr@ is App || expr@ is Select) && exists|k: int| 0 <= k < vars@.len()
                && spec_uses_variable(expr@, #[trigger] vars@[k].0@)) ==> final(patterns)@ == old(patterns)@,
    {
        let shape = match expr {
            Expr::App(f, a) => {
                assert(expr@ == SExpr::App(f@, crate::ast::exprs_view(a@)));
                true
            },
            Expr::Select(a, i) => {
                assert(expr@ == SExpr::Select(Box::new((**a)@), Box::new((**i)@)));
                true
            },
            _ => false,
        };
        assert(shape == (expr@ is App || expr@ is Select));
        if shape {
            let mut k: usize = 0;
            while k < vars.len()
                invariant
                    k <= vars@.len(),
                    patterns@ == old(patterns)@,
                    forall|q: int| 0 <= q < k ==> !spec_uses_variable(expr@, #[trigger] vars@[q].0@),
                decreases vars@.len() - k,
            {
                if Self::uses_variable(expr, &vars[k].0) {
                    assert(spec_uses_variable(expr@, vars@[k as int].0@));
                    patterns.push(expr.clone());
                    return;
                }
                k += 1;
            }
        }
    }

    /// The value of a model entry as a term: a Boolean, an integer or the integer part of a
    /// real (saturating to `i64`); any other value reads as `true`.
    fn model_val_to_expr(val: &ModelValue, ty: &Type) -> (r: Expr)
        requires
            val matches ModelValue::Int(i) ==> i.wf(),
            val matches ModelValue::Real(q) ==> q.wf(),
        ensures
            r == value_term(*val),
    {
        match val {
            ModelValue::Bool(b) => Expr::Bool(*b),
            ModelValue::Int(i) => Expr::Int(saturate_i64(i)),
            ModelValue::Real(q) => Expr::Real(saturate_i64(&q.to_integer()), 0),
            _ => Expr::Bool(true),
        }
    }

    /// Whether `name` is one of the bound variables.
    fn is_bound(vars: &Vec<(String, Type)>, name: &String) -> (r: bool)
        ensures
            r == exists|k: int| 0 <= k < vars@.len() && (#[trigger] vars@[k]).0@ == name@,
    {
        let mut k: usize = 0;
        while k < vars.len()
            invariant
                k <= vars@.len(),
                forall|q: int| 0 <= q < k ==> (#[trigger] vars@[q]).0@ != name@,
            decreases vars@.len() - k,
        {
            if vars[k].0 == *name {
                return true;
            }
            k += 1;
        }
        false
    }

    /// The ids of the ground terms headed by `name`.
    fn candidates(&self, name: &String) -> (r: Vec<usize>)
        ensures
            forall|n: int| self.index_below(n) ==> forall|q: int| 0 <= q < r@.len() ==> #[trigger] r@[q] < n,
            (exists|k: int| 0 <= k < self.pattern_index@.len() && (#[trigger] self.pattern_index@[k]).0@ == name@
                && r@ == self.pattern_index@[k].1@
                && forall|j: int| 0 <= j < k ==> (#[trigger] self.pattern_index@[j]).0@ != name@)
            || (r@.len() == 0 && forall|k: int| 0 <= k < self.pattern_index@.len() ==> (#[trigger] self.pattern_index@[k]).0@ != name@),
    {
        let mut k: usize = 0;
        while k < self.pattern_index.len()
            invariant
                k <= self.pattern_index@.len(),
                forall|j: int| 0 <= j < k ==> (#[trigger] self.pattern_index@[j]).0@ != name@,
            decreases self.pattern_index@.len() - k,
        {
            if self.pattern_index[k].0 == *name {
                let src = &self.pattern_index[k].1;
                let mut out: Vec<usize> = Vec::new();
                let mut q: usize = 0;
                while q < src.len()
                    invariant
                        q <= src@.len(),
                        out@ == src@.subrange(0, q as int),
                        src == &self.pattern_index@[k as int].1,
                        k < self.pattern_index@.len(),
                    decreases src@.len() - q,
                {
                    out.push(src[q]);
                    q += 1;
                    assert(out@ =~= src@.subrange(0, q as int));
                }
                assert(out@ =~= src@);
                return out;
            }
            k += 1;
        }
        Vec::new()
    }

    /// Matches `pattern` against the ground term `term_id`, extending `sub`: a bound variable
    /// matches any term (the same class when already bound), an application matches a term
    /// with the same symbol and arity whose arguments match, and any other pattern matches a
    /// term in its class.
    #[verifier::loop_isolation(false)]
    fn match_recursive(&self, pattern: &Expr, term_id: usize, sub: &mut Bindings,
        vars: &Vec<(String, Type)>, euf: &mut EufSolver) -> (r: bool)
        requires
            old(euf).wf(),
            term_id < old(euf).parent@.len(),
        ensures
            final(euf).wf(),
            final(euf).parent@.len() == old(euf).parent@.len(),
            final(euf).original_exprs@ == old(euf).original_exprs@,
            final(euf).id_to_node@ == old(euf).id_to_node@,
            final(euf).expr_to_id == old(euf).expr_to_id,
        decreases pattern, 1nat,
    {
        match pattern {
            Expr::Var(name, _) => {
                if Self::is_bound(vars, name) {
                    match sub.get(name) {
                        Some(existing) => {
                            match euf.get_id_public(existing) {
                                Some(eid) => {
                                    let a = euf.find_public(eid);
                                    let b = euf.find_public(term_id);
                                    return a == b;
                                },
                                None => {
                                    return false;
                                },
                            }
                        },
                        None => {
                            let t = euf.get_expr(term_id).clone();
                            sub.insert(name.clone(), t);
                            return true;
                        },
                    }
                }
            },
            Expr::App(p_name, p_args) => {
                let (same, t_args) = match euf.get_node(term_id) {
                    Node::App(t_name, t_args) => {
                        if *p_name == *t_name && p_args.len() == t_args.len() {
                            let mut copy: Vec<usize> = Vec::new();
                            let mut q: usize = 0;
                            while q < t_args.len()
                                invariant
                                    q <= t_args@.len(),
                                    copy@ == t_args@.subrange(0, q as int),
                                decreases t_args@.len() - q,
                            {
                                copy.push(t_args[q]);
                                q += 1;
                                assert(copy@ =~= t_args@.subrange(0, q as int));
                            }
                            assert(copy@ =~= t_args@);
                            (true, copy)
                        } else {
                            (false, Vec::new())
                        }
                    },
                    _ => (false, Vec::new()),
                };
                if same {
                    proof {
                        assert(euf.id_to_node@[term_id as int] is App);
                        assert(decreases_to!(*pattern => *p_args));
                    }
                    return self.match_args(pattern, p_args, &t_args, sub, vars, euf);
                }
                return false;
            },
            _ => {},
        }
        match euf.get_id_public(pattern) {
            Some(pid) => {
                let a = euf.find_public(pid);
                let b = euf.find_public(term_id);
                a == b
            },
            None => false,
        }
    }

    /// Matches the argument patterns `p_args` of `pattern` against the term ids `t_args`,
    /// one by one; `sub` is extended only when all match.
    #[verifier::loop_isolation(false)]
    fn match_args(&self, pattern: &Expr, p_args: &Vec<Expr>, t_args: &Vec<usize>, sub: &mut Bindings,
        vars: &Vec<(String, Type)>, euf: &mut EufSolver) -> (r: bool)
        requires
            old(euf).wf(),
            p_args@.len() == t_args@.len(),
            forall|k: int| 0 <= k < t_args@.len() ==> #[trigger] t_args@[k] < old(euf).parent@.len(),
            decreases_to!(*pattern => *p_args),
        ensures
            final(euf).wf(),
            final(euf).parent@.len() == old(euf).parent@.len(),
            final(euf).original_exprs@ == old(euf).original_exprs@,
            final(euf).id_to_node@ == old(euf).id_to_node@,
            final(euf).expr_to_id == old(euf).expr_to_id,
            !r ==> final(sub)@ == old(sub)@,
        decreases pattern, 0nat,
    {
        let mut work = Bindings { entries: crate::ast::clone_bindings(&sub.entries) };
        let mut k: usize = 0;
        while k < p_args.len()
            invariant
                euf.wf(),
                euf.parent@.len() == old(euf).parent@.len(),
                euf.original_exprs@ == old(euf).original_exprs@,
                euf.id_to_node@ == old(euf).id_to_node@,
                euf.expr_to_id == old(euf).expr_to_id,
                sub@ == old(sub)@,
                k <= p_args@.len(),
            decreases p_args@.len() - k,
        {
            proof {
                assert(decreases_to!(*p_args => p_args@[k as int]));
            }
            if !self.match_recursive(&p_args[k], t_args[k], &mut work, vars, euf) {
                return false;
            }
            k += 1;
        }
        *sub = work;
        true
    }

    /// The substitutions under which the application `pattern` matches a ground term with
    /// its symbol, binding every variable of `vars`.
    #[verifier::loop_isolation(false)]
    fn match_pattern(&self, pattern: &Expr, vars: &Vec<(String, Type)>, euf: &mut EufSolver) -> (r: Vec<Bindings>)
        requires
            old(euf).wf(),
            self.index_below(old(euf).parent@.len() as int),
        ensures
            final(euf).wf(),
            final(euf).parent@.len() == old(euf).parent@.len(),
            final(euf).original_exprs@ == old(euf).original_exprs@,
            final(euf).id_to_node@ == old(euf).id_to_node@,
            final(euf).expr_to_id == old(euf).expr_to_id,
    {
        let mut results: Vec<Bindings> = Vec::new();
        if let Expr::App(name, _) = pattern {
            let cands = self.candidates(name);
            let mut k: usize = 0;
            while k < cands.len()
                invariant
                    euf.wf(),
                    euf.parent@.len() == old(euf).parent@.len(),
                    euf.original_exprs@ == old(euf).original_exprs@,
                    euf.id_to_node@ == old(euf).id_to_node@,
                    euf.expr_to_id == old(euf).expr_to_id,
                    forall|q: int| 0 <= q < cands@.len() ==> #[trigger] cands@[q] < euf.parent@.len(),
                decreases cands@.len() - k,
            {
                let mut sub = Bindings::new();
                if self.match_recursive(pattern, cands[k], &mut sub, vars, euf) && sub.entries.len() == vars.len() {
                    results.push(sub);
                }
                k += 1;
            }
        }
        results
    }

    /// The value of `expr` under `model`, for symbols, Boolean and numeric constants,
    /// conjunctions, negations and equalities of numbers (reals equal within 10^-6).
    #[verifier::loop_isolation(false)]
    fn evaluate_expr(expr: &Expr, model: &Model) -> (r: Option<ModelValue>)
        requires
            model_wf(model@),
        ensures
            r matches Some(v) ==> value_wf(v),
        decreases expr,
    {
        match expr {
            Expr::Var(name, _) => match model_get(model, name) {
                Some(v) => Some(v.duplicate()),
                None => None,
            },
            Expr::Bool(b) => Some(ModelValue::Bool(*b)),
            Expr::Int(i) => Some(ModelValue::Int(Integer::from_i64(*i))),
            Expr::Real(m, sc) => Some(ModelValue::Real(Rational::decimal(*m, *sc))),
            Expr::And(args) => {
                let mut res = true;
                let mut k: usize = 0;
                while k < args.len()
                    invariant
                        k <= args@.len(),
                        model_wf(model@),
                    decreases args@.len() - k,
                {
                    proof {
                        assert(decreases_to!(*expr => args@[k as int]));
                    }
                    match Self::evaluate_expr(&args[k], model) {
                        Some(ModelValue::Bool(b)) => {
                            if !b {
                                res = false;
                                break;
                            }
                        },
                        _ => {
                            return None;
                        },
                    }
                    k += 1;
                }
                Some(ModelValue::Bool(res))
            },
            Expr::Not(inner) => match Self::evaluate_expr(inner, model) {
                Some(ModelValue::Bool(b)) => Some(ModelValue::Bool(!b)),
                _ => None,
            },
            Expr::Eq(a, b) => {
                let ea = Self::evaluate_expr(a, model);
                let eb = Self::evaluate_expr(b, model);
                match (ea, eb) {
                    (Some(ModelValue::Int(va)), Some(ModelValue::Int(vb))) => Some(ModelValue::Bool(va.eq_value(&vb))),
                    (Some(ModelValue::Real(va)), Some(ModelValue::Real(vb))) => {
                        let d = va.sub(&vb);
                        let mag = if d.is_negative() { d.neg() } else { d };
                        let tol = Rational::from_fraction(1, 1000000);
                        Some(ModelValue::Bool(mag.lt(&tol)))
                    },
                    _ => None,
                }
            },
            Expr::App(name, _) => match model_get(model, name) {
                Some(v) => Some(v.duplicate()),
                None => None,
            },
            _ => None,
        }
    }

    /// The substitution of the model's values for the variables of `vars` that it binds.
    fn model_substitution(vars: &Vec<(String, Type)>, model: &Model) -> (r: Bindings)
        requires
            model_wf(model@),
        ensures
            forall|x: Seq<char>| #[trigger] r@.contains_key(x) <==> ((exists|k: int| 0 <= k < vars@.len() && (#[trigger] vars@[k]).0@ == x)
                && (exists|j: int| 0 <= j < model@.len() && (#[trigger] model@[j]).0@ == x)),
            forall|x: Seq<char>| #[trigger] r@.contains_key(x) ==> exists|j: int| 0 <= j < model@.len()
                && (#[trigger] model@[j]).0@ == x && r@[x] == value_term(model@[j].1)@,
    {
        let mut sub = Bindings::new();
        let mut k: usize = 0;
        while k < vars.len()
            invariant
                k <= vars@.len(),
                model_wf(model@),
                forall|x: Seq<char>| #[trigger] sub@.contains_key(x) <==> ((exists|q: int| 0 <= q < k && (#[trigger] vars@[q]).0@ == x)
                    && (exists|j: int| 0 <= j < model@.len() && (#[trigger] model@[j]).0@ == x)),
                forall|x: Seq<char>| #[trigger] sub@.contains_key(x) ==> exists|j: int| 0 <= j < model@.len()
                    && (#[trigger] model@[j]).0@ == x && sub@[x] == value_term(model@[j].1)@,
            decreases vars@.len() - k,
        {
            let ghost before = sub@;
            if let Some(v) = model_get(model, &vars[k].0) {
                let name = vars[k].0.clone();
                let t = Self::model_val_to_expr(v, &vars[k].1);
                sub.insert(name, t);
                proof {
                    let nm = vars@[k as int].0@;
                    assert forall|x: Seq<char>| #[trigger] sub@.contains_key(x) <==> ((exists|q: int| 0 <= q < k + 1 && (#[trigger] vars@[q]).0@ == x)
                        && (exists|j: int| 0 <= j < model@.len() && (#[trigger] model@[j]).0@ == x)) by {
                        if x == nm {
                            assert(vars@[k as int].0@ == x);
                        } else if sub@.contains_key(x) {
                            assert(before.contains_key(x));
                        } else if exists|q: int| 0 <= q < k + 1 && (#[trigger] vars@[q]).0@ == x {
                            let q = choose|q: int| 0 <= q < k + 1 && (#[trigger] vars@[q]).0@ == x;
                            assert(q < k);
                        }
                    }
                    assert forall|x: Seq<char>| #[trigger] sub@.contains_key(x) implies exists|j: int| 0 <= j < model@.len()
                        && (#[trigger] model@[j]).0@ == x && sub@[x] == value_term(model@[j].1)@ by {
                        if x == nm {
                            let j = choose|j: int| 0 <= j < model@.len() && (#[trigger] model@[j]).1 == *v && model@[j].0@ == nm;
                            assert(sub@[x] == value_term(model@[j].1)@);
                        } else {
                            assert(before.contains_key(x));
                        }
                    }
                }
            } else {
                proof {
                    assert forall|x: Seq<char>| #[trigger] sub@.contains_key(x) <==> ((exists|q: int| 0 <= q < k + 1 && (#[trigger] vars@[q]).0@ == x)
                        && (exists|j: int| 0 <= j < model@.len() && (#[trigger] model@[j]).0@ == x)) by {
                        if (exists|q: int| 0 <= q < k + 1 && (#[trigger] vars@[q]).0@ == x)
                            && (exists|j: int| 0 <= j < model@.len() && (#[trigger] model@[j]).0@ == x) {
                            let q = choose|q: int| 0 <= q < k + 1 && (#[trigger] vars@[q]).0@ == x;
                            if q == k {
                                let j = choose|j: int| 0 <= j < model@.len() && (#[trigger] model@[j]).0@ == x;
                                assert(model@[j].0@ != vars@[k as int].0@);
                            }
                        }
                    }
                }
            }
            k += 1;
        }
        sub
    }

    /// Whether the quantified formula holds under the model's values for its variables; a
    /// body that does not evaluate to a Boolean counts as holding.
    fn evaluate_quantifier(expr: &Expr, model: &Model) -> (r: bool)
        requires
            model_wf(model@),
    {
        match expr {
            Expr::ForAll(vars, body) => {
                let sub = Self::model_substitution(vars, model);
                let instantiated = body.substitute(&sub);
                match Self::evaluate_expr(&instantiated, model) {
                    Some(ModelValue::Bool(b)) => b,
                    _ => true,
                }
            },
            _ => true,
        }
    }

    /// Whether every lemma of `lemmas` has been produced and is an instance of one of `qs`.
    pub open spec fn lemmas_ok(&self, lemmas: Seq<Expr>, qs: Seq<Expr>) -> bool {
        &&& forall|k: int| 0 <= k < lemmas.len() ==> self.instantiations.contains(#[trigger] lemmas[k]@)
        &&& forall|k: int| 0 <= k < lemmas.len() ==> exists|q: int| 0 <= q < qs.len()
            && is_instance_of(#[trigger] lemmas[k]@, qs[q]@)
    }

    /// Records `lemma`, an instance of `qs[qi]`, as produced, and adds it to `lemmas` when it
    /// is new.
    fn record(&mut self, lemma: Expr, lemmas: &mut Vec<Expr>, qs: Ghost<Seq<Expr>>, qi: Ghost<int>)
        requires
            old(self).wf(),
            0 <= qi@ < qs@.len(),
            is_instance_of(lemma@, qs@[qi@]@),
            old(self).lemmas_ok(old(lemmas)@, qs@),
        ensures
            final(self).wf(),
            final(self).quantifiers == old(self).quantifiers,
            final(self).ground_terms == old(self).ground_terms,
            final(self).pattern_index == old(self).pattern_index,
            forall|x: SExpr| old(self).instantiations.contains(x) ==> final(self).instantiations.contains(x),
            final(self).lemmas_ok(final(lemmas)@, qs@),
            forall|x: SExpr| final(self).instantiations.contains(x) <==> (old(self).instantiations.contains(x) || x == lemma@),
            final(lemmas)@ == if old(self).instantiations.contains(lemma@) { old(lemmas)@ } else { old(lemmas)@.push(lemma) },
    {
        let ghost lv = lemma@;
        if self.instantiations.insert(lemma.clone()) {
            lemmas.push(lemma);
            assert forall|k: int| 0 <= k < lemmas@.len() implies self.instantiations.contains(#[trigger] lemmas@[k]@) by {
                if k < old(lemmas)@.len() {
                    assert(lemmas@[k] == old(lemmas)@[k]);
                }
            }
            assert forall|k: int| 0 <= k < lemmas@.len() implies exists|q: int| 0 <= q < qs@.len()
                && is_instance_of(#[trigger] lemmas@[k]@, qs@[q]@) by {
                if k < old(lemmas)@.len() {
                    assert(lemmas@[k] == old(lemmas)@[k]);
                } else {
                    assert(is_instance_of(lemmas@[k]@, qs@[qi@]@));
                }
            }
        }
    }

    /// The instances of `q_expr` (= `qs[qi]`, quantifying `vars` over `body`) by every ground
    /// term, for each variable that the model does not bind.
    fn ground_instances(&mut self, q_expr: &Expr, vars: &Vec<(String, Type)>, body: &Expr, model: &Model,
        lemmas: &mut Vec<Expr>, qs: Ghost<Seq<Expr>>, qi: Ghost<int>)
        requires
            old(self).wf(),
            0 <= qi@ < qs@.len(),
            q_expr@ == qs@[qi@]@,
            old(self).lemmas_ok(old(lemmas)@, qs@),
        ensures
            final(self).wf(),
            final(self).quantifiers == old(self).quantifiers,
            final(self).pattern_index == old(self).pattern_index,
            forall|x: SExpr| old(self).instantiations.contains(x) ==> final(self).instantiations.contains(x),
            final(self).lemmas_ok(final(lemmas)@, qs@),
    {
        let terms = crate::ast::clone_exprs(&self.ground_terms.items);
        let mut vi: usize = 0;
        while vi < vars.len()
            invariant
                self.wf(),
                0 <= qi@ < qs@.len(),
                q_expr@ == qs@[qi@]@,
                self.quantifiers == old(self).quantifiers,
                self.pattern_index == old(self).pattern_index,
                forall|x: SExpr| old(self).instantiations.contains(x) ==> self.instantiations.contains(x),
                self.lemmas_ok(lemmas@, qs@),
            decreases vars@.len() - vi,
        {
            if model_get(model, &vars[vi].0).is_none() {
                let mut ti: usize = 0;
                while ti < terms.len()
                    invariant
                        self.wf(),
                        vi < vars@.len(),
                        0 <= qi@ < qs@.len(),
                        q_expr@ == qs@[qi@]@,
                        self.quantifiers == old(self).quantifiers,
                        self.pattern_index == old(self).pattern_index,
                        forall|x: SExpr| old(self).instantiations.contains(x) ==> self.instantiations.contains(x),
                        self.lemmas_ok(lemmas@, qs@),
                    decreases terms@.len() - ti,
                {
                    let mut sub = Bindings::new();
                    sub.insert(vars[vi].0.clone(), terms[ti].clone());
                    let inst = body.substitute(&sub);
                    let lemma = Expr::Implies(Box::new(q_expr.clone()), Box::new(inst));
                    self.record(lemma, lemmas, qs, qi);
                    ti += 1;
                }
            }
            vi += 1;
        }
    }

    /// The instances of `q_expr` (= `qs[qi]`) by every E-matching substitution of its
    /// pattern.
    fn ematch_instances(&mut self, q_expr: &Expr, vars: &Vec<(String, Type)>, body: &Expr, euf: &mut EufSolver,
        lemmas: &mut Vec<Expr>, qs: Ghost<Seq<Expr>>, qi: Ghost<int>)
        requires
            old(self).wf(),
            old(euf).wf(),
            old(self).index_below(old(euf).parent@.len() as int),
            0 <= qi@ < qs@.len(),
            q_expr@ == qs@[qi@]@,
            old(self).lemmas_ok(old(lemmas)@, qs@),
        ensures
            final(self).wf(),
            final(euf).wf(),
            final(euf).parent@.len() == old(euf).parent@.len(),
            final(self).quantifiers == old(self).quantifiers,
            final(self).pattern_index == old(self).pattern_index,
            forall|x: SExpr| old(self).instantiations.contains(x) ==> final(self).instantiations.contains(x),
            final(self).lemmas_ok(final(lemmas)@, qs@),
    {
        let patterns = Self::infer_patterns(body, vars);
        let mut pi: usize = 0;
        while pi < patterns.len()
            invariant
                self.wf(),
                euf.wf(),
                euf.parent@.len() == old(euf).parent@.len(),
                self.index_below(euf.parent@.len() as int),
                0 <= qi@ < qs@.len(),
                q_expr@ == qs@[qi@]@,
                self.quantifiers == old(self).quantifiers,
                self.pattern_index == old(self).pattern_index,
                forall|x: SExpr| old(self).instantiations.contains(x) ==> self.instantiations.contains(x),
                self.lemmas_ok(lemmas@, qs@),
            decreases patterns@.len() - pi,
        {
            let subs = self.match_pattern(&patterns[pi], vars, euf);
            let mut si: usize = 0;
            while si < subs.len()
                invariant
                    self.wf(),
                    self.index_below(euf.parent@.len() as int),
                    0 <= qi@ < qs@.len(),
                    q_expr@ == qs@[qi@]@,
                    self.quantifiers == old(self).quantifiers,
                    self.pattern_index == old(self).pattern_index,
                    forall|x: SExpr| old(self).instantiations.contains(x) ==> self.instantiations.contains(x),
                    self.lemmas_ok(lemmas@, qs@),
                decreases subs@.len() - si,
            {
                let inst = body.substitute(&subs[si]);
                let lemma = Expr::Implies(Box::new(q_expr.clone()), Box::new(inst));
                self.record(lemma, lemmas, qs, qi);
                si += 1;
            }
            pi += 1;
        }
    }

    /// Instances of the quantified formulas not produced before, each
    /// `(∀x… body) ⇒ body[σ]`: for every variable the model does not bind, one per ground
    /// term; one from the model's values when the formula is false under the model; and one
    /// per E-matching substitution of its pattern.
    pub fn generate_lemmas(&mut self, euf: &mut EufSolver, model: &Model) -> (r: Vec<Expr>)
        requires
            old(self).wf(),
            old(euf).wf(),
            model_wf(model@),
        ensures
            final(self).wf(),
            final(euf).wf(),
            forall|x: SExpr| old(self).instantiations.contains(x) ==> final(self).instantiations.contains(x),
            final(self).lemmas_ok(r@, old(self).quantifiers@),
    {
        let mut lemmas: Vec<Expr> = Vec::new();
        self.pattern_index.clear();
        let n_ids = euf.get_num_ids();
        let mut id: usize = 0;
        while id < n_ids
            invariant
                self.wf(),
                euf.wf(),
                self.quantifiers == old(self).quantifiers,
                self.instantiations == old(self).instantiations,
                self.index_below(euf.parent@.len() as int),
                n_ids == euf.original_exprs@.len(),
            decreases n_ids - id,
        {
            let e = euf.get_expr(id).clone();
            self.collect_ground_terms(&e, euf);
            self.ground_terms.insert(e);
            id += 1;
        }
        let ghost qs = self.quantifiers@;
        let nq = self.quantifiers.len();
        let mut qi: usize = 0;
        while qi < nq
            invariant
                self.wf(),
                euf.wf(),
                self.quantifiers@ == qs,
                qs == old(self).quantifiers@,
                nq == qs.len(),
                self.index_below(euf.parent@.len() as int),
                model_wf(model@),
                forall|x: SExpr| old(self).instantiations.contains(x) ==> self.instantiations.contains(x),
                self.lemmas_ok(lemmas@, qs),
            decreases nq - qi,
        {
            let q_expr = self.quantifiers[qi].clone();
            if let Expr::ForAll(vars, body) = &q_expr {
                self.ground_instances(&q_expr, vars, body, model, &mut lemmas, Ghost(qs), Ghost(qi as int));
                if !Self::evaluate_quantifier(&q_expr, model) {
                    let sub = Self::model_substitution(vars, model);
                    let inst = body.substitute(&sub);
                    let lemma = Expr::Implies(Box::new(q_expr.clone()), Box::new(inst));
                    self.record(lemma, &mut lemmas, Ghost(qs), Ghost(qi as int));
                }
                self.ematch_instances(&q_expr, vars, body, euf, &mut lemmas, Ghost(qs), Ghost(qi as int));
            }
            qi += 1;
        }
        lemmas
    }
}

/// Whether every number in a model is well formed.
pub open spec fn model_wf(m: Seq<(String, ModelValue)>) -> bool {
    forall|k: int| 0 <= k < m.len() ==> value_wf(#[trigger] m[k].1)
}

/// Whether the numbers in a value are well formed.
pub open spec fn value_wf(v: ModelValue) -> bool {
    match v {
        ModelValue::Int(i) => i.wf(),
        ModelValue::Real(q) => q.wf(),
        _ => true,
    }
}

/// `i` as an `i64`, saturating at the bounds.
/// The term for a model value: a Boolean, an integer or the integer part of a real
/// (saturating to `i64`); any other value reads as `true`.
pub open spec fn value_term(v: ModelValue) -> Expr {
    match v {
        ModelValue::Bool(b) => Expr::Bool(b),
        ModelValue::Int(i) => Expr::Int(saturated_i64(i@)),
        ModelValue::Real(q) => Expr::Real(saturated_i64(trunc_div(q@.0, q@.1)), 0),
        _ => Expr::Bool(true),
    }
}

/// `x` clamped to the range of `i64`.
pub open spec fn saturated_i64(x: int) -> i64 {
    if x < i64::MIN { i64::MIN } else if x > i64::MAX { i64::MAX } else { x as i64 }
}

fn saturate_i64(i: &Integer) -> (r: i64)
    requires
        i.wf(),
    ensures
        i64::MIN <= i@ <= i64::MAX ==> r == i@,
        r == saturated_i64(i@),
{
    match i.to_i64() {
        Some(v) => v,
        None => if i.is_negative() { i64::MIN } else { i64::MAX },
    }
}

} // verus!
