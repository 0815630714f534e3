//! Equality with uninterpreted functions: congruence closure over a union-find.
use vstd::prelude::*;
use std::collections::VecDeque;
use crate::ast::{Expr, ModelValue, SExpr, exprs_view, lemma_exprs_view};
use crate::collections::ExprMap;

verus! {

broadcast use vstd::std_specs::vec::group_vec_axioms;

/// A term node: a constant, or a function symbol applied to term ids.
#[derive(Debug, PartialEq, Eq, Hash)]
pub enum Node {
    Var(String),
    App(String, Vec<usize>),
}

/// The number of roots (`parent[i] == i`) among the first `k` nodes.
pub open spec fn count_roots(parent: Seq<usize>, k: int) -> nat
    decreases k,
{
    if k <= 0 {
        0
    } else {
        count_roots(parent, k - 1) + if parent[k - 1] == (k - 1) as usize { 1nat } else { 0nat }
    }
}

/// Counting roots is insensitive to everything but which nodes are roots.
pub proof fn lemma_count_roots_same(p: Seq<usize>, q: Seq<usize>, k: int)
    requires
        0 <= k <= p.len(),
        p.len() == q.len(),
        forall|i: int| 0 <= i < p.len() ==> (p[i] == i as usize) == (q[i] == i as usize),
    ensures
        count_roots(p, k) == count_roots(q, k),
    decreases k,
{
    if k > 0 {
        lemma_count_roots_same(p, q, k - 1);
    }
}

/// Turning one root into a non-root lowers the count by one.
pub proof fn lemma_count_roots_link(p: Seq<usize>, q: Seq<usize>, x: int, k: int)
    requires
        0 <= x < p.len(),
        0 <= k <= p.len(),
        p.len() == q.len(),
        p[x] == x as usize,
        q[x] != x as usize,
        forall|i: int| 0 <= i < p.len() && i != x ==> (p[i] == i as usize) == (q[i] == i as usize),
    ensures
        count_roots(q, k) + (if x < k { 1nat } else { 0nat }) == count_roots(p, k),
    decreases k,
{
    if k > 0 {
        lemma_count_roots_link(p, q, x, k - 1);
    }
}

/// A congruence-closure solver for equalities and disequalities of terms.
pub struct EufSolver {
    pub expr_to_id: ExprMap<usize>,
    pub id_to_node: Vec<Node>,
    pub parent: Vec<usize>,
    /// For each merged root: the root it was merged into, and why.
    pub proof_forest: Vec<Option<(usize, Expr)>>,
    pub use_list: Vec<Vec<usize>>,
    /// Signature table: function symbol and canonical argument ids, to a representative term.
    pub lookup: Vec<(String, Vec<usize>, usize)>,
    pub disequalities: Vec<(usize, usize, Expr)>,
    /// Pending merges: two ids and the reason.
    pub pending: VecDeque<(usize, usize, Option<Expr>)>,
    pub original_exprs: Vec<Expr>,
    pub inconsistent: bool,
    pub conflict: Vec<Expr>,
    /// A rank that grows strictly from a node to its parent.
    pub rank: Ghost<Seq<nat>>,
    /// A strict upper bound on the ranks.
    pub rank_bound: Ghost<nat>,
}

impl EufSolver {
    /// Structural invariant: every stored id is in range, and ranks grow toward the roots.
    pub open spec fn wf(&self) -> bool {
        let n = self.parent@.len();
        &&& self.id_to_node@.len() == n
        &&& self.proof_forest@.len() == n
        &&& self.original_exprs@.len() == n
        &&& self.use_list@.len() == n
        &&& self.rank@.len() == n
        &&& self.expr_to_id.wf()
        &&& forall|i: int| 0 <= i < self.expr_to_id.vals@.len() ==> (#[trigger] self.expr_to_id.vals@[i]) < n
        &&& forall|i: int| 0 <= i < n ==> (#[trigger] self.parent@[i]) < n
        &&& forall|i: int| 0 <= i < n ==> #[trigger] self.rank@[i] < self.rank_bound@
        &&& forall|i: int| 0 <= i < n && self.parent@[i] != i as usize ==>
            #[trigger] self.rank@[i] < self.rank@[self.parent@[i] as int]
        &&& forall|i: int, k: int| 0 <= i < n && 0 <= k < self.use_list@[i]@.len() ==> (#[trigger] self.use_list@[i]@[k]) < n
        &&& forall|i: int| 0 <= i < n ==> (#[trigger] self.id_to_node@[i]) is App ==>
            forall|k: int| 0 <= k < self.id_to_node@[i]->App_1@.len() ==> #[trigger] self.id_to_node@[i]->App_1@[k] < n
        &&& forall|k: int| 0 <= k < self.lookup@.len() ==> (#[trigger] self.lookup@[k]).2 < n
        &&& forall|k: int| 0 <= k < self.disequalities@.len() ==>
            (#[trigger] self.disequalities@[k]).0 < n && self.disequalities@[k].1 < n
        &&& forall|k: int| 0 <= k < self.pending@.len() ==>
            (#[trigger] self.pending@[k]).0 < n && self.pending@[k].1 < n
    }

    pub fn new() -> (r: EufSolver)
        ensures
            r.wf(),
            r.parent@.len() == 0,
            !r.inconsistent,
    {
        EufSolver {
            expr_to_id: ExprMap::new(),
            id_to_node: Vec::new(),
            parent: Vec::new(),
            proof_forest: Vec::new(),
            use_list: Vec::new(),
            lookup: Vec::new(),
            disequalities: Vec::new(),
            pending: VecDeque::new(),
            original_exprs: Vec::new(),
            inconsistent: false,
            conflict: Vec::new(),
            rank: Ghost(Seq::empty()),
            rank_bound: Ghost(0),
        }
    }

    /// Forgets every term and constraint.
    pub fn reset(&mut self)
        ensures
            final(self).wf(),
            final(self).parent@.len() == 0,
            final(self).disequalities@.len() == 0,
            final(self).pending@.len() == 0,
            final(self).conflict@.len() == 0,
            !final(self).inconsistent,
    {
        self.expr_to_id.clear();
        self.id_to_node.clear();
        self.parent.clear();
        self.proof_forest.clear();
        self.use_list.clear();
        self.lookup.clear();
        self.disequalities.clear();
        self.pending.clear();
        self.original_exprs.clear();
        self.inconsistent = false;
        self.conflict.clear();
        self.rank = Ghost(Seq::empty());
        self.rank_bound = Ghost(0);
    }

    /// The representative of `i`'s class, compressing the path to it.
    fn find(&mut self, i: usize) -> (r: usize)
        requires
            old(self).wf(),
            i < old(self).parent@.len(),
        ensures
            final(self).wf(),
            r < final(self).parent@.len(),
            final(self).parent@[r as int] == r,
            final(self).parent@.len() == old(self).parent@.len(),
            final(self).rank == old(self).rank,
            final(self).rank_bound == old(self).rank_bound,
            final(self).rank@[i as int] <= final(self).rank@[r as int],
            forall|k: int| 0 <= k < old(self).parent@.len() ==>
                (#[trigger] final(self).parent@[k] == k as usize) == (old(self).parent@[k] == k as usize),
            final(self).id_to_node@ == old(self).id_to_node@,
            final(self).proof_forest@ == old(self).proof_forest@,
            final(self).use_list@ == old(self).use_list@,
            final(self).lookup@ == old(self).lookup@,
            final(self).disequalities@ == old(self).disequalities@,
            final(self).pending@ == old(self).pending@,
            final(self).original_exprs@ == old(self).original_exprs@,
            final(self).expr_to_id == old(self).expr_to_id,
            final(self).inconsistent == old(self).inconsistent,
            final(self).conflict@ == old(self).conflict@,
        decreases old(self).rank_bound@ - old(self).rank@[i as int],
    {
        let p = self.parent[i];
        if p == i {
            i
        } else {
            let root = self.find(p);
            self.parent.set(i, root);
            root
        }
    }

    /// The id of `expr`, creating nodes for it and its arguments if needed.
    #[verifier::loop_isolation(false)]
    fn get_id(&mut self, expr: &Expr) -> (r: usize)
        requires
            old(self).wf(),
        ensures
            final(self).wf(),
            r < final(self).parent@.len(),
            final(self).parent@.len() >= old(self).parent@.len(),
            final(self).disequalities@ == old(self).disequalities@,
            final(self).inconsistent == old(self).inconsistent,
            forall|k: int| 0 <= k < old(self).parent@.len() ==>
                (#[trigger] final(self).parent@[k] == k as usize) == (old(self).parent@[k] == k as usize),
        decreases expr,
    {
        if let Some(id) = self.expr_to_id.get(expr) {
            return *id;
        }
        let node = match expr {
            Expr::Var(name, _) => Node::Var(name.clone()),
            Expr::App(name, args) => {
                let mut arg_ids: Vec<usize> = Vec::new();
                let mut i: usize = 0;
                while i < args.len()
                    invariant
                        self.wf(),
                        i <= args@.len(),
                        forall|k: int| 0 <= k < arg_ids@.len() ==> #[trigger] arg_ids@[k] < self.parent@.len(),
                        self.parent@.len() >= old(self).parent@.len(),
                        self.disequalities@ == old(self).disequalities@,
                        self.inconsistent == old(self).inconsistent,
                        forall|k: int| 0 <= k < old(self).parent@.len() ==>
                            (#[trigger] self.parent@[k] == k as usize) == (old(self).parent@[k] == k as usize),
                    decreases args@.len() - i,
                {
                    proof {
                        assert(decreases_to!(*expr => args@[i as int]));
                    }
                    let a = self.get_id(&args[i]);
                    arg_ids.push(a);
                    i += 1;
                }
                Node::App(name.clone(), arg_ids)
            },
            _ => Node::Var(crate::ast::debug_text(expr)),
        };
        let id = self.parent.len();
        let arg_ids: Vec<usize> = match &node {
            Node::App(_, a) => a.clone(),
            Node::Var(_) => Vec::new(),
        };
        if self.expr_to_id.index_of(expr).is_none() {
            let ghost old_vals = self.expr_to_id.vals@;
            let pos = self.expr_to_id.insert_new(expr.clone(), id);
            assert forall|i: int| 0 <= i < self.expr_to_id.vals@.len() implies (#[trigger] self.expr_to_id.vals@[i]) <= id by {
                if i < pos {
                    assert(self.expr_to_id.vals@[i] == old_vals[i]);
                } else if i > pos {
                    assert(self.expr_to_id.vals@[i] == old_vals[i - 1]);
                }
            }
        }
        self.id_to_node.push(node);
        self.parent.push(id);
        self.proof_forest.push(None);
        self.use_list.push(Vec::new());
        self.original_exprs.push(expr.clone());
        let ghost b = self.rank_bound@;
        self.rank = Ghost(self.rank@.push(b));
        self.rank_bound = Ghost(b + 1);
        assert(self.parent@[id as int] == id);
        assert(forall|i: int| 0 <= i < self.parent@.len() ==> (#[trigger] self.parent@[i]) < self.parent@.len());
        assert(forall|i: int| 0 <= i < self.parent@.len() ==> #[trigger] self.rank@[i] < self.rank_bound@);
        assert(forall|i: int| 0 <= i < self.expr_to_id.vals@.len() ==> (#[trigger] self.expr_to_id.vals@[i]) < self.parent@.len());
        assert(forall|i: int, k: int| 0 <= i < self.parent@.len() && 0 <= k < self.use_list@[i]@.len() ==> (#[trigger] self.use_list@[i]@[k]) < self.parent@.len());
        assert(forall|i: int| 0 <= i < self.parent@.len() ==> (#[trigger] self.id_to_node@[i]) is App ==>
            forall|k: int| 0 <= k < self.id_to_node@[i]->App_1@.len() ==> #[trigger] self.id_to_node@[i]->App_1@[k] < self.parent@.len());
        assert(self.wf());
        let mut k: usize = 0;
        while k < arg_ids.len()
            invariant
                self.wf(),
                id < self.parent@.len(),
                self.parent@.len() == old(self).parent@.len() + 1 || self.parent@.len() >= old(self).parent@.len(),
                self.parent@.len() >= old(self).parent@.len(),
                self.disequalities@ == old(self).disequalities@,
                self.inconsistent == old(self).inconsistent,
                forall|q: int| 0 <= q < old(self).parent@.len() ==>
                    (#[trigger] self.parent@[q] == q as usize) == (old(self).parent@[q] == q as usize),
                forall|j: int| 0 <= j < arg_ids@.len() ==> #[trigger] arg_ids@[j] < self.parent@.len(),
            decreases arg_ids@.len() - k,
        {
            let a = arg_ids[k];
            let mut l = self.use_list[a].clone();
            assert(l@ =~= self.use_list@[a as int]@);
            l.push(id);
            self.use_list.set(a, l);
            k += 1;
        }
        id
    }
}

impl EufSolver {
    /// Queues the union of the classes of `i` and `j`.
    fn merge(&mut self, i: usize, j: usize, reason: Option<Expr>)
        requires
            old(self).wf(),
            i < old(self).parent@.len(),
            j < old(self).parent@.len(),
        ensures
            final(self).wf(),
            final(self).parent@.len() == old(self).parent@.len(),
            forall|k: int| 0 <= k < old(self).parent@.len() ==>
                (#[trigger] final(self).parent@[k] == k as usize) == (old(self).parent@[k] == k as usize),
            final(self).disequalities@ == old(self).disequalities@,
            final(self).inconsistent == old(self).inconsistent,
            final(self).pending@.len() <= old(self).pending@.len() + 1,
    {
        let root_i = self.find(i);
        let root_j = self.find(j);
        if root_i != root_j {
            self.pending.push_back((root_i, root_j, reason));
        }
    }

    /// The index in the signature table of `name` applied to `args`.
    fn lookup_signature(&self, name: &String, args: &Vec<usize>) -> (r: Option<usize>)
        ensures
            r matches Some(k) ==> k < self.lookup@.len() && self.lookup@[k as int].0@ == name@
                && self.lookup@[k as int].1@ == args@,
            r is None ==> forall|k: int| 0 <= k < self.lookup@.len() ==>
                !((#[trigger] self.lookup@[k]).0@ == name@ && self.lookup@[k].1@ == args@),
    {
        let mut k: usize = 0;
        while k < self.lookup.len()
            invariant
                k <= self.lookup@.len(),
                forall|j: int| 0 <= j < k ==> !((#[trigger] self.lookup@[j]).0@ == name@ && self.lookup@[j].1@ == args@),
            decreases self.lookup@.len() - k,
        {
            let entry = &self.lookup[k];
            if entry.0 == *name && same_ids(&entry.1, args) {
                return Some(k);
            }
            k += 1;
        }
        None
    }

    /// Performs the queued unions and the merges of congruent terms that follow from them.
    #[verifier::loop_isolation(false)]
    fn process_pending(&mut self)
        requires
            old(self).wf(),
        ensures
            final(self).wf(),
            final(self).parent@.len() == old(self).parent@.len(),
            final(self).pending@.len() == 0,
            final(self).disequalities@ == old(self).disequalities@,
            final(self).inconsistent == old(self).inconsistent,
    {
        let ghost n = self.parent@.len();
        loop
            invariant
                self.wf(),
                self.parent@.len() == n,
                self.disequalities@ == old(self).disequalities@,
                self.inconsistent == old(self).inconsistent,
            decreases count_roots(self.parent@, n as int), self.pending@.len(),
        {
            let item = self.pending.pop_front();
            let (root_i, root_j, reason) = match item {
                Some(t) => t,
                None => {
                    break;
                },
            };
            let ghost roots_before = count_roots(self.parent@, n as int);
            let ghost p0 = self.parent@;
            let actual_root_i = self.find(root_i);
            let actual_root_j = self.find(root_j);
            proof {
                lemma_count_roots_same(p0, self.parent@, n as int);
            }
            if actual_root_i == actual_root_j {
                continue;
            }
            let parents_i = self.use_list[actual_root_i].clone();
            let ghost p_before = self.parent@;
            self.parent.set(actual_root_i, actual_root_j);
            proof {
                lemma_count_roots_link(p_before, self.parent@, actual_root_i as int, n as int);
                let rj = actual_root_j as int;
                let ri = actual_root_i as int;
                let new_rank = if self.rank@[rj] > self.rank@[ri] + 1 { self.rank@[rj] } else { self.rank@[ri] + 1 };
                self.rank@ = self.rank@.update(rj, new_rank);
                if self.rank_bound@ <= new_rank {
                    self.rank_bound@ = new_rank + 1;
                }
            }
            if let Some(r) = reason {
                self.proof_forest.set(actual_root_i, Some((actual_root_j, r)));
            }
            let mut merged = self.use_list[actual_root_j].clone();
            assert(merged@ =~= self.use_list@[actual_root_j as int]@);
            let mut p_i = parents_i;
            merged.append(&mut p_i);
            self.use_list.set(actual_root_j, merged);
            let affected = self.use_list[actual_root_j].clone();
            let ghost roots_mid = count_roots(self.parent@, n as int);
            let mut a: usize = 0;
            while a < affected.len()
                invariant
                    self.wf(),
                    self.parent@.len() == n,
                    count_roots(self.parent@, n as int) == roots_mid,
                    roots_mid < roots_before,
                    self.disequalities@ == old(self).disequalities@,
                    self.inconsistent == old(self).inconsistent,
                    forall|q: int| 0 <= q < affected@.len() ==> #[trigger] affected@[q] < n,
                decreases affected@.len() - a,
            {
                let p_id = affected[a];
                if let Node::App(name, args) = &self.id_to_node[p_id] {
                    let name = name.clone();
                    let args = args.clone();
                    let mut canon_args: Vec<usize> = Vec::new();
                    let mut b: usize = 0;
                    while b < args.len()
                        invariant
                            self.wf(),
                            self.parent@.len() == n,
                            count_roots(self.parent@, n as int) == roots_mid,
                            self.disequalities@ == old(self).disequalities@,
                            self.inconsistent == old(self).inconsistent,
                            forall|q: int| 0 <= q < args@.len() ==> #[trigger] args@[q] < n,
                        decreases args@.len() - b,
                    {
                        let ghost pb = self.parent@;
                        let c = self.find(args[b]);
                        proof {
                            lemma_count_roots_same(pb, self.parent@, n as int);
                        }
                        canon_args.push(c);
                        b += 1;
                    }
                    match self.lookup_signature(&name, &canon_args) {
                        Some(k) => {
                            let other_p_id = self.lookup[k].2;
                            let ghost pb = self.parent@;
                            let f1 = self.find(p_id);
                            let f2 = self.find(other_p_id);
                            proof {
                                lemma_count_roots_same(pb, self.parent@, n as int);
                            }
                            if f1 != f2 {
                                let ghost pb2 = self.parent@;
                                self.merge(p_id, other_p_id, None);
                                proof {
                                    lemma_count_roots_same(pb2, self.parent@, n as int);
                                }
                            }
                        },
                        None => {
                            self.lookup.push((name, canon_args, p_id));
                        },
                    }
                }
                a += 1;
            }
        }
    }

    /// The term with id `id`.
    pub fn get_expr(&self, id: usize) -> (r: &Expr)
        requires
            id < self.original_exprs@.len(),
        ensures
            *r == self.original_exprs@[id as int],
    {
        &self.original_exprs[id]
    }

    /// The node with id `id`.
    pub fn get_node(&self, id: usize) -> (r: &Node)
        requires
            id < self.id_to_node@.len(),
        ensures
            *r == self.id_to_node@[id as int],
    {
        &self.id_to_node[id]
    }

    /// The representative of `i`'s class.
    pub fn find_public(&mut self, i: usize) -> (r: usize)
        requires
            old(self).wf(),
            i < old(self).parent@.len(),
        ensures
            final(self).wf(),
            r < final(self).parent@.len(),
            final(self).parent@[r as int] == r,
            final(self).parent@.len() == old(self).parent@.len(),
            final(self).original_exprs@ == old(self).original_exprs@,
            final(self).id_to_node@ == old(self).id_to_node@,
            final(self).expr_to_id == old(self).expr_to_id,
            forall|k: int| 0 <= k < old(self).parent@.len() ==>
                (#[trigger] final(self).parent@[k] == k as usize) == (old(self).parent@[k] == k as usize),
            old(self).parent@[i as int] == i ==> r == i,
    {
        if self.parent[i] == i {
            return i;
        }
        self.find(i)
    }

    /// The id of a known term.
    pub fn get_id_public(&self, expr: &Expr) -> (r: Option<usize>)
        requires
            self.wf(),
        ensures
            r matches Some(i) ==> i < self.parent@.len() && exists|k: int| 0 <= k < self.expr_to_id.keys@.len()
                && self.expr_to_id.keys@[k]@ == expr@ && self.expr_to_id.vals@[k] == i,
            r is None ==> !self.expr_to_id.contains(expr@),
    {
        match self.expr_to_id.get(expr) {
            Some(i) => Some(*i),
            None => None,
        }
    }

    /// The number of term ids.
    pub fn get_num_ids(&self) -> (r: usize)
        ensures
            r == self.parent@.len(),
    {
        self.parent.len()
    }

    /// The classes: each root with its members, by ascending root.
    /// Whether no member occurs twice among `classes` (in one class or in two).
    pub open spec fn listed_once(classes: Seq<(usize, Vec<usize>)>) -> bool {
        forall|k1: int, q1: int, k2: int, q2: int|
            0 <= k1 < classes.len() && 0 <= q1 < classes[k1].1@.len()
            && 0 <= k2 < classes.len() && 0 <= q2 < classes[k2].1@.len()
            && #[trigger] classes[k1].1@[q1] == #[trigger] classes[k2].1@[q2]
            ==> k1 == k2 && q1 == q2
    }

    /// Whether one of `classes` has the key `x`.
    pub open spec fn keyed(classes: Seq<(usize, Vec<usize>)>, x: usize) -> bool {
        exists|k: int| 0 <= k < classes.len() && (#[trigger] classes[k]).0 == x
    }

    /// Whether `x` is a member of one of `classes`.
    pub open spec fn listed_in(classes: Seq<(usize, Vec<usize>)>, x: usize) -> bool {
        exists|k: int, q: int| 0 <= k < classes.len() && 0 <= q < classes[k].1@.len() && #[trigger] classes[k].1@[q] == x
    }

    pub fn get_classes(&mut self) -> (r: Vec<(usize, Vec<usize>)>)
        requires
            old(self).wf(),
        ensures
            final(self).wf(),
            final(self).parent@.len() == old(self).parent@.len(),
            forall|k: int| 0 <= k < r@.len() ==> (#[trigger] r@[k]).0 < final(self).parent@.len(),
            forall|k: int| 0 <= k < r@.len() ==> final(self).parent@[(#[trigger] r@[k]).0 as int] == r@[k].0,
            forall|a: int, b: int| 0 <= a < b < r@.len() ==> (#[trigger] r@[a]).0 < (#[trigger] r@[b]).0,
            forall|k: int| 0 <= k < r@.len() ==> (#[trigger] r@[k]).1@.len() > 0,
            forall|k: int, q: int| 0 <= k < r@.len() && 0 <= q < r@[k].1@.len() ==> (#[trigger] r@[k].1@[q]) < final(self).parent@.len(),
            forall|x: usize| x < final(self).parent@.len() ==> #[trigger] Self::listed_in(r@, x),
            forall|k: int| 0 <= k < r@.len() ==> (#[trigger] r@[k]).1@.contains(r@[k].0),
            Self::listed_once(r@),
    {
        let mut classes: Vec<(usize, Vec<usize>)> = Vec::new();
        let n = self.parent.len();
        let mut i: usize = 0;
        while i < n
            invariant
                self.wf(),
                n == self.parent@.len(),
                n == old(self).parent@.len(),
                i <= n,
                forall|k: int| 0 <= k < classes@.len() ==> (#[trigger] classes@[k]).0 < n,
                forall|k: int| 0 <= k < classes@.len() ==> self.parent@[(#[trigger] classes@[k]).0 as int] == classes@[k].0,
                forall|a: int, b: int| 0 <= a < b < classes@.len() ==> (#[trigger] classes@[a]).0 < (#[trigger] classes@[b]).0,
                forall|k: int| 0 <= k < classes@.len() ==> (#[trigger] classes@[k]).1@.len() > 0,
                forall|k: int, q: int| 0 <= k < classes@.len() && 0 <= q < classes@[k].1@.len() ==> (#[trigger] classes@[k].1@[q]) < i,
                forall|x: usize| x < i ==> #[trigger] Self::listed_in(classes@, x),
                forall|k: int| 0 <= k < classes@.len() && (#[trigger] classes@[k]).0 < i ==> classes@[k].1@.contains(classes@[k].0),
                forall|k: int| 0 <= k < classes@.len() && (#[trigger] classes@[k]).0 >= i ==> classes@[k].1@.len() >= 1,
                forall|x: usize| x < i && self.parent@[x as int] == x ==> #[trigger] Self::keyed(classes@, x),
                Self::listed_once(classes@),
            decreases n - i,
        {
            let ghost pre = self.parent@;
            let root = self.find_public(i);
            assert forall|k: int| 0 <= k < classes@.len() implies self.parent@[(#[trigger] classes@[k]).0 as int] == classes@[k].0 by {
                let c = classes@[k].0 as int;
                assert(pre[c] == c as usize);
            }
            assert forall|x: usize| x < i && self.parent@[x as int] == x implies #[trigger] Self::keyed(classes@, x) by {
                assert(pre[x as int] == x);
            }
            assert(self.parent@[i as int] == i ==> root == i) by {
                assert(self.parent@[i as int] == i ==> pre[i as int] == i);
            }
            let mut pos: usize = 0;
            while pos < classes.len() && classes[pos].0 < root
                invariant
                    pos <= classes@.len(),
                    forall|p: int| 0 <= p < pos ==> (#[trigger] classes@[p]).0 < root,
                decreases classes@.len() - pos,
            {
                pos += 1;
            }
            let found = pos < classes.len() && classes[pos].0 == root;
            let ghost before = classes@;
            if found {
                let (r0, mut members) = classes.remove(pos);
                let ghost m0 = members@;
                members.push(i);
                classes.insert(pos, (r0, members));
                proof {
                    assert(classes@ == before.update(pos as int, classes@[pos as int]));
                    assert(classes@[pos as int].1@ == m0.push(i));
                    assert(m0 == before[pos as int].1@);
                    assert forall|x: usize| x < i + 1 implies #[trigger] Self::listed_in(classes@, x) by {
                        if x == i {
                            assert(classes@[pos as int].1@[m0.len() as int] == x);
                        } else {
                            assert(Self::listed_in(before, x));
                            let (k, q) = choose|k: int, q: int|
                                0 <= k < before.len() && 0 <= q < before[k].1@.len() && #[trigger] before[k].1@[q] == x;
                            if k == pos {
                                assert(classes@[k].1@[q] == x);
                            } else {
                                assert(classes@[k] == before[k]);
                                assert(classes@[k].1@[q] == x);
                            }
                        }
                    }
                    assert forall|k: int, q: int| 0 <= k < classes@.len() && 0 <= q < classes@[k].1@.len()
                        implies (#[trigger] classes@[k].1@[q]) < i + 1 by {
                        if k != pos {
                            assert(classes@[k] == before[k]);
                        } else if q < m0.len() {
                            assert(classes@[k].1@[q] == before[k].1@[q]);
                        }
                    }
                    assert forall|a: int, b: int| 0 <= a < b < classes@.len() implies (#[trigger] classes@[a]).0 < (#[trigger] classes@[b]).0 by {
                        assert(classes@[a].0 == before[a].0);
                        assert(classes@[b].0 == before[b].0);
                    }
                    assert forall|k: int| 0 <= k < classes@.len() && (#[trigger] classes@[k]).0 < i + 1 implies classes@[k].1@.contains(classes@[k].0) by {
                        if k == pos {
                            if root == i {
                                assert(classes@[k].1@[m0.len() as int] == i);
                            } else {
                                assert(before[k].1@.contains(before[k].0));
                                let q = choose|q: int| 0 <= q < m0.len() && m0[q] == before[k].0;
                                assert(classes@[k].1@[q] == m0[q]);
                            }
                        } else {
                            assert(classes@[k] == before[k]);
                        }
                    }
                    assert forall|x: usize| x < i + 1 && self.parent@[x as int] == x implies #[trigger] Self::keyed(classes@, x) by {
                        if x == i {
                            assert(classes@[pos as int].0 == x);
                        } else {
                            assert(Self::keyed(before, x));
                            let k = choose|k: int| 0 <= k < before.len() && (#[trigger] before[k]).0 == x;
                            assert(classes@[k].0 == x);
                        }
                    }
                    assert forall|k1: int, q1: int, k2: int, q2: int|
                        0 <= k1 < classes@.len() && 0 <= q1 < classes@[k1].1@.len()
                        && 0 <= k2 < classes@.len() && 0 <= q2 < classes@[k2].1@.len()
                        && #[trigger] classes@[k1].1@[q1] == #[trigger] classes@[k2].1@[q2]
                        implies k1 == k2 && q1 == q2 by {
                        let new1 = k1 == pos && q1 == m0.len();
                        let new2 = k2 == pos && q2 == m0.len();
                        if !new1 {
                            if k1 == pos { assert(classes@[k1].1@[q1] == before[k1].1@[q1]); } else { assert(classes@[k1] == before[k1]); }
                            assert(before[k1].1@[q1] < i);
                        }
                        if !new2 {
                            if k2 == pos { assert(classes@[k2].1@[q2] == before[k2].1@[q2]); } else { assert(classes@[k2] == before[k2]); }
                            assert(before[k2].1@[q2] < i);
                        }
                        if !new1 && !new2 {
                            assert(before[k1].1@[q1] == before[k2].1@[q2]);
                        }
                    }
                }
            } else {
                let ghost one = seq![i];
                classes.insert(pos, (root, vec![i]));
                proof {
                    assert(classes@ == before.insert(pos as int, classes@[pos as int]));
                    assert(classes@[pos as int].1@ =~= one);
                    assert forall|x: usize| x < i + 1 implies #[trigger] Self::listed_in(classes@, x) by {
                        if x == i {
                            assert(classes@[pos as int].1@[0] == x);
                        } else {
                            assert(Self::listed_in(before, x));
                            let (k, q) = choose|k: int, q: int|
                                0 <= k < before.len() && 0 <= q < before[k].1@.len() && #[trigger] before[k].1@[q] == x;
                            if k < pos {
                                assert(classes@[k] == before[k]);
                                assert(classes@[k].1@[q] == x);
                            } else {
                                assert(classes@[k + 1] == before[k]);
                                assert(classes@[k + 1].1@[q] == x);
                            }
                        }
                    }
                    assert forall|k: int, q: int| 0 <= k < classes@.len() && 0 <= q < classes@[k].1@.len()
                        implies (#[trigger] classes@[k].1@[q]) < i + 1 by {
                        if k < pos {
                            assert(classes@[k] == before[k]);
                        } else if k > pos {
                            assert(classes@[k] == before[k - 1]);
                        }
                    }
                    assert forall|a: int, b: int| 0 <= a < b < classes@.len() implies (#[trigger] classes@[a]).0 < (#[trigger] classes@[b]).0 by {
                        if pos < before.len() {
                            assert(before[pos as int].0 >= root);
                            assert(before[pos as int].0 != root);
                        }
                        if a < pos && b == pos {
                            assert(classes@[a] == before[a]);
                        } else if a == pos {
                            assert(classes@[b] == before[b - 1]);
                            if pos < before.len() {
                                assert(before[pos as int].0 <= before[b - 1].0);
                            }
                        } else if b < pos {
                            assert(classes@[a] == before[a] && classes@[b] == before[b]);
                        } else if a < pos {
                            assert(classes@[a] == before[a] && classes@[b] == before[b - 1]);
                        } else {
                            assert(classes@[a] == before[a - 1] && classes@[b] == before[b - 1]);
                        }
                    }
                    assert forall|k: int| 0 <= k < classes@.len() implies (#[trigger] classes@[k]).0 < n
                        && self.parent@[classes@[k].0 as int] == classes@[k].0 && classes@[k].1@.len() > 0 by {
                        if k < pos {
                            assert(classes@[k] == before[k]);
                        } else if k > pos {
                            assert(classes@[k] == before[k - 1]);
                        }
                    }
                    if root < i {
                        assert(Self::keyed(before, root));
                        let k = choose|k: int| 0 <= k < before.len() && (#[trigger] before[k]).0 == root;
                        if k < pos {
                            assert(before[k].0 < root);
                        } else if k > pos {
                            assert(before[pos as int].0 < before[k].0);
                        }
                        assert(false);
                    }
                    assert forall|k: int| 0 <= k < classes@.len() && (#[trigger] classes@[k]).0 < i + 1 implies classes@[k].1@.contains(classes@[k].0) by {
                        if k < pos {
                            assert(classes@[k] == before[k]);
                        } else if k > pos {
                            assert(classes@[k] == before[k - 1]);
                        } else {
                            assert(classes@[k].1@[0] == i);
                        }
                    }
                    assert forall|k: int| 0 <= k < classes@.len() && (#[trigger] classes@[k]).0 >= i + 1 implies classes@[k].1@.len() >= 1 by {
                        if k < pos {
                            assert(classes@[k] == before[k]);
                        } else if k > pos {
                            assert(classes@[k] == before[k - 1]);
                        }
                    }
                    assert forall|x: usize| x < i + 1 && self.parent@[x as int] == x implies #[trigger] Self::keyed(classes@, x) by {
                        if x == i {
                            assert(classes@[pos as int].0 == x);
                        } else {
                            assert(Self::keyed(before, x));
                            let k = choose|k: int| 0 <= k < before.len() && (#[trigger] before[k]).0 == x;
                            if k < pos {
                                assert(classes@[k] == before[k]);
                            } else {
                                assert(classes@[k + 1] == before[k]);
                            }
                        }
                    }
                    assert forall|k1: int, q1: int, k2: int, q2: int|
                        0 <= k1 < classes@.len() && 0 <= q1 < classes@[k1].1@.len()
                        && 0 <= k2 < classes@.len() && 0 <= q2 < classes@[k2].1@.len()
                        && #[trigger] classes@[k1].1@[q1] == #[trigger] classes@[k2].1@[q2]
                        implies k1 == k2 && q1 == q2 by {
                        let o1 = if k1 < pos { k1 } else { k1 - 1 };
                        let o2 = if k2 < pos { k2 } else { k2 - 1 };
                        if k1 != pos {
                            assert(classes@[k1] == before[o1]);
                            assert(before[o1].1@[q1] < i);
                        }
                        if k2 != pos {
                            assert(classes@[k2] == before[o2]);
                            assert(before[o2].1@[q2] < i);
                        }
                        if k1 != pos && k2 != pos {
                            assert(before[o1].1@[q1] == before[o2].1@[q2]);
                        }
                    }
                }
            }
            i += 1;
        }
        classes
    }
}

/// Whether two id lists are equal.
fn same_ids(a: &Vec<usize>, b: &Vec<usize>) -> (r: bool)
    ensures
        r == (a@ == b@),
{
    if a.len() != b.len() {
        return false;
    }
    let mut i: usize = 0;
    while i < a.len()
        invariant
            i <= a@.len(),
            a@.len() == b@.len(),
            forall|k: int| 0 <= k < i ==> a@[k] == b@[k],
        decreases a@.len() - i,
    {
        if a[i] != b[i] {
            return false;
        }
        i += 1;
    }
    assert(a@ =~= b@);
    true
}

/// The equalities recorded on the proof forest, in the order of its nodes.
pub open spec fn forest_reasons(pf: Seq<Option<(usize, Expr)>>) -> Seq<SExpr>
    decreases pf.len(),
{
    if pf.len() == 0 {
        Seq::empty()
    } else {
        let p = forest_reasons(pf.drop_last());
        match pf.last() {
            Some((_, r)) => p.push(r@),
            None => p,
        }
    }
}

impl EufSolver {
    /// Adds an equality (merged) or a disequality (recorded); other formulas are ignored.
    pub fn assert_expr(&mut self, expr: &Expr)
        requires
            old(self).wf(),
        ensures
            final(self).wf(),
            final(self).inconsistent == old(self).inconsistent,
    {
        if self.inconsistent {
            return;
        }
        match expr {
            Expr::Eq(a, b) => {
                let id_a = self.get_id(a);
                let id_b = self.get_id(b);
                self.merge(id_a, id_b, Some(expr.clone()));
            },
            Expr::Not(inner) => {
                if let Expr::Eq(a, b) = &**inner {
                    let id_a = self.get_id(a);
                    let id_b = self.get_id(b);
                    self.disequalities.push((id_a, id_b, expr.clone()));
                }
            },
            _ => {},
        }
    }

    /// The disequality `d` followed by every equality recorded on the proof forest.
    fn conflict_with(&self, d: &Expr) -> (r: Vec<Expr>)
        ensures
            exprs_view(r@) == seq![d@] + forest_reasons(self.proof_forest@),
    {
        let mut c: Vec<Expr> = Vec::new();
        c.push(d.clone());
        proof {
            lemma_exprs_view(c@);
            assert(exprs_view(c@) =~= seq![d@]);
            assert(self.proof_forest@.take(0) =~= Seq::<Option<(usize, Expr)>>::empty());
        }
        let mut q: usize = 0;
        while q < self.proof_forest.len()
            invariant
                q <= self.proof_forest@.len(),
                exprs_view(c@) == seq![d@] + forest_reasons(self.proof_forest@.take(q as int)),
            decreases self.proof_forest@.len() - q,
        {
            proof {
                assert(self.proof_forest@.take(q + 1).drop_last() == self.proof_forest@.take(q as int));
            }
            let ghost c0 = c@;
            if let Some((_, reason)) = &self.proof_forest[q] {
                c.push(reason.clone());
                proof {
                    lemma_exprs_view(c0);
                    lemma_exprs_view(c@);
                    assert(exprs_view(c@) =~= exprs_view(c0).push(reason@));
                }
            }
            q += 1;
        }
        assert(self.proof_forest@.take(self.proof_forest@.len() as int) == self.proof_forest@);
        c
    }

    /// Whether the equalities and disequalities are consistent; on a conflict the
    /// explanation is the violated disequality followed by the equalities that were merged
    /// (each recorded on the proof forest), which together contradict each other.
    pub fn check(&mut self) -> (r: bool)
        requires
            old(self).wf(),
        ensures
            final(self).wf(),
            r == !final(self).inconsistent,
            old(self).inconsistent ==> !r,
            !r && !old(self).inconsistent ==> exists|k: int| 0 <= k < final(self).disequalities@.len()
                && exprs_view(final(self).conflict@)
                    == seq![(#[trigger] final(self).disequalities@[k]).2@] + forest_reasons(final(self).proof_forest@),
    {
        if self.inconsistent {
            return false;
        }
        self.process_pending();
        let diseqs = clone_diseqs(&self.disequalities);
        let mut k: usize = 0;
        while k < diseqs.len()
            invariant
                self.wf(),
                !self.inconsistent,
                diseqs@.len() == self.disequalities@.len(),
                forall|q: int| 0 <= q < diseqs@.len() ==> #[trigger] diseqs@[q].0 < self.parent@.len() && diseqs@[q].1 < self.parent@.len(),
                forall|q: int| 0 <= q < diseqs@.len() ==> (#[trigger] diseqs@[q]).2@ == self.disequalities@[q].2@,
            decreases diseqs@.len() - k,
        {
            let d1 = diseqs[k].0;
            let d2 = diseqs[k].1;
            let f1 = self.find(d1);
            let f2 = self.find(d2);
            if f1 == f2 {
                let c = self.conflict_with(&diseqs[k].2);
                self.inconsistent = true;
                self.conflict = c;
                return false;
            }
            k += 1;
        }
        true
    }

    /// The conflict found by the last failed `check`.
    pub fn explain(&self) -> (r: Vec<Expr>)
        ensures
            r@.len() == self.conflict@.len(),
            forall|k: int| 0 <= k < r@.len() ==> #[trigger] r@[k]@ == self.conflict@[k]@,
    {
        crate::ast::clone_exprs(&self.conflict)
    }

    /// This theory assigns no model values.
    pub fn get_model_value(&self, expr: &Expr) -> (r: Option<ModelValue>)
        ensures
            r is None,
    {
        None
    }
}

/// A copy of a disequality list.
fn clone_diseqs(v: &Vec<(usize, usize, Expr)>) -> (r: Vec<(usize, usize, Expr)>)
    ensures
        r@.len() == v@.len(),
        forall|k: int| 0 <= k < v@.len() ==> (#[trigger] r@[k]).0 == v@[k].0 && r@[k].1 == v@[k].1 && r@[k].2@ == v@[k].2@,
{
    let mut out: Vec<(usize, usize, Expr)> = Vec::new();
    let mut i: usize = 0;
    while i < v.len()
        invariant
            i <= v@.len(),
            out@.len() == i,
            forall|k: int| 0 <= k < i ==> (#[trigger] out@[k]).0 == v@[k].0 && out@[k].1 == v@[k].1 && out@[k].2@ == v@[k].2@,
        decreases v@.len() - i,
    {
        out.push((v[i].0, v[i].1, v[i].2.clone()));
        i += 1;
    }
    out
}

} // verus!
