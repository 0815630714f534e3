//! Sets and maps keyed by terms, iterated in the order on terms.
use vstd::prelude::*;
use crate::ast::{Expr, SExpr};
use crate::ast::order::{expr_order, sexpr_order};

verus! {

/// Whether the terms of `s` have pairwise distinct values.
pub open spec fn distinct_views(s: Seq<Expr>) -> bool {
    forall|i: int, j: int| 0 <= i < j < s.len() ==> s[i]@ != s[j]@
}

/// Whether some term of `s` has the value `e`.
pub open spec fn has_view(s: Seq<Expr>, e: SExpr) -> bool {
    exists|i: int| 0 <= i < s.len() && #[trigger] s[i]@ == e
}

/// The index in `keys` where `e` belongs: after every key that is not above it.
fn insert_position(keys: &Vec<Expr>, e: &Expr) -> (r: usize)
    ensures
        r <= keys@.len(),
        forall|q: int| 0 <= q < r ==> sexpr_order(#[trigger] keys@[q]@, e@) != 1,
        r < keys@.len() ==> sexpr_order(keys@[r as int]@, e@) == 1,
{
    let mut i: usize = 0;
    while i < keys.len()
        invariant
            i <= keys@.len(),
            forall|q: int| 0 <= q < i ==> sexpr_order(#[trigger] keys@[q]@, e@) != 1,
        decreases keys@.len() - i,
    {
        if expr_order(&keys[i], e) == 1 {
            return i;
        }
        i += 1;
    }
    i
}

/// The index of the key with the value of `e`.
fn find_key(keys: &Vec<Expr>, e: &Expr) -> (r: Option<usize>)
    ensures
        r matches Some(i) ==> i < keys@.len() && keys@[i as int]@ == e@,
        r is None ==> !has_view(keys@, e@),
{
    let mut i: usize = 0;
    while i < keys.len()
        invariant
            i <= keys@.len(),
            forall|j: int| 0 <= j < i ==> keys@[j]@ != e@,
        decreases keys@.len() - i,
    {
        if keys[i].deep_eq(e) {
            return Some(i);
        }
        i += 1;
    }
    None
}

/// A set of terms, iterated in the order on terms.
#[derive(Debug)]
pub struct ExprSet {
    pub items: Vec<Expr>,
}

impl ExprSet {
    pub open spec fn wf(&self) -> bool {
        distinct_views(self.items@)
    }

    pub open spec fn contains(&self, e: SExpr) -> bool {
        has_view(self.items@, e)
    }

    pub fn new() -> (r: ExprSet)
        ensures
            r.wf(),
            r.items@.len() == 0,
    {
        ExprSet { items: Vec::new() }
    }

    /// Adds `e`; true when it was not present.
    pub fn insert(&mut self, e: Expr) -> (r: bool)
        requires
            old(self).wf(),
        ensures
            final(self).wf(),
            r == !old(self).contains(e@),
            forall|x: SExpr| final(self).contains(x) <==> (old(self).contains(x) || x == e@),
            final(self).items@.len() == old(self).items@.len() + if r { 1int } else { 0int },
    {
        match find_key(&self.items, &e) {
            Some(i) => {
                assert(has_view(self.items@, e@)) by {
                    assert(self.items@[i as int]@ == e@);
                }
                false
            },
            None => {
                let pos = insert_position(&self.items, &e);
                let ghost old_items = self.items@;
                let ghost ev = e@;
                self.items.insert(pos, e);
                assert forall|x: SExpr| self.contains(x) <==> (has_view(old_items, x) || x == ev) by {
                    if self.contains(x) {
                        let k = choose|k: int| 0 <= k < self.items@.len() && #[trigger] self.items@[k]@ == x;
                        if k < pos {
                            assert(old_items[k]@ == x);
                        } else if k > pos {
                            assert(old_items[k - 1]@ == x);
                        }
                    }
                    if has_view(old_items, x) {
                        let k = choose|k: int| 0 <= k < old_items.len() && #[trigger] old_items[k]@ == x;
                        if k < pos {
                            assert(self.items@[k]@ == x);
                        } else {
                            assert(self.items@[k + 1]@ == x);
                        }
                    }
                    if x == ev {
                        assert(self.items@[pos as int]@ == x);
                    }
                }
                assert forall|i: int, j: int| 0 <= i < j < self.items@.len() implies self.items@[i]@ != self.items@[j]@ by {
                    if i == pos {
                        assert(self.items@[j]@ == old_items[j - 1]@);
                    } else if j == pos {
                        assert(self.items@[i]@ == old_items[i]@);
                    } else {
                        let oi = if i < pos { i } else { i - 1 };
                        let oj = if j < pos { j } else { j - 1 };
                        assert(self.items@[i] == old_items[oi]);
                        assert(self.items@[j] == old_items[oj]);
                    }
                }
                true
            },
        }
    }

    /// Whether a term with the value of `e` is present.
    pub fn contains_expr(&self, e: &Expr) -> (r: bool)
        ensures
            r == self.contains(e@),
    {
        match find_key(&self.items, e) {
            Some(i) => {
                assert(self.items@[i as int]@ == e@);
                true
            },
            None => false,
        }
    }

    pub fn clear(&mut self)
        ensures
            final(self).wf(),
            final(self).items@.len() == 0,
    {
        self.items.clear();
    }

    pub fn len(&self) -> (r: usize)
        ensures
            r == self.items@.len(),
    {
        self.items.len()
    }
}

/// A map from terms to values, iterated in the order on terms.
#[derive(Debug)]
pub struct ExprMap<V> {
    pub keys: Vec<Expr>,
    pub vals: Vec<V>,
}

impl<V> ExprMap<V> {
    pub open spec fn wf(&self) -> bool {
        &&& distinct_views(self.keys@)
        &&& self.keys@.len() == self.vals@.len()
    }

    pub open spec fn contains(&self, e: SExpr) -> bool {
        has_view(self.keys@, e)
    }

    pub fn new() -> (r: ExprMap<V>)
        ensures
            r.wf(),
            r.keys@.len() == 0,
    {
        ExprMap { keys: Vec::new(), vals: Vec::new() }
    }

    /// The index of the key with the value of `e`.
    pub fn index_of(&self, e: &Expr) -> (r: Option<usize>)
        requires
            self.wf(),
        ensures
            r matches Some(i) ==> i < self.keys@.len() && self.keys@[i as int]@ == e@,
            r is None ==> !self.contains(e@),
    {
        find_key(&self.keys, e)
    }

    /// The value bound to the term with the value of `e`.
    pub fn get(&self, e: &Expr) -> (r: Option<&V>)
        requires
            self.wf(),
        ensures
            r is None ==> !self.contains(e@),
            r matches Some(v) ==> exists|i: int| 0 <= i < self.keys@.len() && self.keys@[i]@ == e@ && self.vals@[i] == *v,
    {
        match find_key(&self.keys, e) {
            Some(i) => Some(&self.vals[i]),
            None => None,
        }
    }

    /// Binds a new key (absent before) to `v`, keeping keys in order; returns its index.
    pub fn insert_new(&mut self, e: Expr, v: V) -> (r: usize)
        requires
            old(self).wf(),
            !old(self).contains(e@),
        ensures
            final(self).wf(),
            r < final(self).keys@.len(),
            final(self).keys@.len() == old(self).keys@.len() + 1,
            final(self).keys@[r as int]@ == e@,
            final(self).vals@[r as int] == v,
            forall|x: SExpr| final(self).contains(x) <==> (old(self).contains(x) || x == e@),
            forall|i: int| 0 <= i < r ==> #[trigger] final(self).keys@[i] == old(self).keys@[i],
            forall|i: int| 0 <= i < r ==> #[trigger] final(self).vals@[i] == old(self).vals@[i],
            forall|i: int| r < i < final(self).keys@.len() ==> #[trigger] final(self).keys@[i] == old(self).keys@[i - 1],
            forall|i: int| r < i < final(self).keys@.len() ==> #[trigger] final(self).vals@[i] == old(self).vals@[i - 1],
    {
        let pos = insert_position(&self.keys, &e);
        let ghost old_keys = self.keys@;
        let ghost ev = e@;
        self.keys.insert(pos, e);
        self.vals.insert(pos, v);
        assert forall|x: SExpr| self.contains(x) <==> (has_view(old_keys, x) || x == ev) by {
            if self.contains(x) {
                let k = choose|k: int| 0 <= k < self.keys@.len() && #[trigger] self.keys@[k]@ == x;
                if k < pos {
                    assert(old_keys[k]@ == x);
                } else if k > pos {
                    assert(old_keys[k - 1]@ == x);
                }
            }
            if has_view(old_keys, x) {
                let k = choose|k: int| 0 <= k < old_keys.len() && #[trigger] old_keys[k]@ == x;
                if k < pos {
                    assert(self.keys@[k]@ == x);
                } else {
                    assert(self.keys@[k + 1]@ == x);
                }
            }
            if x == ev {
                assert(self.keys@[pos as int]@ == x);
            }
        }
        assert forall|i: int, j: int| 0 <= i < j < self.keys@.len() implies self.keys@[i]@ != self.keys@[j]@ by {
            if i == pos {
                assert(self.keys@[j]@ == old_keys[j - 1]@);
                assert(has_view(old_keys, old_keys[j - 1]@));
            } else if j == pos {
                assert(self.keys@[i]@ == old_keys[i]@);
                assert(has_view(old_keys, old_keys[i]@));
            } else {
                let oi = if i < pos { i } else { i - 1 };
                let oj = if j < pos { j } else { j - 1 };
                assert(self.keys@[i] == old_keys[oi]);
                assert(self.keys@[j] == old_keys[oj]);
            }
        }
        pos
    }

    pub fn clear(&mut self)
        ensures
            final(self).wf(),
            final(self).keys@.len() == 0,
    {
        self.keys.clear();
        self.vals.clear();
    }

    pub fn len(&self) -> (r: usize)
        ensures
            r == self.keys@.len(),
    {
        self.keys.len()
    }
}

} // verus!
