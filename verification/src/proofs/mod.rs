//! A record of the theory lemmas learned while solving.
use vstd::prelude::*;
use crate::ast::{Expr, SExpr, exprs_view};
use crate::render::{int_text, push_i64};
use crate::parser::string_from_chars;

verus! {

/// A step of a proof.
#[derive(Debug)]
pub enum ProofStep {
    Assume(Expr),
    /// The conflict clause and the name of the theory that produced it.
    TheoryLemma(Vec<Expr>, String),
    /// References to two earlier steps.
    Resolution(usize, usize),
}

/// A sequence of proof steps, referred to by index.
pub struct Proof {
    pub steps: Vec<ProofStep>,
}

impl Proof {
    pub fn new() -> (r: Proof)
        ensures
            r.steps@.len() == 0,
    {
        Proof { steps: Vec::new() }
    }

    /// Appends `step`; returns its index.
    pub fn add_step(&mut self, step: ProofStep) -> (r: usize)
        requires
            old(self).steps@.len() < usize::MAX,
        ensures
            r == old(self).steps@.len(),
            final(self).steps@ == old(self).steps@.push(step),
    {
        let id = self.steps.len();
        self.steps.push(step);
        id
    }
}

/// A clause as a DRAT proof line: each literal's decimal text followed by a space, then `0`.
pub open spec fn drat_text(lits: Seq<i32>) -> Seq<char>
    decreases lits.len(),
{
    if lits.len() == 0 {
        seq!['0']
    } else {
        int_text(lits[0] as int) + seq![' '] + drat_text(lits.drop_first())
    }
}

/// The DRAT line of a clause.
pub fn drat_line(lits: &Vec<i32>) -> (r: String)
    ensures
        r@ == drat_text(lits@),
{
    let mut out: Vec<char> = Vec::new();
    let mut k: usize = 0;
    assert(out@ + drat_text(lits@.skip(0)) =~= drat_text(lits@)) by {
        assert(lits@.skip(0) =~= lits@);
    }
    while k < lits.len()
        invariant
            k <= lits@.len(),
            out@ + drat_text(lits@.skip(k as int)) == drat_text(lits@),
        decreases lits@.len() - k,
    {
        let ghost before = out@;
        proof {
            assert(lits@.skip(k as int).drop_first() =~= lits@.skip(k + 1));
        }
        push_i64(&mut out, lits[k] as i64);
        out.push(' ');
        proof {
            assert(out@ + drat_text(lits@.skip(k + 1)) =~= before + drat_text(lits@.skip(k as int)));
        }
        k += 1;
    }
    out.push('0');
    proof {
        assert(drat_text(lits@.skip(lits@.len() as int)) == seq!['0']);
    }
    string_from_chars(&out)
}

impl Default for Proof {
    fn default() -> (r: Proof)
        ensures
            r.steps@.len() == 0,
    {
        Proof::new()
    }
}

} // verus!
