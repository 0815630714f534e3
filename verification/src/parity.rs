//! Comparing the solver's answers on a script with those of a reference solver: running a
//! script, reading the reference's output, and the report's text.
use vstd::prelude::*;
use crate::ast::Type;
use crate::parser::{Command, Parser, chars_of, string_from_chars, char_is_whitespace, white_space};
use crate::{Rz3Solver, SolverResult};

verus! {

broadcast use vstd::std_specs::vec::group_vec_axioms;

/// The answer to one `check-sat`.
#[derive(Debug, Clone, Copy, PartialEq, Eq, Structural)]
pub enum CheckResult {
    Sat,
    Unsat,
    Unknown,
}

/// How a case compares with the reference.
#[derive(Debug, PartialEq, Eq)]
pub enum CaseStatus {
    Match,
    Mismatch,
    ReferenceUnavailable,
    Rz3Error(String),
    Z3Error(String),
}

/// Why the reference gave no answers.
#[derive(Debug, PartialEq, Eq)]
pub enum Z3RunError {
    /// The reference solver is not installed.
    Unavailable,
    Failed(String),
}

/// `s` without its leading white space.
pub open spec fn trim_start(s: Seq<char>) -> Seq<char>
    decreases s.len(),
{
    if s.len() > 0 && white_space(s[0]) {
        trim_start(s.drop_first())
    } else {
        s
    }
}

/// `s` without its trailing white space.
pub open spec fn trim_end(s: Seq<char>) -> Seq<char>
    decreases s.len(),
{
    if s.len() > 0 && white_space(s.last()) {
        trim_end(s.drop_last())
    } else {
        s
    }
}

/// The answer that a line of the reference's output gives, white space around it aside.
pub open spec fn result_of_line(line: Seq<char>) -> Option<CheckResult> {
    let t = trim_end(trim_start(line));
    if t == "sat"@ {
        Some(CheckResult::Sat)
    } else if t == "unsat"@ {
        Some(CheckResult::Unsat)
    } else if t == "unknown"@ {
        Some(CheckResult::Unknown)
    } else {
        None
    }
}

/// The lines of `s`: the pieces between line feeds.
pub open spec fn split_lines(s: Seq<char>) -> Seq<Seq<char>>
    decreases s.len(),
{
    if s.len() == 0 {
        seq![Seq::<char>::empty()]
    } else {
        let prev = split_lines(s.drop_last());
        if s.last() == '\n' {
            prev.push(Seq::<char>::empty())
        } else {
            prev.update(prev.len() - 1, prev.last().push(s.last()))
        }
    }
}

/// The answers that the lines give, in order.
pub open spec fn results_of(ls: Seq<Seq<char>>) -> Seq<CheckResult>
    decreases ls.len(),
{
    if ls.len() == 0 {
        seq![]
    } else {
        let prev = results_of(ls.drop_last());
        match result_of_line(ls.last()) {
            Some(r) => prev.push(r),
            None => prev,
        }
    }
}

proof fn lemma_split_lines_nonempty(s: Seq<char>)
    ensures
        split_lines(s).len() >= 1,
    decreases s.len(),
{
    if s.len() > 0 {
        lemma_split_lines_nonempty(s.drop_last());
    }
}

/// The answer on one line of the reference's output: `sat`, `unsat` or `unknown`, white
/// space around it aside.
pub fn parse_result_line(line: &str) -> (r: Option<CheckResult>)
    ensures
        r == result_of_line(line@),
{
    let chars = chars_of(line);
    line_result(&chars)
}

fn line_result(chars: &Vec<char>) -> (r: Option<CheckResult>)
    ensures
        r == result_of_line(chars@),
{
    let n = chars.len();
    let mut start: usize = 0;
    assert(chars@.subrange(0, n as int) =~= chars@);
    while start < n && char_is_whitespace(chars[start])
        invariant
            start <= n,
            n == chars@.len(),
            trim_start(chars@) == trim_start(chars@.subrange(start as int, n as int)),
        decreases n - start,
    {
        assert(chars@.subrange(start as int, n as int).drop_first() =~= chars@.subrange(start + 1, n as int));
        start += 1;
    }
    let mut end: usize = n;
    assert(trim_start(chars@) == chars@.subrange(start as int, n as int));
    while end > start && char_is_whitespace(chars[end - 1])
        invariant
            start <= end <= n,
            n == chars@.len(),
            trim_end(trim_start(chars@)) == trim_end(chars@.subrange(start as int, end as int)),
        decreases end,
    {
        assert(chars@.subrange(start as int, end as int).drop_last() =~= chars@.subrange(start as int, end - 1));
        end -= 1;
    }
    let mut t: Vec<char> = Vec::new();
    let mut k = start;
    while k < end
        invariant
            start <= k <= end,
            end <= n,
            n == chars@.len(),
            t@ == chars@.subrange(start as int, k as int),
        decreases end - k,
    {
        t.push(chars[k]);
        assert(t@ =~= chars@.subrange(start as int, k + 1));
        k += 1;
    }
    assert(trim_end(trim_start(chars@)) == t@);
    let text = string_from_chars(&t);
    if text == "sat".to_owned() {
        Some(CheckResult::Sat)
    } else if text == "unsat".to_owned() {
        Some(CheckResult::Unsat)
    } else if text == "unknown".to_owned() {
        Some(CheckResult::Unknown)
    } else {
        None
    }
}

/// The answers in the reference's output, one per line that holds one; `None` when there
/// are none.
pub fn parse_z3_stdout(stdout: &str) -> (r: Option<Vec<CheckResult>>)
    ensures
        r is None <==> results_of(split_lines(stdout@)).len() == 0,
        r matches Some(v) ==> v@ == results_of(split_lines(stdout@)),
{
    let chars = chars_of(stdout);
    let ghost s = chars@;
    let mut results: Vec<CheckResult> = Vec::new();
    let mut cur: Vec<char> = Vec::new();
    let mut i: usize = 0;
    proof {
        assert(s.take(0) =~= Seq::<char>::empty());
    }
    while i < chars.len()
        invariant
            i <= s.len(),
            s == chars@,
            split_lines(s.take(i as int)).len() >= 1,
            cur@ == split_lines(s.take(i as int)).last(),
            results@ == results_of(split_lines(s.take(i as int)).drop_last()),
        decreases s.len() - i,
    {
        let c = chars[i];
        let ghost prev = split_lines(s.take(i as int));
        proof {
            assert(s.take(i + 1).drop_last() =~= s.take(i as int));
            assert(s.take(i + 1).last() == c);
            lemma_split_lines_nonempty(s.take(i as int));
        }
        if c == '\n' {
            proof {
                let next = split_lines(s.take(i + 1));
                assert(next == prev.push(Seq::<char>::empty()));
                assert(next.drop_last() =~= prev);
                assert(prev =~= prev.drop_last().push(prev.last()));
            }
            match line_result(&cur) {
                Some(r) => {
                    results.push(r);
                },
                None => {},
            }
            cur = Vec::new();
        } else {
            proof {
                let next = split_lines(s.take(i + 1));
                assert(next == prev.update(prev.len() - 1, prev.last().push(c)));
                assert(next.drop_last() =~= prev.drop_last());
            }
            cur.push(c);
        }
        i += 1;
    }
    proof {
        assert(s.take(s.len() as int) =~= s);
        let ls = split_lines(s);
        assert(ls =~= ls.drop_last().push(ls.last()));
    }
    match line_result(&cur) {
        Some(r) => {
            results.push(r);
        },
        None => {},
    }
    if results.len() == 0 {
        None
    } else {
        Some(results)
    }
}

/// The word of an answer.
pub open spec fn result_word(r: CheckResult) -> Seq<char> {
    match r {
        CheckResult::Sat => "sat"@,
        CheckResult::Unsat => "unsat"@,
        CheckResult::Unknown => "unknown"@,
    }
}

/// The answers' words, separated by commas.
pub open spec fn results_text(s: Seq<CheckResult>) -> Seq<char>
    decreases s.len(),
{
    if s.len() == 0 {
        seq![]
    } else if s.len() == 1 {
        result_word(s[0])
    } else {
        results_text(s.drop_last()) + seq![','] + result_word(s.last())
    }
}

fn push_word(out: &mut Vec<char>, word: &str)
    ensures
        final(out)@ == old(out)@ + word@,
{
    let w = chars_of(word);
    let mut k: usize = 0;
    while k < w.len()
        invariant
            k <= w@.len(),
            w@ == word@,
            out@ == old(out)@ + w@.take(k as int),
        decreases w@.len() - k,
    {
        out.push(w[k]);
        assert(out@ =~= old(out)@ + w@.take(k + 1));
        k += 1;
    }
    assert(w@.take(w@.len() as int) =~= w@);
}

fn word_of(r: CheckResult) -> (s: &'static str)
    ensures
        s@ == result_word(r),
{
    match r {
        CheckResult::Sat => "sat",
        CheckResult::Unsat => "unsat",
        CheckResult::Unknown => "unknown",
    }
}

/// The answers' words joined with commas, as the report shows them.
pub fn format_results(results: &Vec<CheckResult>) -> (r: String)
    ensures
        r@ == results_text(results@),
{
    let mut out: Vec<char> = Vec::new();
    let mut k: usize = 0;
    while k < results.len()
        invariant
            k <= results@.len(),
            out@ == results_text(results@.take(k as int)),
        decreases results@.len() - k,
    {
        proof {
            assert(results@.take(k + 1).drop_last() =~= results@.take(k as int));
        }
        if k > 0 {
            out.push(',');
        }
        push_word(&mut out, word_of(results[k]));
        proof {
            if k == 0 {
                assert(out@ =~= results_text(results@.take(1)));
            } else {
                assert(out@ =~= results_text(results@.take(k + 1)));
            }
        }
        k += 1;
    }
    assert(results@.take(results@.len() as int) =~= results@);
    string_from_chars(&out)
}

/// The report's text for a status.
pub open spec fn status_text(s: CaseStatus) -> Seq<char> {
    match s {
        CaseStatus::Match => "match"@,
        CaseStatus::Mismatch => "mismatch"@,
        CaseStatus::ReferenceUnavailable => "reference-unavailable"@,
        CaseStatus::Rz3Error(e) => "rz3-error:"@ + e@,
        CaseStatus::Z3Error(e) => "z3-error:"@ + e@,
    }
}

/// The report's text for a status: its name, and for an error the message after a colon.
pub fn format_status(status: &CaseStatus) -> (r: String)
    ensures
        r@ == status_text(*status),
{
    let mut out: Vec<char> = Vec::new();
    match status {
        CaseStatus::Match => push_word(&mut out, "match"),
        CaseStatus::Mismatch => push_word(&mut out, "mismatch"),
        CaseStatus::ReferenceUnavailable => push_word(&mut out, "reference-unavailable"),
        CaseStatus::Rz3Error(e) => {
            push_word(&mut out, "rz3-error:");
            push_word(&mut out, e.as_str());
        },
        CaseStatus::Z3Error(e) => {
            push_word(&mut out, "z3-error:");
            push_word(&mut out, e.as_str());
        },
    }
    string_from_chars(&out)
}

/// The answer as the report names it.
pub fn convert_result(result: SolverResult) -> (r: CheckResult)
    ensures
        result is Sat ==> r is Sat,
        result is Unsat ==> r is Unsat,
        result is Unknown ==> r is Unknown,
{
    match result {
        SolverResult::Sat => CheckResult::Sat,
        SolverResult::Unsat => CheckResult::Unsat,
        SolverResult::Unknown => CheckResult::Unknown,
    }
}

/// How a case compares: an error of the solver first, then an unavailable or failed
/// reference, then whether the answers agree.
pub fn case_status(rz3: &Result<Vec<CheckResult>, String>, z3: &Result<Vec<CheckResult>, Z3RunError>) -> (r: CaseStatus)
    ensures
        rz3 is Err ==> (r matches CaseStatus::Rz3Error(m) && m@ == rz3->Err_0@),
        rz3 is Ok && (z3 matches Err(Z3RunError::Unavailable)) ==> r == CaseStatus::ReferenceUnavailable,
        rz3 is Ok && z3 is Err && z3->Err_0 is Failed ==> (r matches CaseStatus::Z3Error(m) && m@ == z3->Err_0->Failed_0@),
        rz3 is Ok && z3 is Ok ==> (r == CaseStatus::Match <==> rz3->Ok_0@ == z3->Ok_0@),
        rz3 is Ok && z3 is Ok ==> (r == CaseStatus::Match || r == CaseStatus::Mismatch),
{
    match (rz3, z3) {
        (Err(e), _) => CaseStatus::Rz3Error(e.clone()),
        (Ok(_), Err(Z3RunError::Unavailable)) => CaseStatus::ReferenceUnavailable,
        (Ok(_), Err(Z3RunError::Failed(e))) => CaseStatus::Z3Error(e.clone()),
        (Ok(a), Ok(b)) => if results_eq(a, b) { CaseStatus::Match } else { CaseStatus::Mismatch },
    }
}

fn results_eq(a: &Vec<CheckResult>, b: &Vec<CheckResult>) -> (r: bool)
    ensures
        r == (a@ == b@),
{
    if a.len() != b.len() {
        return false;
    }
    let mut k: usize = 0;
    while k < a.len()
        invariant
            k <= a@.len(),
            a@.len() == b@.len(),
            forall|j: int| 0 <= j < k ==> a@[j] == b@[j],
        decreases a@.len() - k,
    {
        if a[k] != b[k] {
            return false;
        }
        k += 1;
    }
    assert(a@ =~= b@);
    true
}

/// Runs a script on a fresh solver and collects the answer of each `check-sat` (one check at
/// the end if the script has none). Declarations and definitions declare their symbols'
/// sorts, `push n` and `pop n` open and close `n` scopes, `exit` stops; the rest is ignored.
pub fn run_rz3_input(input: &str) -> (r: Result<Vec<CheckResult>, String>)
    ensures
        r matches Ok(v) && v@.len() >= 1,
{
    let mut parser = Parser::new(input);
    let mut solver = Rz3Solver::new();
    let mut results: Vec<CheckResult> = Vec::new();
    loop
        invariant
            parser.wf(),
            solver.wf(),
        decreases parser.measure(),
    {
        let command = match parser.parse_command() {
            Some(c) => c,
            None => {
                break;
            },
        };
        match command {
            Command::SetLogic(_) | Command::SetOption(_, _) | Command::SetInfo(_, _) => {},
            Command::DeclareFun(name, params, return_type) => {
                solver.declare_fun_signature(name, params, return_type);
            },
            Command::DefineFun(name, params, return_type, _) => {
                let mut param_types: Vec<Type> = Vec::new();
                let mut k: usize = 0;
                while k < params.len()
                    decreases params@.len() - k,
                {
                    param_types.push(params[k].1.clone());
                    k += 1;
                }
                solver.declare_fun_signature(name, param_types, return_type);
            },
            Command::Assert(expr) => solver.assert_expr(&expr),
            Command::Push(n) => {
                let mut k: usize = 0;
                while k < n
                    invariant
                        solver.wf(),
                    decreases n - k,
                {
                    solver.push();
                    k += 1;
                }
            },
            Command::Pop(n) => {
                let mut k: usize = 0;
                while k < n
                    invariant
                        solver.wf(),
                    decreases n - k,
                {
                    solver.pop();
                    k += 1;
                }
            },
            Command::CheckSat => {
                let res = solver.check();
                results.push(convert_result(res));
            },
            Command::GetModel | Command::GetValue(_) => {},
            Command::Exit => {
                break;
            },
        }
    }
    if results.len() == 0 {
        let res = solver.check();
        results.push(convert_result(res));
    }
    Ok(results)
}

} // verus!
