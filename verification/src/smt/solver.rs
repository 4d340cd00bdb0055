//! The solver's answer and what the driver makes of it: reading the first
//! line a solver prints, and the messages of a failed goal and of a sort
//! cycle.

use vstd::prelude::*;
use crate::ast::BaseType;
use crate::epr_check::render_cycle;
use crate::model::{text_chars, text_of, trim_range, trim_white};

verus! {

/// The solver's answer; `Unknown` also stands for an error or no answer.
#[derive(Debug, Clone, Copy, PartialEq, Eq, Structural)]
pub enum Verdict {
    Sat,
    Unsat,
    Unknown,
}

/// The text without its leading and trailing white space (as `str::trim`;
/// see [`trim_white`]).
fn trim_text(s: &str) -> (r: String)
    ensures
        r@ == trim_white(s@),
{
    let cs = text_chars(s);
    let (a, b) = trim_range(&cs, 0, cs.len());
    proof {
        assert(cs@.subrange(0, cs@.len() as int) =~= s@);
    }
    text_of(&cs, a, b)
}

/// What precedes the first line feed of a text (all of it without one).
pub open spec fn first_line(s: Seq<char>) -> Seq<char>
    decreases s.len(),
{
    if s.len() == 0 {
        s
    } else if s[0] == '\n' {
        Seq::empty()
    } else {
        seq![s[0]] + first_line(s.skip(1))
    }
}

/// The verdict a solver's output gives: its first line, trimmed, is `sat`
/// or `unsat`; anything else is unknown.
pub open spec fn verdict_of(out: Seq<char>) -> Verdict {
    let t = trim_white(first_line(out));
    if t == "sat"@ {
        Verdict::Sat
    } else if t == "unsat"@ {
        Verdict::Unsat
    } else {
        Verdict::Unknown
    }
}

/// The verdict of a solver's output (see [`verdict_of`]).
pub fn read_verdict(out: &str) -> (r: Verdict)
    ensures
        r == verdict_of(out@),
{
    let n = out.unicode_len();
    let mut i: usize = 0;
    while i < n && out.get_char(i) != '\n'
        invariant
            n == out@.len(),
            0 <= i <= n,
            forall|k: int| 0 <= k < i ==> out@[k] != '\n',
        decreases n - i,
    {
        i = i + 1;
    }
    let line = out.substring_char(0, i);
    proof {
        lemma_first_line(out@, i as int);
        assert(line@ =~= out@.take(i as int));
    }
    let t = trim_text(line);
    if t.eq(&String::from_str("sat")) {
        Verdict::Sat
    } else if t.eq(&String::from_str("unsat")) {
        Verdict::Unsat
    } else {
        Verdict::Unknown
    }
}

/// The first line ends at the first line feed.
proof fn lemma_first_line(s: Seq<char>, i: int)
    requires
        0 <= i <= s.len(),
        forall|k: int| 0 <= k < i ==> s[k] != '\n',
        i == s.len() || s[i] == '\n',
    ensures
        first_line(s) == s.take(i),
    decreases s.len(),
{
    if s.len() == 0 {
        assert(s.take(i) =~= s);
    } else if i == 0 {
        assert(s.take(0) =~= Seq::<char>::empty());
    } else {
        let t = s.skip(1);
        assert forall|k: int| 0 <= k < i - 1 implies t[k] != '\n' by {
            assert(t[k] == s[k + 1]);
        }
        if i < s.len() {
            assert(t[i - 1] == s[i]);
        }
        lemma_first_line(t, i - 1);
        assert(seq![s[0]] + t.take(i - 1) =~= s.take(i));
    }
}

/// Where the query of a goal is kept.
pub open spec fn query_path_text(goal: Seq<char>) -> Seq<char> {
    "logs/"@ + goal + "_failed_query.smt2"@
}

/// Where the counterexample of a goal is written.
pub open spec fn cex_path_text(goal: Seq<char>) -> Seq<char> {
    "logs/"@ + goal + "_counterexample.smt2"@
}

/// Where the query of a goal is kept (see [`query_path_text`]).
pub fn query_path(goal: &str) -> (r: String)
    ensures
        r@ == query_path_text(goal@),
{
    let mut out = String::from_str("logs/");
    out.append(goal);
    out.append("_failed_query.smt2");
    out
}

/// Where the counterexample of a goal is written (see [`cex_path_text`]).
pub fn cex_path(goal: &str) -> (r: String)
    ensures
        r@ == cex_path_text(goal@),
{
    let mut out = String::from_str("logs/");
    out.append(goal);
    out.append("_counterexample.smt2");
    out
}

/// What a verdict means for a goal: a satisfiable negation is a failure with
/// a counterexample, an unknown answer a failure to proceed, each naming
/// where the query (and the counterexample) was written; an unsatisfiable
/// negation proves the goal.
pub open spec fn verdict_error(goal: Seq<char>, v: Verdict) -> Option<Seq<char>> {
    match v {
        Verdict::Sat => Some(
            "Failed to verify '"@ + goal + "': solver found counterexamples.\n## > 💾 Check the SMT query at: "@
                + query_path_text(goal) + "\n## > 💾 Counterexample: "@ + cex_path_text(goal),
        ),
        Verdict::Unknown => Some(
            "Verification of '"@ + goal + "' cannot proceed: solver returned UNKNOWN.\n## > 💾 Check the SMT query at: "@
                + query_path_text(goal),
        ),
        Verdict::Unsat => None,
    }
}

/// What a verdict means for a goal (see [`verdict_error`]).
pub fn verdict_message(goal: &str, v: Verdict) -> (r: Option<String>)
    ensures
        verdict_error(goal@, v) == match r {
            Some(t) => Some(t@),
            None => None,
        },
{
    match v {
        Verdict::Sat => {
            let mut out = String::from_str("Failed to verify '");
            out.append(goal);
            out.append("': solver found counterexamples.\n## > 💾 Check the SMT query at: ");
            out.append(query_path(goal).as_str());
            out.append("\n## > 💾 Counterexample: ");
            out.append(cex_path(goal).as_str());
            Some(out)
        },
        Verdict::Unknown => {
            let mut out = String::from_str("Verification of '");
            out.append(goal);
            out.append("' cannot proceed: solver returned UNKNOWN.\n## > 💾 Check the SMT query at: ");
            out.append(query_path(goal).as_str());
            Some(out)
        },
        Verdict::Unsat => None,
    }
}

/// The sorts of reported cycles.
pub open spec fn cycle_views(cs: Seq<Vec<BaseType>>) -> Seq<Seq<crate::ast::BaseTypeV>> {
    Seq::new(cs.len(), |i: int| crate::ast::base_views(cs[i]@))
}

/// The lines of the reported cycles from the `i`-th on.
pub open spec fn cycle_lines(cs: Seq<Seq<crate::ast::BaseTypeV>>, i: int) -> Seq<char>
    decreases cs.len() - i,
{
    if i < 0 || i >= cs.len() {
        Seq::empty()
    } else {
        "   Cycle: "@ + crate::epr_check::cycle_text(cs[i]) + "\n"@ + cycle_lines(cs, i + 1)
    }
}

/// The message of a failed sort-cycle check: a header, then one line per
/// cycle.
pub fn cycle_error(cycles: &Vec<Vec<BaseType>>) -> (r: String)
    ensures
        r@ == "Found Sort Cycles! This breaks decidability.\n"@ + cycle_lines(
            cycle_views(cycles@),
            0,
        ),
{
    let ghost cv = cycle_views(cycles@);
    let mut out = String::from_str("Found Sort Cycles! This breaks decidability.\n");
    let ghost head = out@;
    let ghost mut acc: Seq<char> = Seq::empty();
    let mut i: usize = 0;
    proof {
        assert(cycle_lines(cv, 0) == acc + cycle_lines(cv, 0));
    }
    while i < cycles.len()
        invariant
            0 <= i <= cycles@.len(),
            cv == cycle_views(cycles@),
            out@ == head + acc,
            cycle_lines(cv, 0) == acc + cycle_lines(cv, i as int),
        decreases cycles@.len() - i,
    {
        let line = render_cycle(&cycles[i]);
        proof {
            reveal_strlit("   Cycle: ");
            reveal_strlit("\n");
        }
        let ghost piece = "   Cycle: "@ + line@ + "\n"@;
        let ghost before = out@;
        out.append("   Cycle: ");
        out.append(line.as_str());
        out.append("\n");
        proof {
            assert(out@ =~= before + piece);
            assert(cv[i as int] == crate::ast::base_views(cycles@[i as int]@));
            assert(acc + cycle_lines(cv, i as int) =~= (acc + piece) + cycle_lines(cv, i + 1));
            acc = acc + piece;
        }
        i = i + 1;
    }
    proof {
        assert(acc + Seq::<char>::empty() =~= acc);
    }
    out
}

/// What the driver does next.
#[derive(Debug, PartialEq, Eq)]
pub enum Step {
    /// Run the solver on the goal at this position.
    Solve(usize),
    /// Stop with this error.
    Fail(String),
    /// Every goal is proved.
    Done,
}

/// The position of the first verdict that is not `Unsat`, if any.
pub open spec fn first_failure(vs: Seq<Verdict>) -> Option<int> {
    if exists|i: int| 0 <= i < vs.len() && vs[i] != Verdict::Unsat {
        Some(choose|i: int| 0 <= i < vs.len() && vs[i] != Verdict::Unsat
            && forall|j: int| 0 <= j < i ==> vs[j] == Verdict::Unsat)
    } else {
        None
    }
}

/// The driver's decision, from the sort-cycle check of all goals and the
/// verdicts of the goals solved so far, in order: a cycle stops everything
/// before any goal is solved; then the first goal whose verdict is not
/// `Unsat` stops the run with its message, and no later goal is solved;
/// else the next goal is solved, and once every goal has `Unsat` the run is
/// done.
pub fn next_step(cycles: &Result<(), Vec<Vec<BaseType>>>, names: &Vec<String>, verdicts: &Vec<Verdict>) -> (r: Step)
    requires
        verdicts@.len() <= names@.len(),
    ensures
        cycles is Err ==> (r matches Step::Fail(m) && m@ == "Found Sort Cycles! This breaks decidability.\n"@ + cycle_lines(
            cycle_views(cycles->Err_0@),
            0,
        )),
        cycles is Ok && first_failure(verdicts@) is Some ==> ({
            let i = first_failure(verdicts@).unwrap();
            r matches Step::Fail(m) && Some(m@) == verdict_error(names@[i]@, verdicts@[i])
        }),
        cycles is Ok && first_failure(verdicts@) is None && verdicts@.len() < names@.len() ==> r == Step::Solve(
            verdicts@.len() as usize,
        ),
        cycles is Ok && first_failure(verdicts@) is None && verdicts@.len() == names@.len() ==> r == Step::Done,
{
    match cycles {
        Err(cs) => {
            return Step::Fail(cycle_error(cs));
        },
        Ok(()) => {},
    }
    let mut i: usize = 0;
    while i < verdicts.len()
        invariant
            0 <= i <= verdicts@.len(),
            verdicts@.len() <= names@.len(),
            cycles is Ok,
            forall|j: int| 0 <= j < i ==> verdicts@[j] == Verdict::Unsat,
        decreases verdicts@.len() - i,
    {
        if verdicts[i] != Verdict::Unsat {
            proof {
                let w = first_failure(verdicts@).unwrap();
                assert(0 <= w < verdicts@.len() && verdicts@[w] != Verdict::Unsat);
                assert(w == i) by {
                    if w < i {
                        assert(verdicts@[w] == Verdict::Unsat);
                    } else if w > i {
                        assert(verdicts@[i as int] == Verdict::Unsat);
                    }
                }
            }
            match verdict_message(names[i].as_str(), verdicts[i]) {
                Some(m) => {
                    return Step::Fail(m);
                },
                None => {
                    return Step::Done;
                },
            }
        }
        i = i + 1;
    }
    if verdicts.len() < names.len() {
        Step::Solve(verdicts.len())
    } else {
        Step::Done
    }
}

} // verus!
