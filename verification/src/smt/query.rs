//! One goal's SMT-LIB query, accumulated as text: the logic, then one
//! command per line.

use vstd::prelude::*;
use crate::smt::sexp::{Sexp, SexpV, atom, mk_atom, render_sexp, sexp_text, sexp_views};

verus! {

broadcast use vstd::std_specs::vec::group_vec_axioms, crate::smt::sexp::lemma_sexp_views;

/// The text of the commands, each on a line of its own.
pub open spec fn commands_text(cmds: Seq<SexpV>) -> Seq<char>
    decreases cmds.len(),
{
    if cmds.len() == 0 {
        Seq::empty()
    } else {
        commands_text(cmds.drop_last()) + sexp_text(cmds.last()) + "\n"@
    }
}

/// The line that opens every query.
pub open spec fn logic_line() -> Seq<char> {
    "(set-logic ALL)\n"@
}

/// `(declare-sort name 0)`.
pub open spec fn declare_sort_cmd(name: Seq<char>) -> SexpV {
    SexpV::List(seq![atom("declare-sort"@), atom(name), atom("0"@)])
}

/// `(declare-const name sort)`.
pub open spec fn declare_const_cmd(name: Seq<char>, sort: SexpV) -> SexpV {
    SexpV::List(seq![atom("declare-const"@), atom(name), sort])
}

/// `(declare-fun name (args..) out)`.
pub open spec fn declare_fun_cmd(name: Seq<char>, args: Seq<SexpV>, out: SexpV) -> SexpV {
    SexpV::List(seq![atom("declare-fun"@), atom(name), SexpV::List(args), out])
}

/// `(assert e)`.
pub open spec fn assert_cmd(e: SexpV) -> SexpV {
    SexpV::List(seq![atom("assert"@), e])
}

/// A query under construction.
pub struct Query {
    text: String,
}

impl Query {
    /// The text so far.
    pub closed spec fn text(&self) -> Seq<char> {
        self.text@
    }

    /// A query that holds the logic line alone.
    pub fn new() -> (r: Self)
        ensures
            r.text() == logic_line(),
    {
        Query { text: String::from_str("(set-logic ALL)\n") }
    }

    /// An atom.
    pub fn atom(&self, name: &str) -> (r: Sexp)
        ensures
            r@ == atom(name@),
    {
        mk_atom(name)
    }

    /// Appends a command as a line.
    fn command(&mut self, parts: Vec<Sexp>)
        ensures
            final(self).text() == old(self).text() + sexp_text(SexpV::List(sexp_views(parts@))) + "\n"@,
    {
        proof {
            reveal_strlit("\n");
        }
        let cmd = Sexp::List(parts);
        let t = render_sexp(&cmd);
        self.text.append(t.as_str());
        self.text.append("\n");
    }

    /// Appends a whole command as a line.
    pub fn push_command(&mut self, cmd: &Sexp)
        ensures
            final(self).text() == old(self).text() + sexp_text(cmd@) + "\n"@,
    {
        proof {
            reveal_strlit("\n");
        }
        let t = render_sexp(cmd);
        self.text.append(t.as_str());
        self.text.append("\n");
    }

    /// Declares an uninterpreted sort.
    pub fn declare_sort(&mut self, name: String)
        ensures
            final(self).text() == old(self).text() + sexp_text(declare_sort_cmd(name@)) + "\n"@,
    {
        let mut parts: Vec<Sexp> = Vec::new();
        parts.push(mk_atom("declare-sort"));
        parts.push(Sexp::Atom(name));
        parts.push(mk_atom("0"));
        proof {
            assert(sexp_views(parts@) =~= declare_sort_cmd(name@)->List_0);
        }
        self.command(parts);
    }

    /// Declares a constant of a sort.
    pub fn declare_const(&mut self, name: String, sort: Sexp)
        ensures
            final(self).text() == old(self).text() + sexp_text(declare_const_cmd(name@, sort@)) + "\n"@,
    {
        let ghost sv = sort@;
        let mut parts: Vec<Sexp> = Vec::new();
        parts.push(mk_atom("declare-const"));
        parts.push(Sexp::Atom(name));
        parts.push(sort);
        proof {
            assert(sexp_views(parts@) =~= declare_const_cmd(name@, sv)->List_0);
        }
        self.command(parts);
    }

    /// Declares a function from the argument sorts to the result sort.
    pub fn declare_fun(&mut self, name: String, args: Vec<Sexp>, out: Sexp)
        ensures
            final(self).text() == old(self).text() + sexp_text(declare_fun_cmd(name@, sexp_views(args@), out@)) + "\n"@,
    {
        let ghost av = sexp_views(args@);
        let ghost ov = out@;
        let mut parts: Vec<Sexp> = Vec::new();
        parts.push(mk_atom("declare-fun"));
        parts.push(Sexp::Atom(name));
        parts.push(Sexp::List(args));
        parts.push(out);
        proof {
            assert(sexp_views(parts@) =~= declare_fun_cmd(name@, av, ov)->List_0);
        }
        self.command(parts);
    }

    /// Asserts a formula.
    pub fn assert_formula(&mut self, expr: Sexp)
        ensures
            final(self).text() == old(self).text() + sexp_text(assert_cmd(expr@)) + "\n"@,
    {
        let ghost ev = expr@;
        let mut parts: Vec<Sexp> = Vec::new();
        parts.push(mk_atom("assert"));
        parts.push(expr);
        proof {
            assert(sexp_views(parts@) =~= assert_cmd(ev)->List_0);
        }
        self.command(parts);
    }

    /// The whole query, closed by `(check-sat)`: what the solver reads.
    pub fn final_text(&self) -> (r: String)
        ensures
            r@ == self.text() + "(check-sat)\n"@,
    {
        let mut t = self.text.clone();
        t.append("(check-sat)\n");
        t
    }
}

} // verus!
