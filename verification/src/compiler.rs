//! A small expression language over Peano naturals and booleans, its
//! evaluator, a stack machine, and a compiler from the one to the other,
//! proved correct: running the code of an expression pushes its value.

use vstd::prelude::*;

verus! {

/// Peano naturals.
#[derive(Debug)]
pub enum Nat {
    Z,
    S(Box<Nat>),
}

/// Values: naturals and booleans.
#[derive(Debug)]
pub enum Value {
    Num(Nat),
    Bool(bool),
}

/// Variable names.
pub type Ident = String;

/// Source expressions.
#[derive(Debug)]
pub enum Expr {
    Const(Nat),
    Id(Ident),
    Add(Box<Expr>, Box<Expr>),
    Sub(Box<Expr>, Box<Expr>),
    Mul(Box<Expr>, Box<Expr>),
    Div(Box<Expr>, Box<Expr>),
    Geq(Box<Expr>, Box<Expr>),
    Gt(Box<Expr>, Box<Expr>),
    Eq(Box<Expr>, Box<Expr>),
    And(Box<Expr>, Box<Expr>),
    Or(Box<Expr>, Box<Expr>),
    Not(Box<Expr>),
    IfThenElse(Box<Expr>, Box<Expr>, Box<Expr>),
    Let(Ident, Box<Expr>, Box<Expr>),
}

/// Stack machine instructions.
#[derive(Debug)]
pub enum Instr {
    IPush(Nat),
    IPushBool(bool),
    IPlus,
    ISub,
    IMul,
    IDiv,
    IGeq,
    IGt,
    IEq,
    INot,
    IStore(Ident),
    ILoad(Ident),
    IPop,
    ICondSkip(Nat),
    ISkip(Nat),
}

/// Instruction lists.
#[derive(Debug)]
pub enum IList {
    INil,
    ICons(Instr, Box<IList>),
}

/// Value stacks.
#[derive(Debug)]
pub enum VList {
    VNil,
    VCons(Value, Box<VList>),
}

/// Environments: a list of bindings, the most recent first.
#[derive(Debug)]
pub enum Env {
    ENil,
    ECons(Ident, Value, Box<Env>),
}

/// The outcome of a lookup.
#[derive(Debug)]
pub enum Look {
    Found(Value),
    Missing,
}

/// The outcome of running code: the final stack and environment, or a fault.
#[derive(Debug)]
pub enum Res {
    Done(VList, Env),
    Fail,
}

/// The outcome of evaluating an expression.
#[derive(Debug)]
pub enum EvRes {
    EvOk(Value),
    EvErr,
}

/// The number a natural stands for.
pub open spec fn nat_val(x: Nat) -> nat
    decreases x,
{
    match x {
        Nat::Z => 0,
        Nat::S(p) => nat_val(*p) + 1,
    }
}

pub open spec fn spec_add(x: Nat, y: Nat) -> Nat
    decreases x,
{
    match x {
        Nat::Z => y,
        Nat::S(x1) => Nat::S(Box::new(spec_add(*x1, y))),
    }
}

pub open spec fn spec_mul(x: Nat, y: Nat) -> Nat
    decreases x,
{
    match x {
        Nat::Z => Nat::Z,
        Nat::S(x1) => spec_add(y, spec_mul(*x1, y)),
    }
}

pub open spec fn spec_sub(x: Nat, y: Nat) -> Nat
    decreases y,
{
    match y {
        Nat::Z => x,
        Nat::S(y1) => match x {
            Nat::Z => Nat::Z,
            Nat::S(x1) => spec_sub(*x1, *y1),
        },
    }
}

pub open spec fn spec_leq(x: Nat, y: Nat) -> bool
    decreases x,
{
    match x {
        Nat::Z => true,
        Nat::S(x1) => match y {
            Nat::Z => false,
            Nat::S(y1) => spec_leq(*x1, *y1),
        },
    }
}

pub open spec fn spec_lt(x: Nat, y: Nat) -> bool
    decreases y,
{
    match y {
        Nat::Z => false,
        Nat::S(y1) => match x {
            Nat::Z => true,
            Nat::S(x1) => spec_lt(*x1, *y1),
        },
    }
}

pub open spec fn spec_is_zero(x: Nat) -> bool {
    x is Z
}

/// `x` without `y`: never below zero.
pub proof fn lemma_sub_val(x: Nat, y: Nat)
    ensures
        nat_val(spec_sub(x, y)) == if nat_val(x) >= nat_val(y) { nat_val(x) - nat_val(y) } else { 0 },
    decreases y,
{
    match y {
        Nat::Z => {},
        Nat::S(y1) => match x {
            Nat::Z => {},
            Nat::S(x1) => lemma_sub_val(*x1, *y1),
        },
    }
}

/// `lt` is the order of the numbers.
pub proof fn lemma_lt_val(x: Nat, y: Nat)
    ensures
        spec_lt(x, y) == (nat_val(x) < nat_val(y)),
    decreases y,
{
    match y {
        Nat::Z => {},
        Nat::S(y1) => match x {
            Nat::Z => {},
            Nat::S(x1) => lemma_lt_val(*x1, *y1),
        },
    }
}

/// `leq` is the order of the numbers.
pub proof fn lemma_leq_val(x: Nat, y: Nat)
    ensures
        spec_leq(x, y) == (nat_val(x) <= nat_val(y)),
    decreases x,
{
    match x {
        Nat::Z => {},
        Nat::S(x1) => match y {
            Nat::Z => {},
            Nat::S(y1) => lemma_leq_val(*x1, *y1),
        },
    }
}

/// Division of naturals by repeated subtraction, for a divisor that is not zero.
pub open spec fn spec_div_pos(x: Nat, y: Nat) -> Nat
    decreases nat_val(x) when !spec_is_zero(y)
{
    if spec_lt(x, y) {
        Nat::Z
    } else {
        proof {
            lemma_lt_val(x, y);
            lemma_sub_val(x, y);
        }
        Nat::S(Box::new(spec_div_pos(spec_sub(x, y), y)))
    }
}

pub open spec fn spec_div(x: Nat, y: Nat) -> Nat {
    if spec_is_zero(y) {
        Nat::Z
    } else {
        spec_div_pos(x, y)
    }
}

pub open spec fn spec_app(xs: IList, ys: IList) -> IList
    decreases xs,
{
    match xs {
        IList::INil => ys,
        IList::ICons(i, t) => IList::ICons(i, Box::new(spec_app(*t, ys))),
    }
}

pub open spec fn spec_length(xs: IList) -> Nat
    decreases xs,
{
    match xs {
        IList::INil => Nat::Z,
        IList::ICons(_, t) => Nat::S(Box::new(spec_length(*t))),
    }
}

pub open spec fn spec_drop(n: Nat, xs: IList) -> IList
    decreases n,
{
    match n {
        Nat::Z => xs,
        Nat::S(m) => match xs {
            IList::INil => IList::INil,
            IList::ICons(_, t) => spec_drop(*m, *t),
        },
    }
}

pub open spec fn spec_lookup(x: Ident, env: Env) -> Look
    decreases env,
{
    match env {
        Env::ENil => Look::Missing,
        Env::ECons(y, v, rest) => if x@ == y@ {
            Look::Found(v)
        } else {
            spec_lookup(x, *rest)
        },
    }
}

/// The number of instructions of a list.
pub open spec fn ilen(xs: IList) -> nat
    decreases xs,
{
    match xs {
        IList::INil => 0,
        IList::ICons(_, t) => ilen(*t) + 1,
    }
}

/// Dropping never lengthens a list.
pub proof fn lemma_drop_len(n: Nat, xs: IList)
    ensures
        ilen(spec_drop(n, xs)) <= ilen(xs),
    decreases n,
{
    match n {
        Nat::Z => {},
        Nat::S(m) => match xs {
            IList::INil => {},
            IList::ICons(_, t) => lemma_drop_len(*m, *t),
        },
    }
}

/// Runs a binary arithmetic instruction on the two topmost numbers, the
/// top one being the right operand.
pub open spec fn arith(i: Instr, ops: VList) -> Option<VList> {
    match ops {
        VList::VCons(v1, t1) => match *t1 {
            VList::VCons(v2, t2) => match (v1, v2) {
                (Value::Num(a), Value::Num(b)) => match i {
                    Instr::IPlus => Some(VList::VCons(Value::Num(spec_add(b, a)), t2)),
                    Instr::ISub => Some(VList::VCons(Value::Num(spec_sub(b, a)), t2)),
                    Instr::IMul => Some(VList::VCons(Value::Num(spec_mul(b, a)), t2)),
                    Instr::IDiv => if spec_is_zero(a) {
                        None
                    } else {
                        Some(VList::VCons(Value::Num(spec_div(b, a)), t2))
                    },
                    Instr::IGeq => Some(VList::VCons(Value::Bool(spec_leq(a, b)), t2)),
                    Instr::IGt => Some(VList::VCons(Value::Bool(spec_lt(a, b)), t2)),
                    _ => None,
                },
                _ => None,
            },
            _ => None,
        },
        _ => None,
    }
}

/// Runs a list of instructions on a stack and an environment.
pub open spec fn spec_exec(is: IList, ops: VList, env: Env) -> Res
    decreases ilen(is),
{
    match is {
        IList::INil => Res::Done(ops, env),
        IList::ICons(i, rest) => match i {
            Instr::IPush(d) => spec_exec(*rest, VList::VCons(Value::Num(d), Box::new(ops)), env),
            Instr::IPushBool(b) => spec_exec(*rest, VList::VCons(Value::Bool(b), Box::new(ops)), env),
            Instr::IEq => match ops {
                VList::VCons(v1, t1) => match *t1 {
                    VList::VCons(v2, t2) => spec_exec(*rest, VList::VCons(Value::Bool(v1 == v2), t2), env),
                    _ => Res::Fail,
                },
                _ => Res::Fail,
            },
            Instr::INot => match ops {
                VList::VCons(Value::Bool(b), t) => spec_exec(*rest, VList::VCons(Value::Bool(!b), t), env),
                _ => Res::Fail,
            },
            Instr::IStore(x) => match ops {
                VList::VCons(v, t) => spec_exec(*rest, *t, Env::ECons(x, v, Box::new(env))),
                _ => Res::Fail,
            },
            Instr::ILoad(x) => match spec_lookup(x, env) {
                Look::Found(v) => spec_exec(*rest, VList::VCons(v, Box::new(ops)), env),
                Look::Missing => Res::Fail,
            },
            Instr::IPop => match env {
                Env::ECons(_, _, rest_env) => spec_exec(*rest, ops, *rest_env),
                _ => Res::Fail,
            },
            Instr::ICondSkip(n) => match ops {
                VList::VCons(Value::Bool(true), t) => spec_exec(*rest, *t, env),
                VList::VCons(Value::Bool(false), t) => {
                    proof {
                        lemma_drop_len(n, *rest);
                    }
                    spec_exec(spec_drop(n, *rest), *t, env)
                },
                _ => Res::Fail,
            },
            Instr::ISkip(n) => {
                proof {
                    lemma_drop_len(n, *rest);
                }
                spec_exec(spec_drop(n, *rest), ops, env)
            },
            _ => match arith(i, ops) {
                Some(new_ops) => spec_exec(*rest, new_ops, env),
                None => Res::Fail,
            },
        },
    }
}

/// Two evaluated operands, if both are numbers.
pub open spec fn nums(r1: EvRes, r2: EvRes) -> Option<(Nat, Nat)> {
    match (r1, r2) {
        (EvRes::EvOk(Value::Num(a)), EvRes::EvOk(Value::Num(b))) => Some((a, b)),
        _ => None,
    }
}

/// Evaluates an expression in an environment.
pub open spec fn spec_eval(e: Expr, env: Env) -> EvRes
    decreases e,
{
    match e {
        Expr::Const(d) => EvRes::EvOk(Value::Num(d)),
        Expr::Id(x) => match spec_lookup(x, env) {
            Look::Found(v) => EvRes::EvOk(v),
            Look::Missing => EvRes::EvErr,
        },
        Expr::Add(e1, e2) => match nums(spec_eval(*e1, env), spec_eval(*e2, env)) {
            Some((a, b)) => EvRes::EvOk(Value::Num(spec_add(a, b))),
            None => EvRes::EvErr,
        },
        Expr::Sub(e1, e2) => match nums(spec_eval(*e1, env), spec_eval(*e2, env)) {
            Some((a, b)) => EvRes::EvOk(Value::Num(spec_sub(a, b))),
            None => EvRes::EvErr,
        },
        Expr::Mul(e1, e2) => match nums(spec_eval(*e1, env), spec_eval(*e2, env)) {
            Some((a, b)) => EvRes::EvOk(Value::Num(spec_mul(a, b))),
            None => EvRes::EvErr,
        },
        Expr::Div(e1, e2) => match nums(spec_eval(*e1, env), spec_eval(*e2, env)) {
            Some((a, b)) => if spec_is_zero(b) {
                EvRes::EvErr
            } else {
                EvRes::EvOk(Value::Num(spec_div(a, b)))
            },
            None => EvRes::EvErr,
        },
        Expr::Geq(e1, e2) => match nums(spec_eval(*e1, env), spec_eval(*e2, env)) {
            Some((a, b)) => EvRes::EvOk(Value::Bool(spec_leq(b, a))),
            None => EvRes::EvErr,
        },
        Expr::Gt(e1, e2) => match nums(spec_eval(*e1, env), spec_eval(*e2, env)) {
            Some((a, b)) => EvRes::EvOk(Value::Bool(spec_lt(b, a))),
            None => EvRes::EvErr,
        },
        Expr::Eq(e1, e2) => match (spec_eval(*e1, env), spec_eval(*e2, env)) {
            (EvRes::EvOk(a), EvRes::EvOk(b)) => EvRes::EvOk(Value::Bool(a == b)),
            _ => EvRes::EvErr,
        },
        Expr::And(e1, e2) => match spec_eval(*e1, env) {
            EvRes::EvOk(Value::Bool(true)) => spec_eval(*e2, env),
            EvRes::EvOk(Value::Bool(false)) => EvRes::EvOk(Value::Bool(false)),
            _ => EvRes::EvErr,
        },
        Expr::Or(e1, e2) => match spec_eval(*e1, env) {
            EvRes::EvOk(Value::Bool(true)) => EvRes::EvOk(Value::Bool(true)),
            EvRes::EvOk(Value::Bool(false)) => spec_eval(*e2, env),
            _ => EvRes::EvErr,
        },
        Expr::Not(e1) => match spec_eval(*e1, env) {
            EvRes::EvOk(Value::Bool(b)) => EvRes::EvOk(Value::Bool(!b)),
            _ => EvRes::EvErr,
        },
        Expr::IfThenElse(c, t, f) => match spec_eval(*c, env) {
            EvRes::EvOk(Value::Bool(true)) => spec_eval(*t, env),
            EvRes::EvOk(Value::Bool(false)) => spec_eval(*f, env),
            _ => EvRes::EvErr,
        },
        Expr::Let(x, e1, e2) => match spec_eval(*e1, env) {
            EvRes::EvOk(v) => spec_eval(*e2, Env::ECons(x, v, Box::new(env))),
            EvRes::EvErr => EvRes::EvErr,
        },
    }
}

/// `[i]`
pub open spec fn single(i: Instr) -> IList {
    IList::ICons(i, Box::new(IList::INil))
}

/// The code of a binary operation: both operands, then the instruction.
pub open spec fn binary_code(c1: IList, c2: IList, i: Instr) -> IList {
    spec_app(c1, spec_app(c2, single(i)))
}

/// Compiles an expression to code that pushes its value.
pub open spec fn spec_compile(e: Expr) -> IList
    decreases e,
{
    match e {
        Expr::Const(d) => single(Instr::IPush(d)),
        Expr::Id(x) => single(Instr::ILoad(x)),
        Expr::Add(e1, e2) => binary_code(spec_compile(*e1), spec_compile(*e2), Instr::IPlus),
        Expr::Sub(e1, e2) => binary_code(spec_compile(*e1), spec_compile(*e2), Instr::ISub),
        Expr::Mul(e1, e2) => binary_code(spec_compile(*e1), spec_compile(*e2), Instr::IMul),
        Expr::Div(e1, e2) => binary_code(spec_compile(*e1), spec_compile(*e2), Instr::IDiv),
        Expr::Geq(e1, e2) => binary_code(spec_compile(*e1), spec_compile(*e2), Instr::IGeq),
        Expr::Gt(e1, e2) => binary_code(spec_compile(*e1), spec_compile(*e2), Instr::IGt),
        Expr::Eq(e1, e2) => binary_code(spec_compile(*e1), spec_compile(*e2), Instr::IEq),
        Expr::Not(e1) => spec_app(spec_compile(*e1), single(Instr::INot)),
        Expr::IfThenElse(c, t, f) => {
            let l1 = spec_compile(*t);
            let l2 = spec_compile(*f);
            spec_app(
                spec_compile(*c),
                IList::ICons(
                    Instr::ICondSkip(Nat::S(Box::new(spec_length(l1)))),
                    Box::new(spec_app(l1, IList::ICons(Instr::ISkip(spec_length(l2)), Box::new(l2)))),
                ),
            )
        },
        Expr::And(e1, e2) => {
            let l2 = spec_compile(*e2);
            spec_app(
                spec_compile(*e1),
                IList::ICons(
                    Instr::ICondSkip(Nat::S(Box::new(spec_length(l2)))),
                    Box::new(spec_app(
                        l2,
                        IList::ICons(Instr::ISkip(Nat::S(Box::new(Nat::Z))), Box::new(single(Instr::IPushBool(false)))),
                    )),
                ),
            )
        },
        Expr::Or(e1, e2) => {
            let l2 = spec_compile(*e2);
            spec_app(
                spec_compile(*e1),
                IList::ICons(
                    Instr::ICondSkip(Nat::S(Box::new(Nat::S(Box::new(Nat::Z))))),
                    Box::new(IList::ICons(
                        Instr::IPushBool(true),
                        Box::new(IList::ICons(Instr::ISkip(spec_length(l2)), Box::new(l2))),
                    )),
                ),
            )
        },
        Expr::Let(x, e1, e2) => spec_app(
            spec_compile(*e1),
            IList::ICons(Instr::IStore(x), Box::new(spec_app(spec_compile(*e2), single(Instr::IPop)))),
        ),
    }
}

/// Appending is associative.
pub proof fn lemma_app_assoc(a: IList, b: IList, c: IList)
    ensures
        spec_app(spec_app(a, b), c) == spec_app(a, spec_app(b, c)),
    decreases a,
{
    match a {
        IList::INil => {},
        IList::ICons(_, t) => lemma_app_assoc(*t, b, c),
    }
}

/// Dropping as many instructions as a list has skips exactly that list.
pub proof fn lemma_drop_app(l: IList, r: IList)
    ensures
        spec_drop(spec_length(l), spec_app(l, r)) == r,
    decreases l,
{
    match l {
        IList::INil => {},
        IList::ICons(_, t) => lemma_drop_app(*t, r),
    }
}

/// The code of a binary operation followed by `rest`.
proof fn lemma_binary_layout(c1: IList, c2: IList, i: Instr, rest: IList)
    ensures
        spec_app(binary_code(c1, c2, i), rest) == spec_app(c1, spec_app(c2, IList::ICons(i, Box::new(rest)))),
{
    lemma_app_assoc(c1, spec_app(c2, single(i)), rest);
    lemma_app_assoc(c2, single(i), rest);
    assert(spec_app(IList::INil, rest) == rest);
    assert(spec_app(single(i), rest) == IList::ICons(i, Box::new(spec_app(IList::INil, rest))));
}

/// A binary operation runs its operands, then its instruction on their values.
proof fn lemma_binary_run(parent: Expr, e1: Expr, e2: Expr, i: Instr, env: Env, rest: IList, ops: VList, a: Value, b: Value)
    requires
        decreases_to!(parent => e1),
        decreases_to!(parent => e2),
        spec_eval(e1, env) == EvRes::EvOk(a),
        spec_eval(e2, env) == EvRes::EvOk(b),
    ensures
        spec_exec(spec_app(binary_code(spec_compile(e1), spec_compile(e2), i), rest), ops, env)
            == spec_exec(IList::ICons(i, Box::new(rest)), VList::VCons(b, Box::new(VList::VCons(a, Box::new(ops)))), env),
    decreases parent, 0int,
{
    let c1 = spec_compile(e1);
    let c2 = spec_compile(e2);
    let tail = IList::ICons(i, Box::new(rest));
    lemma_binary_layout(c1, c2, i, rest);
    compile_correct(e1, env, a, spec_app(c2, tail), ops);
    compile_correct(e2, env, b, tail, VList::VCons(a, Box::new(ops)));
}

/// Law: the code of an expression that evaluates to `v` pushes `v` and
/// leaves the environment as it was, whatever code follows it.
pub proof fn compile_correct(e: Expr, env: Env, v: Value, rest: IList, ops: VList)
    requires
        spec_eval(e, env) == EvRes::EvOk(v),
    ensures
        spec_exec(spec_app(spec_compile(e), rest), ops, env) == spec_exec(rest, VList::VCons(v, Box::new(ops)), env),
    decreases e, 1int,
{
    match e {
        Expr::Const(d) => {
            assert(spec_app(IList::INil, rest) == rest);
            assert(spec_app(spec_compile(e), rest) == IList::ICons(Instr::IPush(d), Box::new(rest)));
        },
        Expr::Id(x) => {
            assert(spec_app(IList::INil, rest) == rest);
            assert(spec_app(spec_compile(e), rest) == IList::ICons(Instr::ILoad(x), Box::new(rest)));
        },
        Expr::Add(e1, e2) => {
            let (a, b) = nums(spec_eval(*e1, env), spec_eval(*e2, env))->0;
            lemma_binary_run(e, *e1, *e2, Instr::IPlus, env, rest, ops, Value::Num(a), Value::Num(b));
        },
        Expr::Sub(e1, e2) => {
            let (a, b) = nums(spec_eval(*e1, env), spec_eval(*e2, env))->0;
            lemma_binary_run(e, *e1, *e2, Instr::ISub, env, rest, ops, Value::Num(a), Value::Num(b));
        },
        Expr::Mul(e1, e2) => {
            let (a, b) = nums(spec_eval(*e1, env), spec_eval(*e2, env))->0;
            lemma_binary_run(e, *e1, *e2, Instr::IMul, env, rest, ops, Value::Num(a), Value::Num(b));
        },
        Expr::Div(e1, e2) => {
            let (a, b) = nums(spec_eval(*e1, env), spec_eval(*e2, env))->0;
            lemma_binary_run(e, *e1, *e2, Instr::IDiv, env, rest, ops, Value::Num(a), Value::Num(b));
        },
        Expr::Geq(e1, e2) => {
            let (a, b) = nums(spec_eval(*e1, env), spec_eval(*e2, env))->0;
            lemma_binary_run(e, *e1, *e2, Instr::IGeq, env, rest, ops, Value::Num(a), Value::Num(b));
        },
        Expr::Gt(e1, e2) => {
            let (a, b) = nums(spec_eval(*e1, env), spec_eval(*e2, env))->0;
            lemma_binary_run(e, *e1, *e2, Instr::IGt, env, rest, ops, Value::Num(a), Value::Num(b));
        },
        Expr::Eq(e1, e2) => {
            let a = spec_eval(*e1, env)->EvOk_0;
            let b = spec_eval(*e2, env)->EvOk_0;
            lemma_binary_run(e, *e1, *e2, Instr::IEq, env, rest, ops, a, b);
        },
        Expr::Not(_) => lemma_compile_not(e, env, v, rest, ops),
        Expr::IfThenElse(..) => lemma_compile_if(e, env, v, rest, ops),
        Expr::And(..) => lemma_compile_and(e, env, v, rest, ops),
        Expr::Or(..) => lemma_compile_or(e, env, v, rest, ops),
        Expr::Let(..) => lemma_compile_let(e, env, v, rest, ops),
    }
}

proof fn lemma_compile_not(e: Expr, env: Env, v: Value, rest: IList, ops: VList)
    requires
        e is Not,
        spec_eval(e, env) == EvRes::EvOk(v),
    ensures
        spec_exec(spec_app(spec_compile(e), rest), ops, env) == spec_exec(rest, VList::VCons(v, Box::new(ops)), env),
    decreases e, 0int,
{
    match e {
        Expr::Not(e1) => {
            let c1 = spec_compile(*e1);
            let tail = IList::ICons(Instr::INot, Box::new(rest));
            lemma_app_assoc(c1, single(Instr::INot), rest);
            compile_correct(*e1, env, spec_eval(*e1, env)->EvOk_0, tail, ops);
        },
        _ => {},
    }
}

/// Dropping one more than a list has skips the list and the next instruction.
pub proof fn lemma_drop_app_succ(l: IList, i: Instr, t: IList)
    ensures
        spec_drop(Nat::S(Box::new(spec_length(l))), spec_app(l, IList::ICons(i, Box::new(t)))) == t,
    decreases l,
{
    match l {
        IList::INil => {
            let c = IList::ICons(i, Box::new(t));
            assert(spec_length(IList::INil) == Nat::Z);
            assert(spec_app(IList::INil, c) == c);
            assert(spec_drop(Nat::Z, t) == t);
            assert(spec_drop(Nat::S(Box::new(Nat::Z)), c) == spec_drop(Nat::Z, t));
        },
        IList::ICons(_, rest) => lemma_drop_app_succ(*rest, i, t),
    }
}

proof fn lemma_compile_if(e: Expr, env: Env, v: Value, rest: IList, ops: VList)
    requires
        e is IfThenElse,
        spec_eval(e, env) == EvRes::EvOk(v),
    ensures
        spec_exec(spec_app(spec_compile(e), rest), ops, env) == spec_exec(rest, VList::VCons(v, Box::new(ops)), env),
    decreases e, 0int,
{
    match e {
        Expr::IfThenElse(c, t, f) => {
            let l1 = spec_compile(*t);
            let l2 = spec_compile(*f);
            let skip2 = IList::ICons(Instr::ISkip(spec_length(l2)), Box::new(l2));
            let n1 = Nat::S(Box::new(spec_length(l1)));
            let body = IList::ICons(Instr::ICondSkip(n1), Box::new(spec_app(l1, skip2)));
            lemma_app_assoc(spec_compile(*c), body, rest);
            lemma_app_assoc(l1, skip2, rest);
            let x = spec_app(l1, spec_app(skip2, rest));
            assert(spec_app(body, rest) == IList::ICons(Instr::ICondSkip(n1), Box::new(x)));
            let cb = spec_eval(*c, env)->EvOk_0;
            compile_correct(*c, env, cb, spec_app(body, rest), ops);
            let after = spec_app(skip2, rest);
            assert(after == IList::ICons(Instr::ISkip(spec_length(l2)), Box::new(spec_app(l2, rest))));
            if cb == Value::Bool(true) {
                assert(spec_exec(spec_app(body, rest), VList::VCons(cb, Box::new(ops)), env) == spec_exec(x, ops, env));
                compile_correct(*t, env, v, after, ops);
                lemma_drop_app(l2, rest);
                assert(spec_exec(after, VList::VCons(v, Box::new(ops)), env) == spec_exec(rest, VList::VCons(v, Box::new(ops)), env));
            } else {
                assert(spec_exec(spec_app(body, rest), VList::VCons(cb, Box::new(ops)), env) == spec_exec(spec_drop(n1, x), ops, env));
                lemma_drop_app_succ(l1, Instr::ISkip(spec_length(l2)), spec_app(l2, rest));
                compile_correct(*f, env, v, rest, ops);
            }
        },
        _ => {},
    }
}

proof fn lemma_compile_and(e: Expr, env: Env, v: Value, rest: IList, ops: VList)
    requires
        e is And,
        spec_eval(e, env) == EvRes::EvOk(v),
    ensures
        spec_exec(spec_app(spec_compile(e), rest), ops, env) == spec_exec(rest, VList::VCons(v, Box::new(ops)), env),
    decreases e, 0int,
{
    match e {
        Expr::And(e1, e2) => {
            let l2 = spec_compile(*e2);
            let pushf = single(Instr::IPushBool(false));
            let tail2 = IList::ICons(Instr::ISkip(Nat::S(Box::new(Nat::Z))), Box::new(pushf));
            let n1 = Nat::S(Box::new(spec_length(l2)));
            let body = IList::ICons(Instr::ICondSkip(n1), Box::new(spec_app(l2, tail2)));
            lemma_app_assoc(spec_compile(*e1), body, rest);
            lemma_app_assoc(l2, tail2, rest);
            let after = spec_app(tail2, rest);
            let x = spec_app(l2, after);
            assert(spec_app(body, rest) == IList::ICons(Instr::ICondSkip(n1), Box::new(x)));
            assert(spec_app(IList::INil, rest) == rest);
            assert(spec_app(pushf, rest) == IList::ICons(Instr::IPushBool(false), Box::new(rest)));
            assert(after == IList::ICons(Instr::ISkip(Nat::S(Box::new(Nat::Z))), Box::new(spec_app(pushf, rest))));
            let cb = spec_eval(*e1, env)->EvOk_0;
            compile_correct(*e1, env, cb, spec_app(body, rest), ops);
            if cb == Value::Bool(true) {
                assert(spec_exec(spec_app(body, rest), VList::VCons(cb, Box::new(ops)), env) == spec_exec(x, ops, env));
                compile_correct(*e2, env, v, after, ops);
                assert(spec_drop(Nat::Z, rest) == rest);
                assert(spec_drop(Nat::S(Box::new(Nat::Z)), spec_app(pushf, rest)) == rest);
                assert(spec_exec(after, VList::VCons(v, Box::new(ops)), env) == spec_exec(rest, VList::VCons(v, Box::new(ops)), env));
            } else {
                assert(spec_exec(spec_app(body, rest), VList::VCons(cb, Box::new(ops)), env) == spec_exec(spec_drop(n1, x), ops, env));
                lemma_drop_app_succ(l2, Instr::ISkip(Nat::S(Box::new(Nat::Z))), spec_app(pushf, rest));
                assert(spec_exec(spec_app(pushf, rest), ops, env) == spec_exec(rest, VList::VCons(Value::Bool(false), Box::new(ops)), env));
            }
        },
        _ => {},
    }
}

proof fn lemma_compile_or(e: Expr, env: Env, v: Value, rest: IList, ops: VList)
    requires
        e is Or,
        spec_eval(e, env) == EvRes::EvOk(v),
    ensures
        spec_exec(spec_app(spec_compile(e), rest), ops, env) == spec_exec(rest, VList::VCons(v, Box::new(ops)), env),
    decreases e, 0int,
{
    match e {
        Expr::Or(e1, e2) => {
            let l2 = spec_compile(*e2);
            let skip2 = IList::ICons(Instr::ISkip(spec_length(l2)), Box::new(l2));
            let two = Nat::S(Box::new(Nat::S(Box::new(Nat::Z))));
            let body = IList::ICons(Instr::ICondSkip(two), Box::new(IList::ICons(Instr::IPushBool(true), Box::new(skip2))));
            lemma_app_assoc(spec_compile(*e1), body, rest);
            let after = spec_app(skip2, rest);
            assert(after == IList::ICons(Instr::ISkip(spec_length(l2)), Box::new(spec_app(l2, rest))));
            let x = IList::ICons(Instr::IPushBool(true), Box::new(after));
            let inner = IList::ICons(Instr::IPushBool(true), Box::new(skip2));
            assert(spec_app(inner, rest) == x);
            assert(spec_app(body, rest) == IList::ICons(Instr::ICondSkip(two), Box::new(spec_app(inner, rest))));
            let cb = spec_eval(*e1, env)->EvOk_0;
            compile_correct(*e1, env, cb, spec_app(body, rest), ops);
            if cb == Value::Bool(true) {
                assert(spec_exec(spec_app(body, rest), VList::VCons(cb, Box::new(ops)), env) == spec_exec(x, ops, env));
                assert(spec_exec(x, ops, env) == spec_exec(after, VList::VCons(Value::Bool(true), Box::new(ops)), env));
                lemma_drop_app(l2, rest);
            } else {
                assert(spec_exec(spec_app(body, rest), VList::VCons(cb, Box::new(ops)), env) == spec_exec(spec_drop(two, x), ops, env));
                assert(spec_drop(Nat::Z, spec_app(l2, rest)) == spec_app(l2, rest));
                assert(spec_drop(Nat::S(Box::new(Nat::Z)), after) == spec_app(l2, rest));
                assert(spec_drop(two, x) == spec_app(l2, rest));
                compile_correct(*e2, env, v, rest, ops);
            }
        },
        _ => {},
    }
}

proof fn lemma_compile_let(e: Expr, env: Env, v: Value, rest: IList, ops: VList)
    requires
        e is Let,
        spec_eval(e, env) == EvRes::EvOk(v),
    ensures
        spec_exec(spec_app(spec_compile(e), rest), ops, env) == spec_exec(rest, VList::VCons(v, Box::new(ops)), env),
    decreases e, 0int,
{
    match e {
        Expr::Let(x, e1, e2) => {
            let c2 = spec_compile(*e2);
            let pop = single(Instr::IPop);
            let tail = IList::ICons(Instr::IStore(x), Box::new(spec_app(c2, pop)));
            lemma_app_assoc(spec_compile(*e1), tail, rest);
            lemma_app_assoc(c2, pop, rest);
            let after2 = spec_app(pop, rest);
            assert(spec_app(IList::INil, rest) == rest);
            assert(after2 == IList::ICons(Instr::IPop, Box::new(rest)));
            assert(spec_app(tail, rest) == IList::ICons(Instr::IStore(x), Box::new(spec_app(c2, after2))));
            let v1 = spec_eval(*e1, env)->EvOk_0;
            compile_correct(*e1, env, v1, spec_app(tail, rest), ops);
            let env2 = Env::ECons(x, v1, Box::new(env));
            assert(spec_exec(spec_app(tail, rest), VList::VCons(v1, Box::new(ops)), env) == spec_exec(spec_app(c2, after2), ops, env2));
            compile_correct(*e2, env2, v, after2, ops);
            assert(spec_exec(after2, VList::VCons(v, Box::new(ops)), env2) == spec_exec(rest, VList::VCons(v, Box::new(ops)), env));
        },
        _ => {},
    }
}

impl Nat {
    /// A copy of the natural.
    pub fn copy(&self) -> (r: Nat)
        ensures
            r == *self,
        decreases self,
    {
        match self {
            Nat::Z => Nat::Z,
            Nat::S(p) => Nat::S(Box::new(p.copy())),
        }
    }
}

impl Value {
    /// A copy of the value.
    pub fn copy(&self) -> (r: Value)
        ensures
            r == *self,
    {
        match self {
            Value::Num(n) => Value::Num(n.copy()),
            Value::Bool(b) => Value::Bool(*b),
        }
    }
}

impl Env {
    /// A copy of the environment.
    pub fn copy(&self) -> (r: Env)
        ensures
            r == *self,
        decreases self,
    {
        match self {
            Env::ENil => Env::ENil,
            Env::ECons(x, v, rest) => Env::ECons(x.clone(), v.copy(), Box::new(rest.copy())),
        }
    }
}

impl Instr {
    /// A copy of the instruction.
    pub fn copy(&self) -> (r: Instr)
        ensures
            r == *self,
    {
        match self {
            Instr::IPush(n) => Instr::IPush(n.copy()),
            Instr::IPushBool(b) => Instr::IPushBool(*b),
            Instr::IPlus => Instr::IPlus,
            Instr::ISub => Instr::ISub,
            Instr::IMul => Instr::IMul,
            Instr::IDiv => Instr::IDiv,
            Instr::IGeq => Instr::IGeq,
            Instr::IGt => Instr::IGt,
            Instr::IEq => Instr::IEq,
            Instr::INot => Instr::INot,
            Instr::IStore(x) => Instr::IStore(x.clone()),
            Instr::ILoad(x) => Instr::ILoad(x.clone()),
            Instr::IPop => Instr::IPop,
            Instr::ICondSkip(n) => Instr::ICondSkip(n.copy()),
            Instr::ISkip(n) => Instr::ISkip(n.copy()),
        }
    }
}

impl IList {
    /// A copy of the instruction list.
    pub fn copy(&self) -> (r: IList)
        ensures
            r == *self,
        decreases self,
    {
        match self {
            IList::INil => IList::INil,
            IList::ICons(i, t) => IList::ICons(i.copy(), Box::new(t.copy())),
        }
    }
}

/// Whether two naturals are equal.
pub fn nat_eq(x: &Nat, y: &Nat) -> (r: bool)
    ensures
        r == (*x == *y),
    decreases x,
{
    match (x, y) {
        (Nat::Z, Nat::Z) => true,
        (Nat::S(a), Nat::S(b)) => nat_eq(a, b),
        _ => false,
    }
}

/// Whether two values are equal.
pub fn value_eq(x: &Value, y: &Value) -> (r: bool)
    ensures
        r == (*x == *y),
{
    match (x, y) {
        (Value::Num(a), Value::Num(b)) => nat_eq(a, b),
        (Value::Bool(a), Value::Bool(b)) => *a == *b,
        _ => false,
    }
}

pub fn add(x: Nat, y: Nat) -> (r: Nat)
    ensures
        r == spec_add(x, y),
    decreases x,
{
    match x {
        Nat::Z => y,
        Nat::S(x1) => Nat::S(Box::new(self::add(*x1, y))),
    }
}

pub fn mul(x: Nat, y: Nat) -> (r: Nat)
    ensures
        r == spec_mul(x, y),
    decreases x,
{
    match x {
        Nat::Z => Nat::Z,
        Nat::S(x1) => {
            let y2 = y.copy();
            self::add(y2, self::mul(*x1, y))
        },
    }
}

pub fn sub(x: Nat, y: Nat) -> (r: Nat)
    ensures
        r == spec_sub(x, y),
    decreases y,
{
    match y {
        Nat::Z => x,
        Nat::S(y1) => match x {
            Nat::Z => Nat::Z,
            Nat::S(x1) => self::sub(*x1, *y1),
        },
    }
}

pub fn leq(x: Nat, y: Nat) -> (r: bool)
    ensures
        r == spec_leq(x, y),
    decreases x,
{
    match x {
        Nat::Z => true,
        Nat::S(x1) => match y {
            Nat::Z => false,
            Nat::S(y1) => leq(*x1, *y1),
        },
    }
}

pub fn lt(x: Nat, y: Nat) -> (r: bool)
    ensures
        r == spec_lt(x, y),
    decreases y,
{
    match y {
        Nat::Z => false,
        Nat::S(y1) => match x {
            Nat::Z => true,
            Nat::S(x1) => lt(*x1, *y1),
        },
    }
}

pub fn geq(x: Nat, y: Nat) -> (r: bool)
    ensures
        r == spec_leq(y, x),
{
    leq(y, x)
}

pub fn gt(x: Nat, y: Nat) -> (r: bool)
    ensures
        r == spec_lt(y, x),
{
    lt(y, x)
}

pub fn is_zero(x: Nat) -> (r: bool)
    ensures
        r == spec_is_zero(x),
{
    match x {
        Nat::Z => true,
        Nat::S(_) => false,
    }
}

/// Division by a divisor that is not zero (by zero it would not end).
pub fn div_pos(x: Nat, y: Nat) -> (r: Nat)
    requires
        !spec_is_zero(y),
    ensures
        r == spec_div_pos(x, y),
    decreases nat_val(x),
{
    if lt(x.copy(), y.copy()) {
        Nat::Z
    } else {
        proof {
            lemma_lt_val(x, y);
            lemma_sub_val(x, y);
        }
        let y2 = y.copy();
        Nat::S(Box::new(div_pos(self::sub(x, y2), y)))
    }
}

pub fn div(x: Nat, y: Nat) -> (r: Nat)
    ensures
        r == spec_div(x, y),
{
    if is_zero(y.copy()) {
        Nat::Z
    } else {
        div_pos(x, y)
    }
}

pub fn app(xs: IList, ys: IList) -> (r: IList)
    ensures
        r == spec_app(xs, ys),
    decreases xs,
{
    match xs {
        IList::INil => ys,
        IList::ICons(i, t) => IList::ICons(i, Box::new(app(*t, ys))),
    }
}

pub fn length(xs: IList) -> (r: Nat)
    ensures
        r == spec_length(xs),
    decreases xs,
{
    match xs {
        IList::INil => Nat::Z,
        IList::ICons(_, t) => Nat::S(Box::new(length(*t))),
    }
}

pub fn drop(n: Nat, xs: IList) -> (r: IList)
    ensures
        r == spec_drop(n, xs),
    decreases n,
{
    match n {
        Nat::Z => xs,
        Nat::S(m) => match xs {
            IList::INil => IList::INil,
            IList::ICons(_, t) => drop(*m, *t),
        },
    }
}

pub fn lookup(x: Ident, env: Env) -> (r: Look)
    ensures
        r == spec_lookup(x, env),
    decreases env,
{
    match env {
        Env::ENil => Look::Missing,
        Env::ECons(y, v, rest) => {
            if x.eq(&y) {
                Look::Found(v)
            } else {
                lookup(x, *rest)
            }
        },
    }
}

/// Runs a binary arithmetic instruction on the two topmost numbers.
fn run_arith(i: Instr, ops: VList) -> (r: Option<VList>)
    requires
        i is IPlus || i is ISub || i is IMul || i is IDiv || i is IGeq || i is IGt,
    ensures
        r == arith(i, ops),
{
    match ops {
        VList::VCons(v1, t1) => match *t1 {
            VList::VCons(v2, t2) => match (v1, v2) {
                (Value::Num(a), Value::Num(b)) => match i {
                    Instr::IPlus => Some(VList::VCons(Value::Num(self::add(b, a)), t2)),
                    Instr::ISub => Some(VList::VCons(Value::Num(self::sub(b, a)), t2)),
                    Instr::IMul => Some(VList::VCons(Value::Num(self::mul(b, a)), t2)),
                    Instr::IDiv => {
                        if is_zero(a.copy()) {
                            None
                        } else {
                            Some(VList::VCons(Value::Num(div(b, a)), t2))
                        }
                    },
                    Instr::IGeq => Some(VList::VCons(Value::Bool(geq(b, a)), t2)),
                    Instr::IGt => Some(VList::VCons(Value::Bool(gt(b, a)), t2)),
                    _ => None,
                },
                _ => None,
            },
            _ => None,
        },
        _ => None,
    }
}

/// Runs a list of instructions on a stack and an environment.
pub fn exec(is: IList, ops: VList, env: Env) -> (r: Res)
    ensures
        r == spec_exec(is, ops, env),
    decreases ilen(is),
{
    match is {
        IList::INil => Res::Done(ops, env),
        IList::ICons(i, rest) => match i {
            Instr::IPush(d) => exec(*rest, VList::VCons(Value::Num(d), Box::new(ops)), env),
            Instr::IPushBool(b) => exec(*rest, VList::VCons(Value::Bool(b), Box::new(ops)), env),
            Instr::IEq => match ops {
                VList::VCons(v1, t1) => match *t1 {
                    VList::VCons(v2, t2) => {
                        if value_eq(&v1, &v2) {
                            exec(*rest, VList::VCons(Value::Bool(true), t2), env)
                        } else {
                            exec(*rest, VList::VCons(Value::Bool(false), t2), env)
                        }
                    },
                    _ => Res::Fail,
                },
                _ => Res::Fail,
            },
            Instr::INot => match ops {
                VList::VCons(Value::Bool(b), t) => exec(*rest, VList::VCons(Value::Bool(!b), t), env),
                _ => Res::Fail,
            },
            Instr::IStore(x) => match ops {
                VList::VCons(v, t) => exec(*rest, *t, Env::ECons(x, v, Box::new(env))),
                _ => Res::Fail,
            },
            Instr::ILoad(x) => match lookup(x, env.copy()) {
                Look::Found(v) => exec(*rest, VList::VCons(v, Box::new(ops)), env),
                Look::Missing => Res::Fail,
            },
            Instr::IPop => match env {
                Env::ECons(_, _, rest_env) => exec(*rest, ops, *rest_env),
                _ => Res::Fail,
            },
            Instr::ICondSkip(n) => match ops {
                VList::VCons(Value::Bool(true), t) => exec(*rest, *t, env),
                VList::VCons(Value::Bool(false), t) => {
                    proof {
                        lemma_drop_len(n, *rest);
                    }
                    exec(drop(n, *rest), *t, env)
                },
                _ => Res::Fail,
            },
            Instr::ISkip(n) => {
                proof {
                    lemma_drop_len(n, *rest);
                }
                exec(drop(n, *rest), ops, env)
            },
            _ => match run_arith(i, ops) {
                Some(new_ops) => exec(*rest, new_ops, env),
                None => Res::Fail,
            },
        },
    }
}

/// Evaluates an expression in an environment.
pub fn eval(e: Expr, env: Env) -> (r: EvRes)
    ensures
        r == spec_eval(e, env),
    decreases e,
{
    match e {
        Expr::Const(d) => EvRes::EvOk(Value::Num(d)),
        Expr::Id(x) => match lookup(x, env) {
            Look::Found(v) => EvRes::EvOk(v),
            Look::Missing => EvRes::EvErr,
        },
        Expr::Add(e1, e2) => match (eval(*e1, env.copy()), eval(*e2, env)) {
            (EvRes::EvOk(Value::Num(a)), EvRes::EvOk(Value::Num(b))) => EvRes::EvOk(Value::Num(self::add(a, b))),
            _ => EvRes::EvErr,
        },
        Expr::Sub(e1, e2) => match (eval(*e1, env.copy()), eval(*e2, env)) {
            (EvRes::EvOk(Value::Num(a)), EvRes::EvOk(Value::Num(b))) => EvRes::EvOk(Value::Num(self::sub(a, b))),
            _ => EvRes::EvErr,
        },
        Expr::Mul(e1, e2) => match (eval(*e1, env.copy()), eval(*e2, env)) {
            (EvRes::EvOk(Value::Num(a)), EvRes::EvOk(Value::Num(b))) => EvRes::EvOk(Value::Num(self::mul(a, b))),
            _ => EvRes::EvErr,
        },
        Expr::Div(e1, e2) => match (eval(*e1, env.copy()), eval(*e2, env)) {
            (EvRes::EvOk(Value::Num(a)), EvRes::EvOk(Value::Num(b))) => {
                if is_zero(b.copy()) {
                    EvRes::EvErr
                } else {
                    EvRes::EvOk(Value::Num(div(a, b)))
                }
            },
            _ => EvRes::EvErr,
        },
        Expr::Geq(e1, e2) => match (eval(*e1, env.copy()), eval(*e2, env)) {
            (EvRes::EvOk(Value::Num(a)), EvRes::EvOk(Value::Num(b))) => EvRes::EvOk(Value::Bool(geq(a, b))),
            _ => EvRes::EvErr,
        },
        Expr::Gt(e1, e2) => match (eval(*e1, env.copy()), eval(*e2, env)) {
            (EvRes::EvOk(Value::Num(a)), EvRes::EvOk(Value::Num(b))) => EvRes::EvOk(Value::Bool(gt(a, b))),
            _ => EvRes::EvErr,
        },
        Expr::Eq(e1, e2) => match (eval(*e1, env.copy()), eval(*e2, env)) {
            (EvRes::EvOk(a), EvRes::EvOk(b)) => {
                if value_eq(&a, &b) {
                    EvRes::EvOk(Value::Bool(true))
                } else {
                    EvRes::EvOk(Value::Bool(false))
                }
            },
            _ => EvRes::EvErr,
        },
        Expr::And(e1, e2) => match eval(*e1, env.copy()) {
            EvRes::EvOk(Value::Bool(true)) => eval(*e2, env),
            EvRes::EvOk(Value::Bool(false)) => EvRes::EvOk(Value::Bool(false)),
            _ => EvRes::EvErr,
        },
        Expr::Or(e1, e2) => match eval(*e1, env.copy()) {
            EvRes::EvOk(Value::Bool(true)) => EvRes::EvOk(Value::Bool(true)),
            EvRes::EvOk(Value::Bool(false)) => eval(*e2, env),
            _ => EvRes::EvErr,
        },
        Expr::Not(e1) => match eval(*e1, env) {
            EvRes::EvOk(Value::Bool(b)) => EvRes::EvOk(Value::Bool(!b)),
            _ => EvRes::EvErr,
        },
        Expr::IfThenElse(c, t, f) => match eval(*c, env.copy()) {
            EvRes::EvOk(Value::Bool(true)) => eval(*t, env),
            EvRes::EvOk(Value::Bool(false)) => eval(*f, env),
            _ => EvRes::EvErr,
        },
        Expr::Let(x, e1, e2) => match eval(*e1, env.copy()) {
            EvRes::EvOk(v) => eval(*e2, Env::ECons(x, v, Box::new(env))),
            EvRes::EvErr => EvRes::EvErr,
        },
    }
}

/// Compiles an expression to code that pushes its value.
pub fn compile(e: Expr) -> (r: IList)
    ensures
        r == spec_compile(e),
    decreases e,
{
    match e {
        Expr::Const(d) => IList::ICons(Instr::IPush(d), Box::new(IList::INil)),
        Expr::Id(x) => IList::ICons(Instr::ILoad(x), Box::new(IList::INil)),
        Expr::Add(e1, e2) => app(compile(*e1), app(compile(*e2), IList::ICons(Instr::IPlus, Box::new(IList::INil)))),
        Expr::Sub(e1, e2) => app(compile(*e1), app(compile(*e2), IList::ICons(Instr::ISub, Box::new(IList::INil)))),
        Expr::Mul(e1, e2) => app(compile(*e1), app(compile(*e2), IList::ICons(Instr::IMul, Box::new(IList::INil)))),
        Expr::Div(e1, e2) => app(compile(*e1), app(compile(*e2), IList::ICons(Instr::IDiv, Box::new(IList::INil)))),
        Expr::Geq(e1, e2) => app(compile(*e1), app(compile(*e2), IList::ICons(Instr::IGeq, Box::new(IList::INil)))),
        Expr::Gt(e1, e2) => app(compile(*e1), app(compile(*e2), IList::ICons(Instr::IGt, Box::new(IList::INil)))),
        Expr::Eq(e1, e2) => app(compile(*e1), app(compile(*e2), IList::ICons(Instr::IEq, Box::new(IList::INil)))),
        Expr::Not(e1) => app(compile(*e1), IList::ICons(Instr::INot, Box::new(IList::INil))),
        Expr::IfThenElse(c, t, f) => {
            let l1 = compile(*t);
            let l2 = compile(*f);
            let n1 = length(l1.copy());
            let n2 = length(l2.copy());
            app(
                compile(*c),
                IList::ICons(
                    Instr::ICondSkip(Nat::S(Box::new(n1))),
                    Box::new(app(l1, IList::ICons(Instr::ISkip(n2), Box::new(l2)))),
                ),
            )
        },
        Expr::And(e1, e2) => {
            let l2 = compile(*e2);
            let n2 = length(l2.copy());
            app(
                compile(*e1),
                IList::ICons(
                    Instr::ICondSkip(Nat::S(Box::new(n2))),
                    Box::new(app(
                        l2,
                        IList::ICons(
                            Instr::ISkip(Nat::S(Box::new(Nat::Z))),
                            Box::new(IList::ICons(Instr::IPushBool(false), Box::new(IList::INil))),
                        ),
                    )),
                ),
            )
        },
        Expr::Or(e1, e2) => {
            let l2 = compile(*e2);
            let n2 = length(l2.copy());
            app(
                compile(*e1),
                IList::ICons(
                    Instr::ICondSkip(Nat::S(Box::new(Nat::S(Box::new(Nat::Z))))),
                    Box::new(IList::ICons(
                        Instr::IPushBool(true),
                        Box::new(IList::ICons(Instr::ISkip(n2), Box::new(l2))),
                    )),
                ),
            )
        },
        Expr::Let(x, e1, e2) => app(
            compile(*e1),
            IList::ICons(Instr::IStore(x), Box::new(app(compile(*e2), IList::ICons(Instr::IPop, Box::new(IList::INil))))),
        ),
    }
}

} // verus!
