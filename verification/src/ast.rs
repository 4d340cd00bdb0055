//! The AST shared by the front end (signatures, type checking) and the back
//! end (ANF, NNF, relational abstraction, SMT encoding), together with its
//! mathematical view: every `String` is seen as its characters and every
//! `Vec` as a sequence.

use vstd::prelude::*;

verus! {

broadcast use vstd::std_specs::vec::group_vec_axioms;

/// Variable, function and constructor names.
pub type Ident = String;

/// The sorts a formula may quantify over: no built-in integers, only
/// booleans, tuples and user sorts, so that formulas stay in the EPR fragment.
#[derive(Debug, PartialEq, Eq)]
pub enum BaseType {
    Unit,
    Bool,
    Tuple(Vec<BaseType>),
    Custom(String),
}

/// The view of a [`BaseType`].
pub enum BaseTypeV {
    Unit,
    Bool,
    Tuple(Seq<BaseTypeV>),
    Custom(Seq<char>),
}

pub open spec fn base_view(b: BaseType) -> BaseTypeV
    decreases b,
{
    match b {
        BaseType::Unit => BaseTypeV::Unit,
        BaseType::Bool => BaseTypeV::Bool,
        BaseType::Tuple(ts) => BaseTypeV::Tuple(base_views(ts@)),
        BaseType::Custom(s) => BaseTypeV::Custom(s@),
    }
}

impl View for BaseType {
    type V = BaseTypeV;

    open spec fn view(&self) -> BaseTypeV {
        base_view(*self)
    }
}

/// The views of a sequence of base types.
pub open spec fn base_views(s: Seq<BaseType>) -> Seq<BaseTypeV>
    decreases s,
{
    Seq::new(s.len(), |i: int| if 0 <= i < s.len() { base_view(s[i]) } else { BaseTypeV::Unit })
}

impl BaseType {
    /// The unit type.
    pub fn unit() -> (r: Self)
        ensures
            r@ == BaseTypeV::Unit,
    {
        BaseType::Unit
    }
}

/// Binary connectives. Arithmetic and ordering are not operators: they
/// become calls of uninterpreted functions.
#[derive(Debug, Clone, Copy, PartialEq, Eq, Structural)]
pub enum BinOp {
    Eq,
    Neq,
    Or,
    And,
    Implies,
}

/// Unary connectives.
#[derive(Debug, Clone, Copy, PartialEq, Eq, Structural)]
pub enum UnOp {
    Not,
}

/// Patterns of `let` and `match`.
#[derive(Debug, PartialEq, Eq)]
pub enum Pattern {
    Wildcard,
    Ident(Ident),
    /// `arg_types` holds the constructor's field sorts once pattern
    /// resolution has run; it is `None` straight out of the parser.
    Constructor { name: Ident, args: Vec<Pattern>, arg_types: Option<Vec<BaseType>> },
    Tuple(Vec<Pattern>),
}

pub enum PatternV {
    Wildcard,
    Ident(Seq<char>),
    Constructor { name: Seq<char>, args: Seq<PatternV>, arg_types: Option<Seq<BaseTypeV>> },
    Tuple(Seq<PatternV>),
}

pub open spec fn pattern_view(p: Pattern) -> PatternV
    decreases p,
{
    match p {
        Pattern::Wildcard => PatternV::Wildcard,
        Pattern::Ident(x) => PatternV::Ident(x@),
        Pattern::Constructor { name, args, arg_types } => PatternV::Constructor {
            name: name@,
            args: pattern_views(args@),
            arg_types: match arg_types {
                Some(ts) => Some(base_views(ts@)),
                None => None,
            },
        },
        Pattern::Tuple(ps) => PatternV::Tuple(pattern_views(ps@)),
    }
}

impl View for Pattern {
    type V = PatternV;

    open spec fn view(&self) -> PatternV {
        pattern_view(*self)
    }
}

/// The views of a sequence of patterns.
pub open spec fn pattern_views(s: Seq<Pattern>) -> Seq<PatternV>
    decreases s,
{
    Seq::new(s.len(), |i: int| if 0 <= i < s.len() { pattern_view(s[i]) } else { PatternV::Wildcard })
}

/// Program expressions and logical formulas: one type from the parser to
/// the SMT encoder. `Call` disappears during relational abstraction, where
/// `ApplyRel` appears.
#[derive(Debug, PartialEq, Eq)]
#[allow(inconsistent_fields)]
pub enum Expr {
    BoolConst(bool),
    Var(Ident),
    Tuple(Vec<Expr>),
    BinOp { op: BinOp, left: Box<Expr>, right: Box<Expr> },
    UnOp { op: UnOp, expr: Box<Expr> },
    If { cond: Box<Expr>, then_expr: Box<Expr>, else_expr: Box<Expr> },
    Let { pat: Pattern, bound_expr: Box<Expr>, body: Box<Expr> },
    Match { expr: Box<Expr>, arms: Vec<(Pattern, Expr)> },
    Call { func: Ident, args: Vec<Expr> },
    Constructor { name: Ident, args: Vec<Expr> },
    ApplyRel { relation: Ident, args: Vec<Expr> },
    Forall { binders: Vec<(Ident, BaseType)>, body: Box<Expr> },
    Exists { binders: Vec<(Ident, BaseType)>, body: Box<Expr> },
    /// A hint: the term's function calls are forced to be defined.
    Instantiate(Box<Expr>),
    /// An `Instantiate` after ANF: the bindings its calls were flattened to.
    ExistentialBindings(Vec<(Ident, Expr)>),
}

#[allow(inconsistent_fields)]
pub enum ExprV {
    BoolConst(bool),
    Var(Seq<char>),
    Tuple(Seq<ExprV>),
    BinOp { op: BinOp, left: Box<ExprV>, right: Box<ExprV> },
    UnOp { op: UnOp, expr: Box<ExprV> },
    If { cond: Box<ExprV>, then_expr: Box<ExprV>, else_expr: Box<ExprV> },
    Let { pat: PatternV, bound_expr: Box<ExprV>, body: Box<ExprV> },
    Match { expr: Box<ExprV>, arms: Seq<(PatternV, ExprV)> },
    Call { func: Seq<char>, args: Seq<ExprV> },
    Constructor { name: Seq<char>, args: Seq<ExprV> },
    ApplyRel { relation: Seq<char>, args: Seq<ExprV> },
    Forall { binders: Seq<(Seq<char>, BaseTypeV)>, body: Box<ExprV> },
    Exists { binders: Seq<(Seq<char>, BaseTypeV)>, body: Box<ExprV> },
    Instantiate(Box<ExprV>),
    ExistentialBindings(Seq<(Seq<char>, ExprV)>),
}

pub open spec fn binders_view(bs: Seq<(Ident, BaseType)>) -> Seq<(Seq<char>, BaseTypeV)> {
    Seq::new(bs.len(), |i: int| (bs[i].0@, bs[i].1@))
}

pub open spec fn expr_view(e: Expr) -> ExprV
    decreases e,
{
    match e {
        Expr::BoolConst(b) => ExprV::BoolConst(b),
        Expr::Var(x) => ExprV::Var(x@),
        Expr::Tuple(es) => ExprV::Tuple(expr_views(es@)),
        Expr::BinOp { op, left, right } => ExprV::BinOp {
            op,
            left: Box::new(expr_view(*left)),
            right: Box::new(expr_view(*right)),
        },
        Expr::UnOp { op, expr } => ExprV::UnOp { op, expr: Box::new(expr_view(*expr)) },
        Expr::If { cond, then_expr, else_expr } => ExprV::If {
            cond: Box::new(expr_view(*cond)),
            then_expr: Box::new(expr_view(*then_expr)),
            else_expr: Box::new(expr_view(*else_expr)),
        },
        Expr::Let { pat, bound_expr, body } => ExprV::Let {
            pat: pat@,
            bound_expr: Box::new(expr_view(*bound_expr)),
            body: Box::new(expr_view(*body)),
        },
        Expr::Match { expr, arms } => ExprV::Match {
            expr: Box::new(expr_view(*expr)),
            arms: arms_view(arms@),
        },
        Expr::Call { func, args } => ExprV::Call {
            func: func@,
            args: expr_views(args@),
        },
        Expr::Constructor { name, args } => ExprV::Constructor {
            name: name@,
            args: expr_views(args@),
        },
        Expr::ApplyRel { relation, args } => ExprV::ApplyRel {
            relation: relation@,
            args: expr_views(args@),
        },
        Expr::Forall { binders, body } => ExprV::Forall {
            binders: binders_view(binders@),
            body: Box::new(expr_view(*body)),
        },
        Expr::Exists { binders, body } => ExprV::Exists {
            binders: binders_view(binders@),
            body: Box::new(expr_view(*body)),
        },
        Expr::Instantiate(inner) => ExprV::Instantiate(Box::new(expr_view(*inner))),
        Expr::ExistentialBindings(bs) => ExprV::ExistentialBindings(bindings_view(bs@)),
    }
}

impl View for Expr {
    type V = ExprV;

    open spec fn view(&self) -> ExprV {
        expr_view(*self)
    }
}

/// The views of a sequence of expressions.
pub open spec fn expr_views(s: Seq<Expr>) -> Seq<ExprV>
    decreases s,
{
    Seq::new(s.len(), |i: int| if 0 <= i < s.len() { expr_view(s[i]) } else { ExprV::BoolConst(true) })
}

/// The views of the arms of a `match`.
pub open spec fn arms_view(s: Seq<(Pattern, Expr)>) -> Seq<(PatternV, ExprV)>
    decreases s,
{
    Seq::new(s.len(), |i: int| if 0 <= i < s.len() { (s[i].0@, expr_view(s[i].1)) } else { (PatternV::Wildcard, ExprV::BoolConst(true)) })
}

/// The views of named bindings.
pub open spec fn bindings_view(s: Seq<(Ident, Expr)>) -> Seq<(Seq<char>, ExprV)>
    decreases s,
{
    Seq::new(s.len(), |i: int| if 0 <= i < s.len() { (s[i].0@, expr_view(s[i].1)) } else { (Seq::empty(), ExprV::BoolConst(true)) })
}


/// A refinement type `{ bound_var: base | predicate }`.
#[derive(Debug, PartialEq, Eq)]
pub struct RefinedType {
    pub bound_var: Ident,
    pub base: BaseType,
    pub predicate: Expr,
}

/// A dependent function type `param_name: param_type -> ret_type`.
#[derive(Debug, PartialEq, Eq)]
pub struct FunType {
    pub param_name: Ident,
    pub param_type: Box<Type>,
    pub ret_type: Box<Type>,
}

/// Types: plain base types, refinements of them, and dependent arrows.
#[derive(Debug, PartialEq, Eq)]
pub enum Type {
    Base(BaseType),
    Refined(RefinedType),
    Arrow(FunType),
}

pub enum TypeV {
    Base(BaseTypeV),
    Refined { bound_var: Seq<char>, base: BaseTypeV, predicate: ExprV },
    Arrow { param_name: Seq<char>, param_type: Box<TypeV>, ret_type: Box<TypeV> },
}

pub open spec fn type_view(t: Type) -> TypeV
    decreases t,
{
    match t {
        Type::Base(b) => TypeV::Base(b@),
        Type::Refined(r) => TypeV::Refined { bound_var: r.bound_var@, base: r.base@, predicate: r.predicate@ },
        Type::Arrow(f) => TypeV::Arrow {
            param_name: f.param_name@,
            param_type: Box::new(type_view(*f.param_type)),
            ret_type: Box::new(type_view(*f.ret_type)),
        },
    }
}

impl View for Type {
    type V = TypeV;

    open spec fn view(&self) -> TypeV {
        type_view(*self)
    }
}

/// One function of the program: its signature, its body if it has one, and
/// whether it was declared recursive.
#[derive(Debug)]
pub struct FunctionDef {
    pub signature: Type,
    pub body: Option<Expr>,
    pub is_recursive: bool,
}

/// A verification condition together with the instantiation hints scoped to it.
#[derive(Debug)]
pub struct SubGoal {
    pub property: Expr,
    pub instantiations: Vec<Expr>,
}

/// A named theorem to prove, with the hints the user gave for it.
#[derive(Debug)]
pub struct Goal {
    pub name: Ident,
    pub property: Expr,
    pub instantiations: Vec<Expr>,
}

/// The whole program handed from the front end to the back end.
///
/// `datatypes` and `functions` are association lists keyed by name; no name
/// occurs twice in either (see [`Program::wf`]).
#[derive(Debug)]
pub struct Program {
    pub datatypes: Vec<(Ident, Vec<(Ident, Vec<BaseType>)>)>,
    pub functions: Vec<(Ident, FunctionDef)>,
    pub goals: Vec<Goal>,
}

/// The names of an association list.
pub open spec fn keys_of<T>(s: Seq<(Ident, T)>) -> Seq<Seq<char>> {
    Seq::new(s.len(), |i: int| s[i].0@)
}

/// No name occurs twice.
pub open spec fn distinct_names(names: Seq<Seq<char>>) -> bool {
    forall|i: int, j: int| 0 <= i < names.len() && 0 <= j < names.len() && i != j ==> names[i] != names[j]
}

/// Whether no name occurs twice in an association list.
pub fn distinct_keys<T>(s: &Vec<(Ident, T)>) -> (r: bool)
    ensures
        r == distinct_names(keys_of(s@)),
{
    let ghost ks = keys_of(s@);
    let mut i: usize = 0;
    while i < s.len()
        invariant
            0 <= i <= s@.len(),
            ks == keys_of(s@),
            forall|a: int, b: int| 0 <= a < i && 0 <= b < s@.len() && a != b ==> ks[a] != ks[b],
        decreases s@.len() - i,
    {
        let mut j: usize = 0;
        while j < s.len()
            invariant
                0 <= i < s@.len(),
                0 <= j <= s@.len(),
                ks == keys_of(s@),
                forall|a: int, b: int| 0 <= a < i && 0 <= b < s@.len() && a != b ==> ks[a] != ks[b],
                forall|b: int| 0 <= b < j && b != i ==> ks[i as int] != ks[b],
            decreases s@.len() - j,
        {
            if i != j && s[i].0.eq(&s[j].0) {
                proof {
                    assert(ks[i as int] == ks[j as int]);
                }
                return false;
            }
            j = j + 1;
        }
        i = i + 1;
    }
    true
}

impl Program {
    /// Each datatype and each function is declared once.
    pub open spec fn wf(&self) -> bool {
        &&& distinct_names(keys_of(self.datatypes@))
        &&& distinct_names(keys_of(self.functions@))
    }

    /// Whether each datatype and each function is declared once.
    pub fn is_wf(&self) -> (r: bool)
        ensures
            r == self.wf(),
    {
        distinct_keys(&self.datatypes) && distinct_keys(&self.functions)
    }

    /// The empty program.
    pub fn new() -> (p: Self)
        ensures
            p.wf(),
            p.datatypes@.len() == 0,
            p.functions@.len() == 0,
            p.goals@.len() == 0,
    {
        Program { datatypes: Vec::new(), functions: Vec::new(), goals: Vec::new() }
    }
}


/// The view of a sequence of expressions is taken element by element.
pub broadcast proof fn lemma_expr_views(s: Seq<Expr>)
    ensures
        #[trigger] expr_views(s).len() == s.len(),
        forall|i: int| 0 <= i < s.len() ==> #[trigger] expr_views(s)[i] == s[i]@,
{
}

/// The view of a sequence of patterns is taken element by element.
pub broadcast proof fn lemma_pattern_views(s: Seq<Pattern>)
    ensures
        #[trigger] pattern_views(s).len() == s.len(),
        forall|i: int| 0 <= i < s.len() ==> #[trigger] pattern_views(s)[i] == s[i]@,
{
}

/// The view of a sequence of base types is taken element by element.
pub broadcast proof fn lemma_base_views(s: Seq<BaseType>)
    ensures
        #[trigger] base_views(s).len() == s.len(),
        forall|i: int| 0 <= i < s.len() ==> #[trigger] base_views(s)[i] == s[i]@,
{
}

/// The view of the arms of a `match` is taken arm by arm.
pub broadcast proof fn lemma_arms_view(s: Seq<(Pattern, Expr)>)
    ensures
        #[trigger] arms_view(s).len() == s.len(),
        forall|i: int| 0 <= i < s.len() ==> #[trigger] arms_view(s)[i] == (s[i].0@, s[i].1@),
{
}

/// The view of named bindings is taken binding by binding.
pub broadcast proof fn lemma_bindings_view(s: Seq<(Ident, Expr)>)
    ensures
        #[trigger] bindings_view(s).len() == s.len(),
        forall|i: int| 0 <= i < s.len() ==> #[trigger] bindings_view(s)[i] == (s[i].0@, s[i].1@),
{
}

pub broadcast group group_ast_views {
    lemma_expr_views,
    lemma_pattern_views,
    lemma_base_views,
    lemma_arms_view,
    lemma_bindings_view,
}

impl BaseType {
    /// A copy of the sort.
    #[verifier::loop_isolation(false)]
    pub fn deep_clone(&self) -> (r: BaseType)
        ensures
            r@ == self@,
        decreases self,
    {
        match self {
            BaseType::Unit => BaseType::Unit,
            BaseType::Bool => BaseType::Bool,
            BaseType::Custom(s) => BaseType::Custom(s.clone()),
            BaseType::Tuple(ts) => {
                let mut out: Vec<BaseType> = Vec::new();
                let mut i: usize = 0;
                while i < ts.len()
                    invariant
                        0 <= i <= ts@.len(),
                        out@.len() == i,
                        forall|k: int| 0 <= k < i ==> #[trigger] out@[k]@ == ts@[k]@,
                    decreases ts@.len() - i,
                {
                    proof {
                        assert(decreases_to!(*self => (*self)->Tuple_0));
                        assert(decreases_to!(ts@ => ts@[i as int]));
                    }
                    let c = ts[i].deep_clone();
                    out.push(c);
                    i = i + 1;
                }
                proof {
                    lemma_base_views(out@);
                    lemma_base_views(ts@);
                    assert(base_views(out@) =~= base_views(ts@));
                }
                BaseType::Tuple(out)
            },
        }
    }
}

/// A copy of a list of sorts.
pub fn clone_base_types(ts: &Vec<BaseType>) -> (r: Vec<BaseType>)
    ensures
        base_views(r@) == base_views(ts@),
{
    let mut out: Vec<BaseType> = Vec::new();
    let mut i: usize = 0;
    while i < ts.len()
        invariant
            0 <= i <= ts@.len(),
            out@.len() == i,
            forall|k: int| 0 <= k < i ==> #[trigger] out@[k]@ == ts@[k]@,
        decreases ts@.len() - i,
    {
        let c = ts[i].deep_clone();
        out.push(c);
        i = i + 1;
    }
    proof {
        lemma_base_views(out@);
        lemma_base_views(ts@);
        assert(base_views(out@) =~= base_views(ts@));
    }
    out
}

impl Pattern {
    /// A copy of the pattern.
    #[verifier::loop_isolation(false)]
    pub fn deep_clone(&self) -> (r: Pattern)
        ensures
            r@ == self@,
        decreases self,
    {
        match self {
            Pattern::Wildcard => Pattern::Wildcard,
            Pattern::Ident(s) => Pattern::Ident(s.clone()),
            Pattern::Constructor { name, args, arg_types } => {
                let mut out: Vec<Pattern> = Vec::new();
                let mut i: usize = 0;
                while i < args.len()
                    invariant
                        0 <= i <= args@.len(),
                        out@.len() == i,
                        forall|k: int| 0 <= k < i ==> #[trigger] out@[k]@ == args@[k]@,
                    decreases args@.len() - i,
                {
                    proof {
                        assert(decreases_to!(*self => (*self)->args));
                        assert(decreases_to!(args@ => args@[i as int]));
                    }
                    let c = args[i].deep_clone();
                    out.push(c);
                    i = i + 1;
                }
                proof {
                    lemma_pattern_views(out@);
                    lemma_pattern_views(args@);
                    assert(pattern_views(out@) =~= pattern_views(args@));
                }
                let tys = match arg_types {
                    Some(ts) => Some(clone_base_types(ts)),
                    None => None,
                };
                Pattern::Constructor { name: name.clone(), args: out, arg_types: tys }
            },
            Pattern::Tuple(ps) => {
                let mut out: Vec<Pattern> = Vec::new();
                let mut i: usize = 0;
                while i < ps.len()
                    invariant
                        0 <= i <= ps@.len(),
                        out@.len() == i,
                        forall|k: int| 0 <= k < i ==> #[trigger] out@[k]@ == ps@[k]@,
                    decreases ps@.len() - i,
                {
                    proof {
                        assert(decreases_to!(*self => (*self)->Tuple_0));
                        assert(decreases_to!(ps@ => ps@[i as int]));
                    }
                    let c = ps[i].deep_clone();
                    out.push(c);
                    i = i + 1;
                }
                proof {
                    lemma_pattern_views(out@);
                    lemma_pattern_views(ps@);
                    assert(pattern_views(out@) =~= pattern_views(ps@));
                }
                Pattern::Tuple(out)
            },
        }
    }
}

/// A copy of a list of binders.
pub fn clone_binders(bs: &Vec<(Ident, BaseType)>) -> (r: Vec<(Ident, BaseType)>)
    ensures
        binders_view(r@) == binders_view(bs@),
{
    let mut out: Vec<(Ident, BaseType)> = Vec::new();
    let mut i: usize = 0;
    while i < bs.len()
        invariant
            0 <= i <= bs@.len(),
            out@.len() == i,
            forall|k: int| 0 <= k < i ==> (#[trigger] out@[k]).0@ == bs@[k].0@ && out@[k].1@ == bs@[k].1@,
        decreases bs@.len() - i,
    {
        let c = (bs[i].0.clone(), bs[i].1.deep_clone());
        out.push(c);
        i = i + 1;
    }
    proof {
        assert(binders_view(out@) =~= binders_view(bs@));
    }
    out
}

impl Expr {
    /// A copy of the expression.
    #[verifier::loop_isolation(false)]
    pub fn deep_clone(&self) -> (r: Expr)
        ensures
            r@ == self@,
        decreases self,
    {
        match self {
            Expr::BoolConst(b) => Expr::BoolConst(*b),
            Expr::Var(x) => Expr::Var(x.clone()),
            Expr::Tuple(es) => {
                proof {
                    assert(decreases_to!(*self => (*self)->Tuple_0));
                }
                Expr::Tuple(clone_exprs(es))
            },
            Expr::BinOp { op, left, right } => Expr::BinOp {
                op: *op,
                left: Box::new(left.deep_clone()),
                right: Box::new(right.deep_clone()),
            },
            Expr::UnOp { op, expr } => Expr::UnOp { op: *op, expr: Box::new(expr.deep_clone()) },
            Expr::If { cond, then_expr, else_expr } => Expr::If {
                cond: Box::new(cond.deep_clone()),
                then_expr: Box::new(then_expr.deep_clone()),
                else_expr: Box::new(else_expr.deep_clone()),
            },
            Expr::Let { pat, bound_expr, body } => Expr::Let {
                pat: pat.deep_clone(),
                bound_expr: Box::new(bound_expr.deep_clone()),
                body: Box::new(body.deep_clone()),
            },
            Expr::Match { expr, arms } => {
                let t = expr.deep_clone();
                let mut out: Vec<(Pattern, Expr)> = Vec::new();
                let mut i: usize = 0;
                while i < arms.len()
                    invariant
                        0 <= i <= arms@.len(),
                        out@.len() == i,
                        forall|k: int| 0 <= k < i ==> (#[trigger] out@[k]).0@ == arms@[k].0@ && out@[k].1@ == arms@[k].1@,
                    decreases arms@.len() - i,
                {
                    proof {
                        assert(decreases_to!(*self => (*self)->arms));
                        assert(decreases_to!(arms@ => arms@[i as int]));
                        assert(decreases_to!(arms@[i as int] => arms@[i as int].1));
                    }
                    let c = (arms[i].0.deep_clone(), arms[i].1.deep_clone());
                    out.push(c);
                    i = i + 1;
                }
                proof {
                    lemma_arms_view(out@);
                    lemma_arms_view(arms@);
                    assert(arms_view(out@) =~= arms_view(arms@));
                }
                Expr::Match { expr: Box::new(t), arms: out }
            },
            Expr::Call { func, args } => {
                proof {
                    assert(decreases_to!(*self => (*self)->Call_args));
                }
                Expr::Call { func: func.clone(), args: clone_exprs(args) }
            },
            Expr::Constructor { name, args } => {
                proof {
                    assert(decreases_to!(*self => (*self)->Constructor_args));
                }
                Expr::Constructor { name: name.clone(), args: clone_exprs(args) }
            },
            Expr::ApplyRel { relation, args } => {
                proof {
                    assert(decreases_to!(*self => (*self)->ApplyRel_args));
                }
                Expr::ApplyRel { relation: relation.clone(), args: clone_exprs(args) }
            },
            Expr::Forall { binders, body } => Expr::Forall {
                binders: clone_binders(binders),
                body: Box::new(body.deep_clone()),
            },
            Expr::Exists { binders, body } => Expr::Exists {
                binders: clone_binders(binders),
                body: Box::new(body.deep_clone()),
            },
            Expr::Instantiate(inner) => Expr::Instantiate(Box::new(inner.deep_clone())),
            Expr::ExistentialBindings(bs) => {
                let mut out: Vec<(Ident, Expr)> = Vec::new();
                let mut i: usize = 0;
                while i < bs.len()
                    invariant
                        0 <= i <= bs@.len(),
                        out@.len() == i,
                        forall|k: int| 0 <= k < i ==> (#[trigger] out@[k]).0@ == bs@[k].0@ && out@[k].1@ == bs@[k].1@,
                    decreases bs@.len() - i,
                {
                    proof {
                        assert(decreases_to!(*self => (*self)->ExistentialBindings_0));
                        assert(decreases_to!(bs@ => bs@[i as int]));
                        assert(decreases_to!(bs@[i as int] => bs@[i as int].1));
                    }
                    let c = (bs[i].0.clone(), bs[i].1.deep_clone());
                    out.push(c);
                    i = i + 1;
                }
                proof {
                    lemma_bindings_view(out@);
                    lemma_bindings_view(bs@);
                    assert(bindings_view(out@) =~= bindings_view(bs@));
                }
                Expr::ExistentialBindings(out)
            },
        }
    }
}

/// A copy of a list of expressions.
pub fn clone_exprs(es: &Vec<Expr>) -> (r: Vec<Expr>)
    ensures
        expr_views(r@) == expr_views(es@),
    decreases es,
{
    let mut out: Vec<Expr> = Vec::new();
    let mut i: usize = 0;
    while i < es.len()
        invariant
            0 <= i <= es@.len(),
            out@.len() == i,
            forall|k: int| 0 <= k < i ==> #[trigger] out@[k]@ == es@[k]@,
        decreases es@.len() - i,
    {
        proof {
            assert(decreases_to!(*es => es@));
            assert(decreases_to!(es@ => es@[i as int]));
        }
        let c = es[i].deep_clone();
        out.push(c);
        i = i + 1;
    }
    proof {
        lemma_expr_views(out@);
        lemma_expr_views(es@);
        assert(expr_views(out@) =~= expr_views(es@));
    }
    out
}

/// Whether two strings have the same characters.
pub fn same_text(a: &String, b: &String) -> (r: bool)
    ensures
        r == (a@ == b@),
{
    a.eq(b)
}

impl BaseType {
    /// Structural equality of sorts.
    #[verifier::loop_isolation(false)]
    pub fn same(&self, other: &BaseType) -> (r: bool)
        ensures
            r == (self@ == other@),
        decreases self,
    {
        match (self, other) {
            (BaseType::Unit, BaseType::Unit) => true,
            (BaseType::Bool, BaseType::Bool) => true,
            (BaseType::Custom(a), BaseType::Custom(b)) => same_text(a, b),
            (BaseType::Tuple(xs), BaseType::Tuple(ys)) => {
                proof {
                    lemma_base_views(xs@);
                    lemma_base_views(ys@);
                }
                if xs.len() != ys.len() {
                    return false;
                }
                let mut i: usize = 0;
                while i < xs.len()
                    invariant
                        0 <= i <= xs@.len(),
                        forall|k: int| 0 <= k < i ==> #[trigger] xs@[k]@ == ys@[k]@,
                    decreases xs@.len() - i,
                {
                    proof {
                        assert(decreases_to!(*self => (*self)->Tuple_0));
                        assert(decreases_to!(xs@ => xs@[i as int]));
                    }
                    if !xs[i].same(&ys[i]) {
                        proof {
                            assert(base_views(xs@)[i as int] != base_views(ys@)[i as int]);
                        }
                        return false;
                    }
                    i = i + 1;
                }
                proof {
                    assert(base_views(xs@) =~= base_views(ys@));
                }
                true
            },
            _ => false,
        }
    }
}

/// Elementwise equality of two lists of sorts.
pub fn same_base_types(xs: &Vec<BaseType>, ys: &Vec<BaseType>) -> (r: bool)
    ensures
        r == (base_views(xs@) == base_views(ys@)),
{
    proof {
        lemma_base_views(xs@);
        lemma_base_views(ys@);
    }
    if xs.len() != ys.len() {
        return false;
    }
    let mut i: usize = 0;
    while i < xs.len()
        invariant
            0 <= i <= xs@.len(),
            xs@.len() == ys@.len(),
            forall|k: int| 0 <= k < i ==> #[trigger] xs@[k]@ == ys@[k]@,
        decreases xs@.len() - i,
    {
        if !xs[i].same(&ys[i]) {
            proof {
                assert(base_views(xs@)[i as int] != base_views(ys@)[i as int]);
            }
            return false;
        }
        i = i + 1;
    }
    proof {
        assert(base_views(xs@) =~= base_views(ys@));
    }
    true
}

impl Pattern {
    /// Structural equality of patterns.
    pub fn same(&self, other: &Pattern) -> (r: bool)
        ensures
            r == (self@ == other@),
        decreases self,
    {
        match (self, other) {
            (Pattern::Wildcard, Pattern::Wildcard) => true,
            (Pattern::Ident(a), Pattern::Ident(b)) => same_text(a, b),
            (
                Pattern::Constructor { name: n1, args: a1, arg_types: t1 },
                Pattern::Constructor { name: n2, args: a2, arg_types: t2 },
            ) => {
                proof {
                    assert(decreases_to!(*self => (*self)->args));
                }
                if !same_text(n1, n2) {
                    return false;
                }
                if !same_patterns(a1, a2) {
                    return false;
                }
                match (t1, t2) {
                    (Some(x), Some(y)) => same_base_types(x, y),
                    (None, None) => true,
                    _ => false,
                }
            },
            (Pattern::Tuple(a1), Pattern::Tuple(a2)) => {
                proof {
                    assert(decreases_to!(*self => (*self)->Tuple_0));
                }
                same_patterns(a1, a2)
            },
            _ => false,
        }
    }
}

/// Elementwise equality of two lists of patterns.
pub fn same_patterns(xs: &Vec<Pattern>, ys: &Vec<Pattern>) -> (r: bool)
    ensures
        r == (pattern_views(xs@) == pattern_views(ys@)),
    decreases xs,
{
    proof {
        lemma_pattern_views(xs@);
        lemma_pattern_views(ys@);
    }
    if xs.len() != ys.len() {
        return false;
    }
    let mut i: usize = 0;
    while i < xs.len()
        invariant
            0 <= i <= xs@.len(),
            xs@.len() == ys@.len(),
            forall|k: int| 0 <= k < i ==> #[trigger] xs@[k]@ == ys@[k]@,
        decreases xs@.len() - i,
    {
        proof {
            assert(decreases_to!(*xs => xs@));
            assert(decreases_to!(xs@ => xs@[i as int]));
        }
        if !xs[i].same(&ys[i]) {
            proof {
                assert(pattern_views(xs@)[i as int] != pattern_views(ys@)[i as int]);
            }
            return false;
        }
        i = i + 1;
    }
    proof {
        assert(pattern_views(xs@) =~= pattern_views(ys@));
    }
    true
}

/// Elementwise equality of two binder lists.
pub fn same_binders(xs: &Vec<(Ident, BaseType)>, ys: &Vec<(Ident, BaseType)>) -> (r: bool)
    ensures
        r == (binders_view(xs@) == binders_view(ys@)),
{
    if xs.len() != ys.len() {
        proof {
            assert(binders_view(xs@).len() != binders_view(ys@).len());
        }
        return false;
    }
    let mut i: usize = 0;
    while i < xs.len()
        invariant
            0 <= i <= xs@.len(),
            xs@.len() == ys@.len(),
            forall|k: int| 0 <= k < i ==> (#[trigger] xs@[k]).0@ == ys@[k].0@ && xs@[k].1@ == ys@[k].1@,
        decreases xs@.len() - i,
    {
        if !same_text(&xs[i].0, &ys[i].0) || !xs[i].1.same(&ys[i].1) {
            proof {
                assert(binders_view(xs@)[i as int] != binders_view(ys@)[i as int]);
            }
            return false;
        }
        i = i + 1;
    }
    proof {
        assert(binders_view(xs@) =~= binders_view(ys@));
    }
    true
}

impl Expr {
    /// Structural equality of expressions.
    #[verifier::loop_isolation(false)]
    pub fn same(&self, other: &Expr) -> (r: bool)
        ensures
            r == (self@ == other@),
        decreases self,
    {
        match (self, other) {
            (Expr::BoolConst(a), Expr::BoolConst(b)) => *a == *b,
            (Expr::Var(a), Expr::Var(b)) => same_text(a, b),
            (Expr::Tuple(a), Expr::Tuple(b)) => {
                proof {
                    assert(decreases_to!(*self => (*self)->Tuple_0));
                }
                same_exprs(a, b)
            },
            (Expr::BinOp { op: o1, left: l1, right: r1 }, Expr::BinOp { op: o2, left: l2, right: r2 }) => {
                *o1 == *o2 && l1.same(l2) && r1.same(r2)
            },
            (Expr::UnOp { op: o1, expr: e1 }, Expr::UnOp { op: o2, expr: e2 }) => *o1 == *o2 && e1.same(e2),
            (
                Expr::If { cond: c1, then_expr: t1, else_expr: f1 },
                Expr::If { cond: c2, then_expr: t2, else_expr: f2 },
            ) => c1.same(c2) && t1.same(t2) && f1.same(f2),
            (
                Expr::Let { pat: p1, bound_expr: b1, body: y1 },
                Expr::Let { pat: p2, bound_expr: b2, body: y2 },
            ) => p1.same(p2) && b1.same(b2) && y1.same(y2),
            (Expr::Match { expr: e1, arms: a1 }, Expr::Match { expr: e2, arms: a2 }) => {
                proof {
                    lemma_arms_view(a1@);
                    lemma_arms_view(a2@);
                }
                if !e1.same(e2) || a1.len() != a2.len() {
                    return false;
                }
                let mut i: usize = 0;
                while i < a1.len()
                    invariant
                        0 <= i <= a1@.len(),
                        a1@.len() == a2@.len(),
                        forall|k: int| 0 <= k < i ==> (#[trigger] a1@[k]).0@ == a2@[k].0@ && a1@[k].1@ == a2@[k].1@,
                    decreases a1@.len() - i,
                {
                    proof {
                        assert(decreases_to!(*self => (*self)->arms));
                        assert(decreases_to!(a1@ => a1@[i as int]));
                        assert(decreases_to!(a1@[i as int] => a1@[i as int].1));
                    }
                    if !a1[i].0.same(&a2[i].0) || !a1[i].1.same(&a2[i].1) {
                        proof {
                            assert(arms_view(a1@)[i as int] != arms_view(a2@)[i as int]);
                        }
                        return false;
                    }
                    i = i + 1;
                }
                proof {
                    assert(arms_view(a1@) =~= arms_view(a2@));
                }
                true
            },
            (Expr::Call { func: f1, args: a1 }, Expr::Call { func: f2, args: a2 }) => {
                proof {
                    assert(decreases_to!(*self => (*self)->Call_args));
                }
                same_text(f1, f2) && same_exprs(a1, a2)
            },
            (Expr::Constructor { name: f1, args: a1 }, Expr::Constructor { name: f2, args: a2 }) => {
                proof {
                    assert(decreases_to!(*self => (*self)->Constructor_args));
                }
                same_text(f1, f2) && same_exprs(a1, a2)
            },
            (Expr::ApplyRel { relation: f1, args: a1 }, Expr::ApplyRel { relation: f2, args: a2 }) => {
                proof {
                    assert(decreases_to!(*self => (*self)->ApplyRel_args));
                }
                same_text(f1, f2) && same_exprs(a1, a2)
            },
            (Expr::Forall { binders: b1, body: y1 }, Expr::Forall { binders: b2, body: y2 }) => {
                same_binders(b1, b2) && y1.same(y2)
            },
            (Expr::Exists { binders: b1, body: y1 }, Expr::Exists { binders: b2, body: y2 }) => {
                same_binders(b1, b2) && y1.same(y2)
            },
            (Expr::Instantiate(a), Expr::Instantiate(b)) => a.same(b),
            (Expr::ExistentialBindings(a1), Expr::ExistentialBindings(a2)) => {
                proof {
                    lemma_bindings_view(a1@);
                    lemma_bindings_view(a2@);
                }
                if a1.len() != a2.len() {
                    return false;
                }
                let mut i: usize = 0;
                while i < a1.len()
                    invariant
                        0 <= i <= a1@.len(),
                        a1@.len() == a2@.len(),
                        forall|k: int| 0 <= k < i ==> (#[trigger] a1@[k]).0@ == a2@[k].0@ && a1@[k].1@ == a2@[k].1@,
                    decreases a1@.len() - i,
                {
                    proof {
                        assert(decreases_to!(*self => (*self)->ExistentialBindings_0));
                        assert(decreases_to!(a1@ => a1@[i as int]));
                        assert(decreases_to!(a1@[i as int] => a1@[i as int].1));
                    }
                    if !same_text(&a1[i].0, &a2[i].0) || !a1[i].1.same(&a2[i].1) {
                        proof {
                            assert(bindings_view(a1@)[i as int] != bindings_view(a2@)[i as int]);
                        }
                        return false;
                    }
                    i = i + 1;
                }
                proof {
                    assert(bindings_view(a1@) =~= bindings_view(a2@));
                }
                true
            },
            _ => false,
        }
    }
}

/// Elementwise equality of two lists of expressions.
pub fn same_exprs(xs: &Vec<Expr>, ys: &Vec<Expr>) -> (r: bool)
    ensures
        r == (expr_views(xs@) == expr_views(ys@)),
    decreases xs,
{
    proof {
        lemma_expr_views(xs@);
        lemma_expr_views(ys@);
    }
    if xs.len() != ys.len() {
        return false;
    }
    let mut i: usize = 0;
    while i < xs.len()
        invariant
            0 <= i <= xs@.len(),
            xs@.len() == ys@.len(),
            forall|k: int| 0 <= k < i ==> #[trigger] xs@[k]@ == ys@[k]@,
        decreases xs@.len() - i,
    {
        proof {
            assert(decreases_to!(*xs => xs@));
            assert(decreases_to!(xs@ => xs@[i as int]));
        }
        if !xs[i].same(&ys[i]) {
            proof {
                assert(expr_views(xs@)[i as int] != expr_views(ys@)[i as int]);
            }
            return false;
        }
        i = i + 1;
    }
    proof {
        assert(expr_views(xs@) =~= expr_views(ys@));
    }
    true
}

impl Type {
    /// A copy of the type.
    pub fn deep_clone(&self) -> (r: Type)
        ensures
            r@ == self@,
        decreases self,
    {
        match self {
            Type::Base(b) => Type::Base(b.deep_clone()),
            Type::Refined(r) => Type::Refined(RefinedType {
                bound_var: r.bound_var.clone(),
                base: r.base.deep_clone(),
                predicate: r.predicate.deep_clone(),
            }),
            Type::Arrow(f) => Type::Arrow(FunType {
                param_name: f.param_name.clone(),
                param_type: Box::new(f.param_type.deep_clone()),
                ret_type: Box::new(f.ret_type.deep_clone()),
            }),
        }
    }
}

} // verus!
