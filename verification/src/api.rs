//! Registration of a module's declarations into a [`Program`]: datatypes,
//! and functions and lemmas together with the proof obligations of their
//! bodies.

use vstd::prelude::*;
use crate::ast::{BaseType, BaseTypeV, BinOp, Expr, ExprV, FunctionDef, Goal, Ident, Program, SubGoal, Type, TypeV,
    base_views, clone_exprs, distinct_names, expr_views, keys_of};
use crate::env::{ScopeV, TypeEnv, empty_scope, scopes_bind};
use crate::relabs::sigs_view;
use crate::typechecking::{check_expr, checking_of, subgoals_view};
use crate::typing::{Checking, check};

verus! {

broadcast use vstd::std_specs::vec::group_vec_axioms, crate::ast::group_ast_views;

/// The index of the entry named `k`, or the length when there is none.
pub open spec fn key_index<T>(s: Seq<(Seq<char>, T)>, k: Seq<char>) -> int
    decreases s.len(),
{
    if s.len() == 0 {
        0
    } else if s[0].0 == k {
        0
    } else {
        1 + key_index(s.skip(1), k)
    }
}

/// `s` with `k` bound to `v`: the entry named `k` replaced in place where
/// there is one, else added last.
pub open spec fn assoc_insert<T>(s: Seq<(Seq<char>, T)>, k: Seq<char>, v: T) -> Seq<(Seq<char>, T)> {
    let i = key_index(s, k);
    if i < s.len() {
        s.update(i, (k, v))
    } else {
        s.push((k, v))
    }
}

/// The views of the datatypes: each enum with its constructors and their
/// argument sorts.
pub open spec fn datatypes_view(s: Seq<(Ident, Vec<(Ident, Vec<BaseType>)>)>) -> Seq<(Seq<char>, Seq<(Seq<char>, Seq<BaseTypeV>)>)> {
    Seq::new(s.len(), |i: int| (s[i].0@, ctors_view(s[i].1@)))
}

/// The views of the constructors of one enum.
pub open spec fn ctors_view(s: Seq<(Ident, Vec<BaseType>)>) -> Seq<(Seq<char>, Seq<BaseTypeV>)> {
    Seq::new(s.len(), |i: int| (s[i].0@, base_views(s[i].1@)))
}

/// The view of a function: its signature, its body, whether it is recursive.
pub open spec fn fdef_view(d: FunctionDef) -> (TypeV, Option<ExprV>, bool) {
    (d.signature@, match d.body {
        Some(b) => Some(b@),
        None => None,
    }, d.is_recursive)
}

/// The views of the functions, by name.
pub open spec fn fdefs_view(s: Seq<(Ident, FunctionDef)>) -> Seq<(Seq<char>, (TypeV, Option<ExprV>, bool))> {
    Seq::new(s.len(), |i: int| (s[i].0@, fdef_view(s[i].1)))
}

/// The signatures of function views, by name.
pub open spec fn sigs_of(s: Seq<(Seq<char>, (TypeV, Option<ExprV>, bool))>) -> Seq<(Seq<char>, TypeV)> {
    Seq::new(s.len(), |i: int| (s[i].0, s[i].1.0))
}

/// The views of goals: name, property, hints.
pub open spec fn goals_view(s: Seq<Goal>) -> Seq<(Seq<char>, ExprV, Seq<ExprV>)> {
    Seq::new(s.len(), |i: int| (s[i].name@, s[i].property@, expr_views(s[i].instantiations@)))
}

/// The scopes after binding the parameters of a signature, and what is
/// left of it: the result type.
pub open spec fn bind_params(scopes: Seq<ScopeV>, t: TypeV) -> (Seq<ScopeV>, TypeV)
    decreases t,
{
    match t {
        TypeV::Arrow { param_name, param_type, ret_type } => bind_params(scopes_bind(scopes, param_name, *param_type), *ret_type),
        _ => (scopes, t),
    }
}

/// T-FUN: the verification conditions of a body checked against the result
/// type of its signature, the parameters in scope. None where the checker
/// rejects the body.
pub open spec fn function_vcs(sig: TypeV, body: ExprV, sigs: Seq<(Seq<char>, TypeV)>) -> Option<Seq<(ExprV, Seq<ExprV>)>> {
    let (scopes, ret) = bind_params(seq![empty_scope(), empty_scope()], sig);
    match check(Checking { scopes, counter: 0, vcs: Seq::empty() }, body, ret, sigs) {
        Some(c) => Some(c.vcs),
        None => None,
    }
}

/// The conjunction of the properties, the first innermost on the left.
pub open spec fn conjoined(vcs: Seq<(ExprV, Seq<ExprV>)>) -> ExprV
    decreases vcs.len(),
{
    if vcs.len() == 0 {
        ExprV::BoolConst(true)
    } else if vcs.len() == 1 {
        vcs[0].0
    } else {
        ExprV::BinOp { op: BinOp::And, left: Box::new(conjoined(vcs.drop_last())), right: Box::new(vcs.last().0) }
    }
}

/// The hints of all conditions, in order.
pub open spec fn all_hints(vcs: Seq<(ExprV, Seq<ExprV>)>) -> Seq<ExprV>
    decreases vcs.len(),
{
    if vcs.len() == 0 {
        Seq::empty()
    } else {
        all_hints(vcs.drop_last()) + vcs.last().1
    }
}

/// The goal of a function: the conjunction of its conditions, with all their hints.
pub open spec fn goal_of(name: Seq<char>, vcs: Seq<(ExprV, Seq<ExprV>)>) -> (Seq<char>, ExprV, Seq<ExprV>) {
    (name, conjoined(vcs), all_hints(vcs))
}

/// Binds the parameters of a signature, in order, and gives back the result type.
fn bind_signature_params<'a>(env: &mut TypeEnv, t: &'a Type) -> (r: &'a Type)
    requires
        old(env).wf(),
    ensures
        final(env).wf(),
        final(env).counter() == old(env).counter(),
        (final(env).scopes(), r@) == bind_params(old(env).scopes(), t@),
    decreases t,
{
    match t {
        Type::Arrow(f) => {
            env.insert_var(f.param_name.clone(), f.param_type.deep_clone());
            bind_signature_params(env, &f.ret_type)
        },
        _ => t,
    }
}

/// Checks a body against a signature (see [`function_vcs`]): the parameters
/// are bound in a scope of their own, the body is checked against the result type.
pub fn check_function(signature: &Type, body: &Expr, functions: &Vec<(Ident, FunctionDef)>) -> (r: Option<Vec<SubGoal>>)
    ensures
        function_vcs(signature@, body@, sigs_view(functions@)) == match r {
            Some(vcs) => Some(subgoals_view(vcs@)),
            None => None,
        },
{
    let mut env = TypeEnv::new();
    let mut vcs: Vec<SubGoal> = Vec::new();
    env.push_scope();
    proof {
        assert(env.scopes() == seq![empty_scope(), empty_scope()]);
    }
    let ret = bind_signature_params(&mut env, signature);
    proof {
        assert(subgoals_view(vcs@) =~= Seq::<(ExprV, Seq<ExprV>)>::empty());
        assert(checking_of(env, vcs@) == Checking { scopes: env.scopes(), counter: 0, vcs: Seq::empty() });
    }
    if check_expr(&mut env, body, ret, functions, &mut vcs) {
        Some(vcs)
    } else {
        None
    }
}

/// The goal of a function from its conditions (see [`goal_of`]); none when
/// there is no condition.
pub fn combine_goal(name: &str, vcs: &Vec<SubGoal>) -> (r: Option<Goal>)
    ensures
        match r {
            Some(g) => vcs@.len() > 0 && (g.name@, g.property@, expr_views(g.instantiations@)) == goal_of(name@, subgoals_view(vcs@)),
            None => vcs@.len() == 0,
        },
{
    if vcs.len() == 0 {
        return None;
    }
    let ghost sv = subgoals_view(vcs@);
    let mut prop = vcs[0].property.deep_clone();
    let mut hints = clone_exprs(&vcs[0].instantiations);
    proof {
        assert(sv.take(1).drop_last() =~= Seq::<(ExprV, Seq<ExprV>)>::empty());
        assert(sv.take(1).last() == sv[0]);
        assert(all_hints(sv.take(1).drop_last()) =~= Seq::<ExprV>::empty());
        assert(all_hints(sv.take(1)) =~= sv[0].1);
    }
    let mut i: usize = 1;
    while i < vcs.len()
        invariant
            1 <= i <= vcs@.len(),
            sv == subgoals_view(vcs@),
            prop@ == conjoined(sv.take(i as int)),
            expr_views(hints@) == all_hints(sv.take(i as int)),
        decreases vcs@.len() - i,
    {
        let ghost hv = expr_views(hints@);
        let next = vcs[i].property.deep_clone();
        prop = Expr::BinOp { op: BinOp::And, left: Box::new(prop), right: Box::new(next) };
        let mut more = clone_exprs(&vcs[i].instantiations);
        hints.append(&mut more);
        proof {
            assert(sv.take(i + 1).drop_last() =~= sv.take(i as int));
            assert(sv.take(i + 1).last() == sv[i as int]);
            assert(expr_views(hints@) =~= hv + sv[i as int].1);
        }
        i = i + 1;
    }
    proof {
        assert(sv.take(i as int) =~= sv);
    }
    Some(Goal { name: String::from_str(name), property: prop, instantiations: hints })
}

/// Binds `name` to `def` among the functions, replacing an earlier
/// definition of that name in place.
#[verifier::loop_isolation(false)]
fn insert_function(functions: &mut Vec<(Ident, FunctionDef)>, name: Ident, def: FunctionDef)
    requires
        distinct_names(keys_of(old(functions)@)),
    ensures
        distinct_names(keys_of(final(functions)@)),
        fdefs_view(final(functions)@) == assoc_insert(fdefs_view(old(functions)@), name@, fdef_view(def)),
{
    let ghost fv = fdefs_view(functions@);
    let ghost dv = fdef_view(def);
    let mut k: usize = 0;
    proof {
        assert(fv.skip(0) =~= fv);
    }
    while k < functions.len()
        invariant
            0 <= k <= functions@.len(),
            fv == fdefs_view(functions@),
            functions@ == old(functions)@,
            key_index(fv, name@) == k + key_index(fv.skip(k as int), name@),
            forall|j: int| 0 <= j < k ==> (#[trigger] functions@[j]).0@ != name@,
        decreases functions@.len() - k,
    {
        proof {
            assert(fv.skip(k as int)[0] == fv[k as int]);
            assert(fv.skip(k as int).skip(1) =~= fv.skip(k + 1));
        }
        if functions[k].0.eq(&name) {
            proof {
                assert(key_index(fv.skip(k as int), name@) == 0);
            }
            let ghost old_f = functions@;
            functions.set(k, (name, def));
            proof {
                assert(fdefs_view(functions@) =~= fv.update(k as int, (name@, dv)));
                let ks = keys_of(functions@);
                let ko = keys_of(old_f);
                assert(ko[k as int] == name@);
                assert(ks =~= ko);
            }
            return;
        }
        k = k + 1;
    }
    proof {
        assert(fv.skip(k as int).len() == 0);
    }
    let ghost old_f = functions@;
    functions.push((name, def));
    proof {
        assert(fdefs_view(functions@) =~= fv.push((name@, dv)));
        let ks = keys_of(functions@);
        let ko = keys_of(old_f);
        assert(ks =~= ko.push(name@));
        assert forall|a: int, b: int| 0 <= a < ks.len() && 0 <= b < ks.len() && a != b implies ks[a] != ks[b] by {
            if a < ko.len() && b < ko.len() {
                assert(ko[a] != ko[b]);
            } else if a < ko.len() {
                assert(old_f[a].0@ != name@);
            } else {
                assert(old_f[b].0@ != name@);
            }
        }
    }
}

/// Binds `name` to its constructors among the datatypes, replacing an
/// earlier declaration of that name in place.
#[verifier::loop_isolation(false)]
fn insert_datatype(datatypes: &mut Vec<(Ident, Vec<(Ident, Vec<BaseType>)>)>, name: Ident, ctors: Vec<(Ident, Vec<BaseType>)>)
    requires
        distinct_names(keys_of(old(datatypes)@)),
    ensures
        distinct_names(keys_of(final(datatypes)@)),
        datatypes_view(final(datatypes)@) == assoc_insert(datatypes_view(old(datatypes)@), name@, ctors_view(ctors@)),
{
    let ghost fv = datatypes_view(datatypes@);
    let ghost dv = ctors_view(ctors@);
    let mut k: usize = 0;
    proof {
        assert(fv.skip(0) =~= fv);
    }
    while k < datatypes.len()
        invariant
            0 <= k <= datatypes@.len(),
            fv == datatypes_view(datatypes@),
            datatypes@ == old(datatypes)@,
            key_index(fv, name@) == k + key_index(fv.skip(k as int), name@),
            forall|j: int| 0 <= j < k ==> (#[trigger] datatypes@[j]).0@ != name@,
        decreases datatypes@.len() - k,
    {
        proof {
            assert(fv.skip(k as int)[0] == fv[k as int]);
            assert(fv.skip(k as int).skip(1) =~= fv.skip(k + 1));
        }
        if datatypes[k].0.eq(&name) {
            proof {
                assert(key_index(fv.skip(k as int), name@) == 0);
            }
            let ghost old_f = datatypes@;
            datatypes.set(k, (name, ctors));
            proof {
                assert(datatypes_view(datatypes@) =~= fv.update(k as int, (name@, dv)));
                let ks = keys_of(datatypes@);
                let ko = keys_of(old_f);
                assert(ko[k as int] == name@);
                assert(ks =~= ko);
            }
            return;
        }
        k = k + 1;
    }
    proof {
        assert(fv.skip(k as int).len() == 0);
    }
    let ghost old_f = datatypes@;
    datatypes.push((name, ctors));
    proof {
        assert(datatypes_view(datatypes@) =~= fv.push((name@, dv)));
        let ks = keys_of(datatypes@);
        let ko = keys_of(old_f);
        assert(ks =~= ko.push(name@));
        assert forall|a: int, b: int| 0 <= a < ks.len() && 0 <= b < ks.len() && a != b implies ks[a] != ks[b] by {
            if a < ko.len() && b < ko.len() {
                assert(ko[a] != ko[b]);
            } else if a < ko.len() {
                assert(old_f[a].0@ != name@);
            } else {
                assert(old_f[b].0@ != name@);
            }
        }
    }
}

/// Registers an enum with its constructors and their argument sorts,
/// replacing an earlier declaration of the same name.
pub fn register_enum_ctors(program: &mut Program, enum_name: &str, constructors: Vec<(Ident, Vec<BaseType>)>)
    requires
        old(program).wf(),
    ensures
        final(program).wf(),
        datatypes_view(final(program).datatypes@) == assoc_insert(
            datatypes_view(old(program).datatypes@),
            enum_name@,
            ctors_view(constructors@),
        ),
        final(program).functions@ == old(program).functions@,
        final(program).goals@ == old(program).goals@,
{
    insert_datatype(&mut program.datatypes, String::from_str(enum_name), constructors);
}

/// The function table after registering `name` with the given signature and body.
pub open spec fn registered(program: Program, name: Seq<char>, sig: TypeV, body: ExprV, is_recursive: bool) -> Seq<(Seq<char>, (TypeV, Option<ExprV>, bool))> {
    assoc_insert(fdefs_view(program.functions@), name, (sig, Some(body), is_recursive))
}

/// Registers a function or lemma and checks its body against its signature
/// (T-FUN). The function is entered first, so that its body can call it. When
/// the signature was written by the user (`has_signature`), the conditions
/// of the body, if there are any, become the goal named after the function.
pub fn register_val_ast(program: &mut Program, fn_name: &str, signature: Type, has_signature: bool, body: Expr, is_recursive: bool) -> (r: bool)
    requires
        old(program).wf(),
    ensures
        final(program).wf(),
        final(program).datatypes@ == old(program).datatypes@,
        fdefs_view(final(program).functions@) == registered(*old(program), fn_name@, signature@, body@, is_recursive),
        r == function_vcs(signature@, body@, sigs_of(registered(*old(program), fn_name@, signature@, body@, is_recursive))) is Some,
        !r ==> final(program).goals@ == old(program).goals@,
        r ==> ({
            let vcs = function_vcs(signature@, body@, sigs_of(registered(*old(program), fn_name@, signature@, body@, is_recursive))).unwrap();
            goals_view(final(program).goals@) == if has_signature && vcs.len() > 0 {
                goals_view(old(program).goals@).push(goal_of(fn_name@, vcs))
            } else {
                goals_view(old(program).goals@)
            }
        }),
{
    let def = FunctionDef { signature: signature.deep_clone(), body: Some(body.deep_clone()), is_recursive };
    proof {
        assert(fdef_view(def) == (signature@, Some(body@), is_recursive));
    }
    insert_function(&mut program.functions, String::from_str(fn_name), def);
    proof {
        assert(sigs_view(program.functions@) =~= sigs_of(fdefs_view(program.functions@)));
    }
    let vcs = match check_function(&signature, &body, &program.functions) {
        Some(vcs) => vcs,
        None => return false,
    };
    if has_signature {
        let ghost gv = goals_view(program.goals@);
        match combine_goal(fn_name, &vcs) {
            Some(g) => {
                program.goals.push(g);
                proof {
                    assert(goals_view(program.goals@) =~= gv.push(goal_of(fn_name@, subgoals_view(vcs@))));
                }
            },
            None => {},
        }
    }
    true
}

/// Registers a lemma: a function whose result is `Unit` and whose body is
/// its proof (see [`register_val`]).
pub fn register_lemma_ast(program: &mut Program, fn_name: &str, signature: Type, has_signature: bool, body: Expr, is_recursive: bool) -> (r: bool)
    requires
        old(program).wf(),
    ensures
        final(program).wf(),
        final(program).datatypes@ == old(program).datatypes@,
        fdefs_view(final(program).functions@) == registered(*old(program), fn_name@, signature@, body@, is_recursive),
        r == function_vcs(signature@, body@, sigs_of(registered(*old(program), fn_name@, signature@, body@, is_recursive))) is Some,
        !r ==> final(program).goals@ == old(program).goals@,
        r ==> ({
            let vcs = function_vcs(signature@, body@, sigs_of(registered(*old(program), fn_name@, signature@, body@, is_recursive))).unwrap();
            goals_view(final(program).goals@) == if has_signature && vcs.len() > 0 {
                goals_view(old(program).goals@).push(goal_of(fn_name@, vcs))
            } else {
                goals_view(old(program).goals@)
            }
        }),
{
    register_val_ast(program, fn_name, signature, has_signature, body, is_recursive)
}

/// Why a function's surface syntax could not be registered.
#[derive(Debug, PartialEq, Eq, Structural)]
pub enum RegisterError {
    /// Its signature (the annotation, else the Rust one) is not supported.
    Signature,
    /// Its body is not supported.
    Body,
    /// A pattern of its body names an unknown datatype or constructor, has
    /// the wrong number of fields, or a `match` of it cannot be resolved.
    Patterns,
    /// Its body does not type-check against its signature.
    Typing,
    /// Its text does not read as Rust syntax (or its signature's text as a
    /// specification signature).
    Parse,
    /// A variant of an enum has fields that are not supported.
    Fields,
}

/// The signature a function is registered with: that of its annotation when
/// it has one, else the one its Rust signature gives.
pub open spec fn val_signature(annotation: Option<crate::parser::SpecSignature>, fn_sig: crate::syntax::SynFnSig) -> Option<TypeV> {
    match annotation {
        Some(spec) => crate::parser::sig_conv(spec),
        None => crate::parser::plain_sig_conv(fn_sig),
    }
}

/// The body a function is registered with: converted, then its patterns
/// resolved against the datatypes.
pub open spec fn val_body(body: crate::syntax::SynExpr, dts: crate::resolve::DtsV) -> Option<ExprV> {
    match crate::parser::expr_conv(body) {
        Some(b) => crate::resolve::resolve(b, dts),
        None => None,
    }
}

/// What registering a function from its surface syntax does (see
/// [`register_val_syntax`]): the error that comes, when one does, and the
/// program after it.
pub open spec fn val_outcome(
    old: Program,
    new: Program,
    fn_name: Seq<char>,
    annotation: Option<crate::parser::SpecSignature>,
    fn_sig: crate::syntax::SynFnSig,
    body: crate::syntax::SynExpr,
    is_recursive: bool,
    r: Result<(), RegisterError>,
) -> bool {
    &&& (r == Err::<(), RegisterError>(RegisterError::Signature)) <==> val_signature(annotation, fn_sig) is None
    &&& (r == Err::<(), RegisterError>(RegisterError::Body)) <==> (val_signature(annotation, fn_sig) is Some
                && crate::parser::expr_conv(body) is None)
    &&& (r == Err::<(), RegisterError>(RegisterError::Patterns)) <==> (val_signature(annotation, fn_sig) is Some
                && crate::parser::expr_conv(body) is Some && val_body(body, datatypes_view(old.datatypes@)) is None)
    &&& (val_signature(annotation, fn_sig) is None || val_body(body, datatypes_view(old.datatypes@)) is None)
                ==> new == old
    &&& ({
                let sig = val_signature(annotation, fn_sig);
                let b = val_body(body, datatypes_view(old.datatypes@));
                (sig is Some && b is Some) ==> {
                    let regd = registered(old, fn_name, sig.unwrap(), b.unwrap(), is_recursive);
                    let vcs = function_vcs(sig.unwrap(), b.unwrap(), sigs_of(regd));
                    &&& new.datatypes@ == old.datatypes@
                    &&& fdefs_view(new.functions@) == regd
                    &&& (r is Ok <==> vcs is Some)
                    &&& (r is Err ==> r == Err::<(), RegisterError>(RegisterError::Typing))
                    &&& (vcs is None ==> new.goals@ == old.goals@)
                    &&& (vcs is Some ==> goals_view(new.goals@) == if annotation is Some && vcs.unwrap().len() > 0 {
                        goals_view(old.goals@).push(goal_of(fn_name, vcs.unwrap()))
                    } else {
                        goals_view(old.goals@)
                    })
                }
            })
}

/// Registers a function or a lemma from its surface syntax: its signature
/// (see [`val_signature`]), its body converted and resolved (see
/// [`val_body`]), then [`register_val_ast`]. The program is left as it was
/// when the signature or the body cannot be had.
pub fn register_val_syntax(
    program: &mut Program,
    fn_name: &str,
    annotation: Option<crate::parser::SpecSignature>,
    fn_sig: &crate::syntax::SynFnSig,
    body: &crate::syntax::SynExpr,
    is_recursive: bool,
) -> (r: Result<(), RegisterError>)
    requires
        old(program).wf(),
    ensures
        final(program).wf(),
        val_outcome(*old(program), *final(program), fn_name@, annotation, *fn_sig, *body, is_recursive, r),
{
    let has_signature = annotation.is_some();
    let signature = match annotation {
        Some(spec) => crate::parser::convert_signature(spec),
        None => crate::parser::signature_of_fn(fn_sig),
    };
    let signature = match signature {
        Some(t) => t,
        None => {
            return Err(RegisterError::Signature);
        },
    };
    let converted = match crate::parser::convert_expr(body) {
        Some(b) => b,
        None => {
            return Err(RegisterError::Body);
        },
    };
    if !crate::resolve::resolvable(&converted, &program.datatypes) {
        return Err(RegisterError::Patterns);
    }
    let resolved = crate::resolve::resolve_pattern_types(&converted, &program.datatypes);
    if register_val_ast(program, fn_name, signature, has_signature, resolved, is_recursive) {
        Ok(())
    } else {
        Err(RegisterError::Typing)
    }
}

/// Registers a datatype from the variants of its surface syntax; `false`,
/// with the program left as it was, when a variant's fields are not
/// supported (see [`crate::parser::enum_conv`]).
pub fn register_enum_syntax(program: &mut Program, enum_name: &str, variants: &Vec<crate::syntax::SynVariant>) -> (r: bool)
    requires
        old(program).wf(),
    ensures
        final(program).wf(),
        r == crate::parser::enum_conv(variants@, 0) is Some,
        !r ==> *final(program) == *old(program),
        r ==> datatypes_view(final(program).datatypes@) == assoc_insert(
            datatypes_view(old(program).datatypes@),
            enum_name@,
            crate::parser::enum_conv(variants@, 0).unwrap(),
        ),
        final(program).functions@ == old(program).functions@,
        final(program).goals@ == old(program).goals@,
{
    match crate::parser::convert_enum(variants) {
        Some(constructors) => {
            register_enum_ctors(program, enum_name, constructors);
            true
        },
        None => false,
    }
}

/// Registers a function or a lemma from its source text: the function item
/// read as Rust syntax ([`crate::source::parse_item_fn`]), the
/// specification signature, when there is one, read from its text
/// ([`crate::sigtext::read_signature`]), then [`register_val_syntax`]. A
/// text that does not read is a parse error, with the program left as it
/// was.
pub fn register_val(program: &mut Program, fn_name: &str, sig_text: Option<&str>, fn_text: &str, is_recursive: bool) -> (r: Result<(), RegisterError>)
    requires
        old(program).wf(),
    ensures
        final(program).wf(),
        (r == Err::<(), RegisterError>(RegisterError::Parse)) <==> (crate::source::item_fn_syntax(fn_text@) is None
            || (sig_text matches Some(t) && !crate::sigtext::signature_readable(t@))),
        r == Err::<(), RegisterError>(RegisterError::Parse) ==> *final(program) == *old(program),
        crate::source::item_fn_syntax(fn_text@) matches Some((fn_sig, body)) ==> match sig_text {
            None => val_outcome(*old(program), *final(program), fn_name@, None, fn_sig, body, is_recursive, r),
            Some(t) => crate::sigtext::signature_readable(t@) ==> exists|a: crate::parser::SpecSignature|
                #[trigger] crate::sigtext::signature_reads(a, t@)
                    && val_outcome(*old(program), *final(program), fn_name@, Some(a), fn_sig, body, is_recursive, r),
        },
{
    let (fn_sig, body) = match crate::source::parse_item_fn(fn_text) {
        Some(p) => p,
        None => {
            return Err(RegisterError::Parse);
        },
    };
    let annotation = match sig_text {
        Some(t) => match crate::sigtext::read_signature(t) {
            Some(a) => Some(a),
            None => {
                return Err(RegisterError::Parse);
            },
        },
        None => None,
    };
    let ghost ga = annotation;
    let r = register_val_syntax(program, fn_name, annotation, &fn_sig, &body, is_recursive);
    proof {
        if let Some(a) = ga {
            assert(crate::sigtext::signature_reads(a, sig_text->0@));
        }
        if r == Err::<(), RegisterError>(RegisterError::Parse) {
            assert(false);
        }
    }
    r
}

/// Registers a lemma from its source text, as [`register_val`] does.
pub fn register_lemma(program: &mut Program, fn_name: &str, sig_text: Option<&str>, fn_text: &str, is_recursive: bool) -> (r: Result<(), RegisterError>)
    requires
        old(program).wf(),
    ensures
        final(program).wf(),
        (r == Err::<(), RegisterError>(RegisterError::Parse)) <==> (crate::source::item_fn_syntax(fn_text@) is None
            || (sig_text matches Some(t) && !crate::sigtext::signature_readable(t@))),
        r == Err::<(), RegisterError>(RegisterError::Parse) ==> *final(program) == *old(program),
        crate::source::item_fn_syntax(fn_text@) matches Some((fn_sig, body)) ==> match sig_text {
            None => val_outcome(*old(program), *final(program), fn_name@, None, fn_sig, body, is_recursive, r),
            Some(t) => crate::sigtext::signature_readable(t@) ==> exists|a: crate::parser::SpecSignature|
                #[trigger] crate::sigtext::signature_reads(a, t@)
                    && val_outcome(*old(program), *final(program), fn_name@, Some(a), fn_sig, body, is_recursive, r),
        },
{
    register_val(program, fn_name, sig_text, fn_text, is_recursive)
}

/// Registers a datatype from the source text of its enum item: the item
/// read as Rust syntax ([`crate::source::parse_item_enum`]), then
/// [`register_enum_syntax`]. A text that does not read is a parse error,
/// unsupported fields a `Fields` error; either way the program is left as
/// it was.
pub fn register_enum(program: &mut Program, enum_name: &str, enum_text: &str) -> (r: Result<(), RegisterError>)
    requires
        old(program).wf(),
    ensures
        final(program).wf(),
        (r == Err::<(), RegisterError>(RegisterError::Parse)) <==> crate::source::item_enum_syntax(enum_text@) is None,
        r is Err ==> *final(program) == *old(program),
        crate::source::item_enum_syntax(enum_text@) matches Some(vs) ==> {
            &&& (r is Ok <==> crate::parser::enum_conv(vs@, 0) is Some)
            &&& (r is Err ==> r == Err::<(), RegisterError>(RegisterError::Fields))
            &&& (r is Ok ==> datatypes_view(final(program).datatypes@) == assoc_insert(
                datatypes_view(old(program).datatypes@),
                enum_name@,
                crate::parser::enum_conv(vs@, 0).unwrap(),
            ))
            &&& final(program).functions@ == old(program).functions@
            &&& final(program).goals@ == old(program).goals@
        },
{
    let variants = match crate::source::parse_item_enum(enum_text) {
        Some(v) => v,
        None => {
            return Err(RegisterError::Parse);
        },
    };
    if register_enum_syntax(program, enum_name, &variants) {
        Ok(())
    } else {
        Err(RegisterError::Fields)
    }
}

/// A declared function: its source text is only checked to read as a
/// function item; nothing is registered.
pub fn register_declare(program: &mut Program, fn_name: &str, fn_text: &str) -> (r: bool)
    ensures
        *final(program) == *old(program),
        r == crate::source::item_fn_syntax(fn_text@) is Some,
{
    crate::source::parse_item_fn(fn_text).is_some()
}

} // verus!
