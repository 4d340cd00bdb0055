//! Source-vocabulary printing of terms as SMT-LIB s-expressions: variables
//! by name, calls as `(add j k)`, constructors by their variant name with the
//! enum prefix stripped (`Nat::S(x)` as `(S x)`, `Nat::Z` as `Z`).

use vstd::prelude::*;
use crate::api::{ctors_view, datatypes_view, fdefs_view, key_index};
use crate::ast::{BaseType, BaseTypeV, Expr, ExprV, Ident, Program, base_views, binders_view, expr_views};
use crate::cex::defs::{function_index, prepend};
use crate::cex::order::{listing, sorted_ci, texts};
use crate::smt::axioms_body::{fun_types, get_fun_types};
use crate::text::{after_last_sep, append_joined, before_first_sep, enum_name, join, variant_name};

verus! {

broadcast use vstd::std_specs::vec::group_vec_axioms, crate::ast::group_ast_views;

/// Whether `e` can stand in term position: a variable, a boolean constant,
/// or a call or constructor application whose arguments are terms.
pub open spec fn is_term(e: ExprV) -> bool
    decreases e,
{
    match e {
        ExprV::Var(_) => true,
        ExprV::BoolConst(_) => true,
        ExprV::Call { func, args } => forall|i: int| 0 <= i < args.len() ==> is_term(#[trigger] args[i]),
        ExprV::Constructor { name, args } => forall|i: int| 0 <= i < args.len() ==> is_term(#[trigger] args[i]),
        _ => false,
    }
}

/// `true` or `false`.
pub open spec fn bool_text(b: bool) -> Seq<char> {
    if b { "true"@ } else { "false"@ }
}

/// Each part preceded by `sep`, all concatenated.
pub open spec fn prefixed(sep: Seq<char>, parts: Seq<Seq<char>>) -> Seq<char>
    decreases parts.len(),
{
    if parts.len() == 0 {
        Seq::empty()
    } else {
        prefixed(sep, parts.drop_last()) + sep + parts.last()
    }
}

/// An application in s-expression form; a nullary one is its bare head.
pub open spec fn sexpr_app(head: Seq<char>, parts: Seq<Seq<char>>) -> Seq<char> {
    if parts.len() == 0 {
        head
    } else {
        "("@ + head + prefixed(" "@, parts) + ")"@
    }
}

/// The s-expression text of a term.
pub open spec fn term_text(e: ExprV) -> Seq<char>
    decreases e,
{
    match e {
        ExprV::Var(name) => name,
        ExprV::BoolConst(b) => bool_text(b),
        ExprV::Call { func, args } => sexpr_app(func, terms_texts(args)),
        ExprV::Constructor { name, args } => sexpr_app(after_last_sep(name), terms_texts(args)),
        _ => Seq::empty(),
    }
}

/// The texts of a sequence of terms.
pub open spec fn terms_texts(args: Seq<ExprV>) -> Seq<Seq<char>>
    decreases args,
{
    Seq::new(args.len(), |i: int| if 0 <= i < args.len() { term_text(args[i]) } else { Seq::empty() })
}

/// The texts of a sequence of terms are taken term by term.
pub broadcast proof fn lemma_terms_texts(args: Seq<ExprV>)
    ensures
        #[trigger] terms_texts(args).len() == args.len(),
        forall|i: int| 0 <= i < args.len() ==> #[trigger] terms_texts(args)[i] == term_text(args[i]),
{
}

/// Renders a term as an s-expression in source vocabulary.
pub fn print_term(e: &Expr) -> (r: String)
    requires
        is_term(e@),
    ensures
        r@ == term_text(e@),
    decreases e,
{
    match e {
        Expr::Var(name) => name.clone(),
        Expr::BoolConst(b) => {
            proof {
                reveal_strlit("true");
                reveal_strlit("false");
            }
            let r = if *b {
                String::from_str("true")
            } else {
                String::from_str("false")
            };
            assert(r@ == term_text(e@));
            r
        },
        Expr::Call { func, args } => {
            proof {
                assert(e@ == ExprV::Call { func: func@, args: expr_views(args@) });
                assert forall|k: int| 0 <= k < args@.len() implies is_term(#[trigger] args@[k]@) by {
                    if let ExprV::Call { args: vargs, .. } = e@ {
                        assert(vargs[k] == args@[k]@);
                    }
                }
            }
            let head = func.clone();
            let r = print_application(head, args);
            assert(r@ == term_text(e@));
            r
        },
        Expr::Constructor { name, args } => {
            proof {
                assert(e@ == ExprV::Constructor { name: name@, args: expr_views(args@) });
                assert forall|k: int| 0 <= k < args@.len() implies is_term(#[trigger] args@[k]@) by {
                    if let ExprV::Constructor { args: vargs, .. } = e@ {
                        assert(vargs[k] == args@[k]@);
                    }
                }
            }
            let head = variant_name(name.as_str());
            let r = print_application(head, args);
            assert(r@ == term_text(e@));
            r
        },
        _ => {
            proof {
                assert(false);
            }
            String::new()
        },
    }
}

/// An application of `head` to terms, as an s-expression.
fn print_application(head: String, args: &Vec<Expr>) -> (r: String)
    requires
        forall|i: int| 0 <= i < args@.len() ==> is_term(#[trigger] args@[i]@),
    ensures
        r@ == sexpr_app(head@, terms_texts(expr_views(args@))),
    decreases args,
{
    let ghost views = expr_views(args@);
    if args.len() == 0 {
        return head;
    }
    proof {
        reveal_strlit("(");
        reveal_strlit(" ");
        reveal_strlit(")");
    }
    let mut out = String::from_str("(");
    out.append(head.as_str());
    let mut i: usize = 0;
    while i < args.len()
        invariant
            0 <= i <= args@.len(),
            views == expr_views(args@),
            forall|k: int| 0 <= k < args@.len() ==> is_term(#[trigger] args@[k]@),
            out@ == "("@ + head@ + prefixed(" "@, terms_texts(views).take(i as int)),
        decreases args@.len() - i,
    {
        proof {
            assert(decreases_to!(*args => args@));
            assert(decreases_to!(args@ => args@[i as int]));
        }
        let part = print_term(&args[i]);
        proof {
            lemma_terms_texts(views);
            let ts = terms_texts(views);
            assert(ts.take(i + 1).drop_last() =~= ts.take(i as int));
            assert(ts.take(i + 1).last() == part@);
        }
        out.append(" ");
        out.append(part.as_str());
        i = i + 1;
    }
    proof {
        lemma_terms_texts(views);
        assert(terms_texts(views).take(i as int) =~= terms_texts(views));
    }
    out.append(")");
    out
}

/// The function names called in a term, in the order met (pre-order).
pub open spec fn term_funcs(e: ExprV) -> Seq<Seq<char>>
    decreases e, 1int,
{
    match e {
        ExprV::Call { func, args } => seq![func] + terms_funcs(args, args.len() as int),
        ExprV::Constructor { args, .. } => terms_funcs(args, args.len() as int),
        _ => Seq::empty(),
    }
}

/// The function names called in the first `n` terms.
pub open spec fn terms_funcs(args: Seq<ExprV>, n: int) -> Seq<Seq<char>>
    decreases args, n,
{
    if n <= 0 || n > args.len() {
        Seq::empty()
    } else {
        terms_funcs(args, n - 1) + term_funcs(args[n - 1])
    }
}

/// The enum names of the constructors in a term, in the order met.
pub open spec fn term_enums(e: ExprV) -> Seq<Seq<char>>
    decreases e, 1int,
{
    match e {
        ExprV::Call { args, .. } => terms_enums(args, args.len() as int),
        ExprV::Constructor { name, args } => seq![before_first_sep(name)] + terms_enums(args, args.len() as int),
        _ => Seq::empty(),
    }
}

/// The enum names of the constructors in the first `n` terms.
pub open spec fn terms_enums(args: Seq<ExprV>, n: int) -> Seq<Seq<char>>
    decreases args, n,
{
    if n <= 0 || n > args.len() {
        Seq::empty()
    } else {
        terms_enums(args, n - 1) + term_enums(args[n - 1])
    }
}

/// Appends to `funcs` the functions called in `e` and to `enums` the enums
/// of its constructors; false where `e` is not a term.
fn collect_symbols(e: &Expr, funcs: &mut Vec<String>, enums: &mut Vec<String>) -> (ok: bool)
    ensures
        ok == is_term(e@),
        ok ==> texts(final(funcs)@) == texts(old(funcs)@) + term_funcs(e@),
        ok ==> texts(final(enums)@) == texts(old(enums)@) + term_enums(e@),
    decreases e,
{
    let ghost f0 = texts(funcs@);
    let ghost e0 = texts(enums@);
    match e {
        Expr::Var(x) => {
            proof {
                assert(e@ == ExprV::Var(x@));
                assert(f0 + Seq::<Seq<char>>::empty() =~= f0);
                assert(e0 + Seq::<Seq<char>>::empty() =~= e0);
            }
            true
        },
        Expr::BoolConst(b) => {
            proof {
                assert(e@ == ExprV::BoolConst(*b));
                assert(f0 + Seq::<Seq<char>>::empty() =~= f0);
                assert(e0 + Seq::<Seq<char>>::empty() =~= e0);
            }
            true
        },
        Expr::Call { func, args } => {
            proof {
                assert(e@ == ExprV::Call { func: func@, args: expr_views(args@) });
            }
            funcs.push(func.clone());
            proof {
                assert(texts(funcs@) =~= f0 + seq![func@]);
            }
            let ok = collect_args(args, funcs, enums);
            proof {
                if ok {
                    assert(texts(funcs@) =~= f0 + term_funcs(e@));
                }
            }
            ok
        },
        Expr::Constructor { name, args } => {
            proof {
                assert(e@ == ExprV::Constructor { name: name@, args: expr_views(args@) });
            }
            enums.push(enum_name(name.as_str()));
            proof {
                assert(texts(enums@) =~= e0 + seq![before_first_sep(name@)]);
            }
            let ok = collect_args(args, funcs, enums);
            proof {
                if ok {
                    assert(texts(enums@) =~= e0 + term_enums(e@));
                }
            }
            ok
        },
        _ => false,
    }
}

/// [`collect_symbols`] over a list of terms; false where one is not a term.
pub(crate) fn collect_args(args: &Vec<Expr>, funcs: &mut Vec<String>, enums: &mut Vec<String>) -> (ok: bool)
    ensures
        ok == (forall|k: int| 0 <= k < args@.len() ==> is_term(#[trigger] expr_views(args@)[k])),
        ok ==> texts(final(funcs)@) == texts(old(funcs)@) + terms_funcs(expr_views(args@), args@.len() as int),
        ok ==> texts(final(enums)@) == texts(old(enums)@) + terms_enums(expr_views(args@), args@.len() as int),
    decreases args,
{
    let ghost av = expr_views(args@);
    let ghost f1 = texts(funcs@);
    let ghost e1 = texts(enums@);
    let mut i: usize = 0;
    proof {
        assert(f1 + terms_funcs(av, 0) =~= f1);
        assert(e1 + terms_enums(av, 0) =~= e1);
    }
    while i < args.len()
        invariant
            0 <= i <= args@.len(),
            av == expr_views(args@),
            av.len() == args@.len(),
            texts(funcs@) == f1 + terms_funcs(av, i as int),
            texts(enums@) == e1 + terms_enums(av, i as int),
            forall|k: int| 0 <= k < i ==> is_term(#[trigger] av[k]),
        decreases args@.len() - i,
    {
        proof {
            assert(decreases_to!(*args => args@));
            assert(decreases_to!(args@ => args@[i as int]));
            assert(av[i as int] == args@[i as int]@);
        }
        let ok = collect_symbols(&args[i], funcs, enums);
        if !ok {
            return false;
        }
        proof {
            assert(f1 + terms_funcs(av, i + 1) =~= f1 + terms_funcs(av, i as int) + term_funcs(av[i as int]));
            assert(e1 + terms_enums(av, i + 1) =~= e1 + terms_enums(av, i as int) + term_enums(av[i as int]));
        }
        i = i + 1;
    }
    true
}

/// The views of a program's datatypes, and of its functions.
pub type DatatypesV = Seq<(Seq<char>, Seq<(Seq<char>, Seq<BaseTypeV>)>)>;
pub type FunctionsV = Seq<(Seq<char>, (crate::ast::TypeV, Option<ExprV>, bool))>;

/// The names of the custom sorts among `ts`, in order.
pub open spec fn custom_names(ts: Seq<BaseTypeV>) -> Seq<Seq<char>>
    decreases ts.len(),
{
    if ts.len() == 0 {
        Seq::empty()
    } else {
        custom_names(ts.drop_last()) + match ts.last() {
            BaseTypeV::Custom(n) => seq![n],
            _ => Seq::empty(),
        }
    }
}

/// The custom sorts in the signatures of the named functions from the
/// `i`-th on; None where a name is not a function or a signature takes or
/// gives a function.
pub open spec fn sig_sorts(fs: FunctionsV, names: Seq<Seq<char>>, i: int) -> Option<Seq<Seq<char>>>
    decreases names.len() - i,
{
    if i < 0 || i >= names.len() {
        Some(Seq::empty())
    } else {
        let k = key_index(fs, names[i]);
        if k >= fs.len() {
            None
        } else {
            match (fun_types(fs[k].1.0), sig_sorts(fs, names, i + 1)) {
                (Some((ins, out)), Some(rest)) => Some(custom_names(ins.push(out)) + rest),
                _ => None,
            }
        }
    }
}

/// The custom sorts of the fields of the constructors.
pub open spec fn ctor_field_sorts(ctors: Seq<(Seq<char>, Seq<BaseTypeV>)>) -> Seq<Seq<char>>
    decreases ctors.len(),
{
    if ctors.len() == 0 {
        Seq::empty()
    } else {
        ctor_field_sorts(ctors.drop_last()) + custom_names(ctors.last().1)
    }
}

/// The custom sorts of the constructor fields of those named enums that are
/// datatypes of the program.
pub open spec fn field_sorts(dts: DatatypesV, enums: Seq<Seq<char>>) -> Seq<Seq<char>>
    decreases enums.len(),
{
    if enums.len() == 0 {
        Seq::empty()
    } else {
        let k = key_index(dts, enums.last());
        field_sorts(dts, enums.drop_last()) + if 0 <= k < dts.len() {
            ctor_field_sorts(dts[k].1)
        } else {
            Seq::empty()
        }
    }
}

/// The types of the inputs.
pub open spec fn input_types(inputs: Seq<(Seq<char>, BaseTypeV)>) -> Seq<BaseTypeV> {
    Seq::new(inputs.len(), |i: int| inputs[i].1)
}

/// Appends the names of the custom sorts among `ts` to `out`.
fn push_customs(ts: &Vec<BaseType>, out: &mut Vec<String>)
    ensures
        texts(final(out)@) == texts(old(out)@) + custom_names(base_views(ts@)),
{
    let ghost o0 = texts(out@);
    let ghost tv = base_views(ts@);
    let mut i: usize = 0;
    proof {
        assert(tv.take(0) =~= Seq::<BaseTypeV>::empty());
        assert(o0 + custom_names(tv.take(0)) =~= o0);
    }
    while i < ts.len()
        invariant
            0 <= i <= ts@.len(),
            tv == base_views(ts@),
            tv.len() == ts@.len(),
            texts(out@) == o0 + custom_names(tv.take(i as int)),
        decreases ts@.len() - i,
    {
        proof {
            assert(tv.take(i + 1).drop_last() =~= tv.take(i as int));
            assert(tv.take(i + 1).last() == ts@[i as int]@);
        }
        let ghost before = texts(out@);
        match &ts[i] {
            BaseType::Custom(n) => {
                out.push(n.clone());
                proof {
                    assert(texts(out@) =~= before + seq![n@]);
                    assert(o0 + custom_names(tv.take(i + 1)) =~= o0 + custom_names(tv.take(i as int)) + seq![n@]);
                }
            },
            _ => {
                proof {
                    assert(ts@[i as int]@ !is Custom);
                    assert(o0 + custom_names(tv.take(i + 1)) =~= o0 + custom_names(tv.take(i as int)));
                }
            },
        }
        i = i + 1;
    }
    proof {
        assert(tv.take(i as int) =~= tv);
    }
}

/// Appends the texts of `src` to `dst`.
fn append_texts(src: &Vec<String>, dst: &mut Vec<String>)
    ensures
        texts(final(dst)@) == texts(old(dst)@) + texts(src@),
{
    let ghost d0 = texts(dst@);
    let mut i: usize = 0;
    proof {
        assert(d0 + texts(src@).take(0) =~= d0);
    }
    while i < src.len()
        invariant
            0 <= i <= src@.len(),
            texts(dst@) == d0 + texts(src@).take(i as int),
        decreases src@.len() - i,
    {
        let ghost before = dst@;
        dst.push(src[i].clone());
        proof {
            assert(texts(dst@) =~= texts(before).push(src@[i as int]@));
            assert(d0 + texts(src@).take(i + 1) =~= (d0 + texts(src@).take(i as int)).push(src@[i as int]@));
        }
        i = i + 1;
    }
    proof {
        assert(texts(src@).take(i as int) =~= texts(src@));
    }
}

/// The index of the datatype named `name`, or the number of datatypes when
/// there is none.
fn datatype_index(dts: &Vec<(Ident, Vec<(Ident, Vec<BaseType>)>)>, name: &String) -> (r: usize)
    ensures
        r == key_index(datatypes_view(dts@), name@),
        r <= dts@.len(),
{
    let ghost dv = datatypes_view(dts@);
    let mut k: usize = 0;
    proof {
        assert(dv.skip(0) =~= dv);
    }
    while k < dts.len()
        invariant
            0 <= k <= dts@.len(),
            dv == datatypes_view(dts@),
            key_index(dv, name@) == k + key_index(dv.skip(k as int), name@),
        decreases dts@.len() - k,
    {
        proof {
            assert(dv.skip(k as int)[0] == dv[k as int]);
            assert(dv.skip(k as int).skip(1) =~= dv.skip(k + 1));
        }
        if dts[k].0.eq(name) {
            proof {
                assert(key_index(dv.skip(k as int), name@) == 0);
            }
            return k;
        }
        k = k + 1;
    }
    proof {
        assert(dv.skip(k as int).len() == 0);
    }
    k
}

/// Whether `e` can stand in term position (see [`is_term`]).
pub fn check_term(e: &Expr) -> (r: bool)
    ensures
        r == is_term(e@),
{
    let mut funcs: Vec<String> = Vec::new();
    let mut enums: Vec<String> = Vec::new();
    collect_symbols(e, &mut funcs, &mut enums)
}

/// The sorts the declarations need, with repeats: the enums of the
/// constructors in the terms, the custom sorts in the signatures of the
/// functions they call, those of the inputs, and those of the fields of the
/// constructors of each enum met. None where a called name is not a
/// function or its signature takes or gives a function.
pub open spec fn decl_sorts(dts: DatatypesV, fs: FunctionsV, tv: Seq<ExprV>, inputs: Seq<(Seq<char>, BaseTypeV)>) -> Option<Seq<Seq<char>>> {
    let enums = terms_enums(tv, tv.len() as int);
    match sig_sorts(fs, terms_funcs(tv, tv.len() as int), 0) {
        Some(sig) => Some(enums + sig + custom_names(input_types(inputs)) + field_sorts(dts, enums)),
        None => None,
    }
}

/// The sorts the declarations need (see [`decl_sorts`]), from the functions
/// and enums collected from the terms.
fn collect_sorts(program: &Program, funcs: &Vec<String>, enums: &Vec<String>, inputs: &Vec<(Ident, BaseType)>) -> (r: Option<Vec<String>>)
    ensures
        match r {
            Some(v) => sig_sorts(fdefs_view(program.functions@), texts(funcs@), 0) is Some && texts(v@) == texts(enums@)
                + sig_sorts(fdefs_view(program.functions@), texts(funcs@), 0).unwrap() + custom_names(
                input_types(binders_view(inputs@)),
            ) + field_sorts(datatypes_view(program.datatypes@), texts(enums@)),
            None => sig_sorts(fdefs_view(program.functions@), texts(funcs@), 0) is None,
        },
{
    let ghost fv = fdefs_view(program.functions@);
    let ghost dv = datatypes_view(program.datatypes@);
    let ghost nv = texts(funcs@);
    let ghost ev = texts(enums@);
    let mut sorts: Vec<String> = Vec::new();
    proof {
        assert(texts(sorts@) =~= Seq::<Seq<char>>::empty());
    }
    append_texts(enums, &mut sorts);
    let ghost s0 = texts(sorts@);
    let ghost mut acc: Seq<Seq<char>> = Seq::empty();
    let mut i: usize = 0;
    proof {
        assert(s0 =~= ev);
        assert(s0 + acc =~= s0);
        match sig_sorts(fv, nv, 0) {
            Some(rest) => {
                assert(acc + rest =~= rest);
            },
            None => {},
        }
    }
    while i < funcs.len()
        invariant
            0 <= i <= funcs@.len(),
            nv == texts(funcs@),
            fv == fdefs_view(program.functions@),
            texts(sorts@) == s0 + acc,
            sig_sorts(fv, nv, 0) == prepend(acc, sig_sorts(fv, nv, i as int)),
        decreases funcs@.len() - i,
    {
        let k = function_index(&program.functions, &funcs[i]);
        if k >= program.functions.len() {
            return None;
        }
        proof {
            assert(fv[k as int].1.0 == program.functions@[k as int].1.signature@);
        }
        match get_fun_types(&program.functions[k].1.signature) {
            Some((ins, out)) => {
                let mut all = ins;
                let ghost iv = base_views(all@);
                all.push(out);
                proof {
                    assert(base_views(all@) =~= iv.push(all@.last()@));
                }
                let ghost before = texts(sorts@);
                push_customs(&all, &mut sorts);
                proof {
                    let piece = custom_names(base_views(all@));
                    match sig_sorts(fv, nv, i + 1) {
                        Some(rest) => {
                            assert(acc + (piece + rest) =~= (acc + piece) + rest);
                        },
                        None => {},
                    }
                    assert(texts(sorts@) =~= s0 + (acc + piece));
                    acc = acc + piece;
                }
            },
            None => {
                return None;
            },
        }
        i = i + 1;
    }
    proof {
        assert(acc + Seq::<Seq<char>>::empty() =~= acc);
    }
    let ghost s1 = texts(sorts@);
    let ghost iv = binders_view(inputs@);
    let mut j: usize = 0;
    proof {
        assert(input_types(iv).take(0) =~= Seq::<BaseTypeV>::empty());
        assert(s1 + custom_names(input_types(iv).take(0)) =~= s1);
    }
    while j < inputs.len()
        invariant
            0 <= j <= inputs@.len(),
            iv == binders_view(inputs@),
            texts(sorts@) == s1 + custom_names(input_types(iv).take(j as int)),
        decreases inputs@.len() - j,
    {
        let ghost before = texts(sorts@);
        proof {
            assert(input_types(iv).take(j + 1).drop_last() =~= input_types(iv).take(j as int));
            assert(input_types(iv).take(j + 1).last() == inputs@[j as int].1@);
        }
        match &inputs[j].1 {
            BaseType::Custom(n) => {
                sorts.push(n.clone());
                proof {
                    assert(texts(sorts@) =~= before + seq![n@]);
                    assert(s1 + custom_names(input_types(iv).take(j + 1)) =~= before + seq![n@]);
                }
            },
            _ => {
                proof {
                    assert(inputs@[j as int].1@ !is Custom);
                    assert(s1 + custom_names(input_types(iv).take(j + 1)) =~= before);
                }
            },
        }
        j = j + 1;
    }
    proof {
        assert(input_types(iv).take(j as int) =~= input_types(iv));
    }
    let ghost s2 = texts(sorts@);
    let mut m: usize = 0;
    proof {
        assert(ev.take(0) =~= Seq::<Seq<char>>::empty());
        assert(s2 + field_sorts(dv, ev.take(0)) =~= s2);
    }
    while m < enums.len()
        invariant
            0 <= m <= enums@.len(),
            ev == texts(enums@),
            dv == datatypes_view(program.datatypes@),
            texts(sorts@) == s2 + field_sorts(dv, ev.take(m as int)),
        decreases enums@.len() - m,
    {
        proof {
            assert(ev.take(m + 1).drop_last() =~= ev.take(m as int));
            assert(ev.take(m + 1).last() == enums@[m as int]@);
        }
        let k = datatype_index(&program.datatypes, &enums[m]);
        let ghost before = texts(sorts@);
        if k < program.datatypes.len() {
            let ctors = &program.datatypes[k].1;
            let ghost cv = ctors_view(ctors@);
            proof {
                assert(dv[k as int].1 == cv);
                assert(cv.take(0) =~= Seq::<(Seq<char>, Seq<BaseTypeV>)>::empty());
                assert(before + ctor_field_sorts(cv.take(0)) =~= before);
            }
            let mut c: usize = 0;
            while c < ctors.len()
                invariant
                    0 <= c <= ctors@.len(),
                    cv == ctors_view(ctors@),
                    texts(sorts@) == before + ctor_field_sorts(cv.take(c as int)),
                decreases ctors@.len() - c,
            {
                proof {
                    assert(cv.take(c + 1).drop_last() =~= cv.take(c as int));
                    assert(cv.take(c + 1).last().1 == base_views(ctors@[c as int].1@));
                }
                let ghost b2 = texts(sorts@);
                push_customs(&ctors[c].1, &mut sorts);
                proof {
                    assert(texts(sorts@) =~= before + ctor_field_sorts(cv.take(c + 1)));
                }
                c = c + 1;
            }
            proof {
                assert(cv.take(c as int) =~= cv);
                assert(texts(sorts@) =~= s2 + field_sorts(dv, ev.take(m + 1)));
            }
        } else {
            proof {
                assert(texts(sorts@) =~= s2 + field_sorts(dv, ev.take(m + 1)));
            }
        }
        m = m + 1;
    }
    proof {
        assert(ev.take(m as int) =~= ev);
        assert(texts(sorts@) =~= ev + acc + custom_names(input_types(iv)) + field_sorts(dv, ev));
    }
    Some(sorts)
}

/// Sort names that already exist in SMT-LIB or Z3.
pub open spec fn reserved_sort(n: Seq<char>) -> bool {
    n == "List"@ || n == "Array"@ || n == "Seq"@ || n == "Set"@ || n == "Int"@ || n == "Real"@ || n == "String"@
}

/// How a sort is written: with a trailing underscore where its name is a
/// built-in one.
pub open spec fn emitted_sort(n: Seq<char>) -> Seq<char> {
    if reserved_sort(n) {
        n + "_"@
    } else {
        n
    }
}

/// A sort by its source name; None for the unit and tuple types, which
/// cannot be declared.
pub open spec fn sort_text(b: BaseTypeV) -> Option<Seq<char>> {
    match b {
        BaseTypeV::Custom(n) => Some(emitted_sort(n)),
        BaseTypeV::Bool => Some("Bool"@),
        _ => None,
    }
}

/// The texts of the sorts from the `i`-th on.
pub open spec fn sort_texts(ts: Seq<BaseTypeV>, i: int) -> Option<Seq<Seq<char>>>
    decreases ts.len() - i,
{
    if i < 0 || i >= ts.len() {
        Some(Seq::empty())
    } else {
        match (sort_text(ts[i]), sort_texts(ts, i + 1)) {
            (Some(t), Some(rest)) => Some(seq![t] + rest),
            _ => None,
        }
    }
}

/// The declaration of one sort, after a comment where it is renamed.
pub open spec fn sort_decl(s: Seq<char>) -> Seq<char> {
    (if emitted_sort(s) != s {
        "; sort '"@ + s + "' is written as '"@ + emitted_sort(s) + "' below (the name collides with a Z3 built-in)\n"@
    } else {
        Seq::empty()
    }) + "(declare-sort "@ + emitted_sort(s) + " 0)\n"@
}

/// The declarations of the sorts.
pub open spec fn sort_decls(sorts: Seq<Seq<char>>) -> Seq<char>
    decreases sorts.len(),
{
    if sorts.len() == 0 {
        Seq::empty()
    } else {
        sort_decls(sorts.drop_last()) + sort_decl(sorts.last())
    }
}

/// A function declaration `(declare-fun name (args) result)`.
pub open spec fn fun_decl(name: Seq<char>, args: Seq<Seq<char>>, result: Seq<char>) -> Seq<char> {
    "(declare-fun "@ + name + " ("@ + join(" "@, args) + ") "@ + result + ")\n"@
}

/// A constant declaration `(declare-const name sort)`.
pub open spec fn const_decl(name: Seq<char>, sort: Seq<char>) -> Seq<char> {
    "(declare-const "@ + name + " "@ + sort + ")\n"@
}

/// The declarations of the constructors from the `i`-th on, of the sort
/// written `es`: a constant for one without fields, else a function.
pub open spec fn ctor_decls(ctors: Seq<(Seq<char>, Seq<BaseTypeV>)>, es: Seq<char>, i: int) -> Option<Seq<char>>
    decreases ctors.len() - i,
{
    if i < 0 || i >= ctors.len() {
        Some(Seq::empty())
    } else {
        let c = ctors[i];
        let this = if c.1.len() == 0 {
            Some(const_decl(c.0, es))
        } else {
            match sort_texts(c.1, 0) {
                Some(ts) => Some(fun_decl(c.0, ts, es)),
                None => None,
            }
        };
        match (this, ctor_decls(ctors, es, i + 1)) {
            (Some(a), Some(rest)) => Some(a + rest),
            _ => None,
        }
    }
}

/// For each sort from the `i`-th on that is a datatype, all its
/// constructors in declaration order.
pub open spec fn datatype_decls(dts: DatatypesV, sorts: Seq<Seq<char>>, i: int) -> Option<Seq<char>>
    decreases sorts.len() - i,
{
    if i < 0 || i >= sorts.len() {
        Some(Seq::empty())
    } else {
        let k = key_index(dts, sorts[i]);
        let this = if 0 <= k < dts.len() {
            ctor_decls(dts[k].1, emitted_sort(sorts[i]), 0)
        } else {
            Some(Seq::empty())
        };
        match (this, datatype_decls(dts, sorts, i + 1)) {
            (Some(a), Some(rest)) => Some(a + rest),
            _ => None,
        }
    }
}

/// The declarations of the named functions from the `i`-th on.
pub open spec fn func_decls(fs: FunctionsV, names: Seq<Seq<char>>, i: int) -> Option<Seq<char>>
    decreases names.len() - i,
{
    if i < 0 || i >= names.len() {
        Some(Seq::empty())
    } else {
        let k = key_index(fs, names[i]);
        let this = if 0 <= k < fs.len() {
            match fun_types(fs[k].1.0) {
                Some((ins, out)) => match (sort_texts(ins, 0), sort_text(out)) {
                    (Some(ts), Some(o)) => Some(fun_decl(names[i], ts, o)),
                    _ => None,
                },
                None => None,
            }
        } else {
            None
        };
        match (this, func_decls(fs, names, i + 1)) {
            (Some(a), Some(rest)) => Some(a + rest),
            _ => None,
        }
    }
}

/// The declarations of the inputs from the `i`-th on, those of unit type
/// left out.
pub open spec fn input_decls(inputs: Seq<(Seq<char>, BaseTypeV)>, i: int) -> Option<Seq<char>>
    decreases inputs.len() - i,
{
    if i < 0 || i >= inputs.len() {
        Some(Seq::empty())
    } else {
        let this = if inputs[i].1 == BaseTypeV::Unit {
            Some(Seq::empty())
        } else {
            match sort_text(inputs[i].1) {
                Some(t) => Some(const_decl(inputs[i].0, t)),
                None => None,
            }
        };
        match (this, input_decls(inputs, i + 1)) {
            (Some(a), Some(rest)) => Some(a + rest),
            _ => None,
        }
    }
}

/// The declaration section of the counterexample file: the sorts used, each
/// once in the listing order; all constructors of each of them that is a
/// datatype; the functions the terms call, in the listing order; a blank
/// line; the inputs but those of unit type, in their order. None where a
/// term is not a term, a called name is not a function, or a sort to be
/// written is the unit or a tuple type.
pub open spec fn declarations_text(dts: DatatypesV, fs: FunctionsV, tv: Seq<ExprV>, inputs: Seq<(Seq<char>, BaseTypeV)>) -> Option<Seq<char>> {
    if !(forall|k: int| 0 <= k < tv.len() ==> is_term(#[trigger] tv[k])) {
        None
    } else {
        match decl_sorts(dts, fs, tv, inputs) {
            None => None,
            Some(ss) => {
                let sl = listing(ss);
                match (datatype_decls(dts, sl, 0), func_decls(fs, listing(terms_funcs(tv, tv.len() as int)), 0), input_decls(inputs, 0)) {
                    (Some(a), Some(b), Some(c)) => Some(sort_decls(sl) + a + b + "\n"@ + c),
                    _ => None,
                }
            },
        }
    }
}

/// Whether `name` is a built-in sort name (see [`reserved_sort`]).
fn is_reserved(name: &String) -> (r: bool)
    ensures
        r == reserved_sort(name@),
{
    name.eq(&String::from_str("List")) || name.eq(&String::from_str("Array")) || name.eq(&String::from_str("Seq"))
        || name.eq(&String::from_str("Set")) || name.eq(&String::from_str("Int")) || name.eq(&String::from_str("Real"))
        || name.eq(&String::from_str("String"))
}

/// How a sort is written (see [`emitted_sort`]).
fn emitted_sort_name(name: &String) -> (r: String)
    ensures
        r@ == emitted_sort(name@),
{
    let mut out = name.clone();
    if is_reserved(name) {
        out.append("_");
    }
    out
}

/// A sort by its source name (see [`sort_text`]).
fn sort_name(ty: &BaseType) -> (r: Option<String>)
    ensures
        sort_text(ty@) == match r {
            Some(t) => Some(t@),
            None => None,
        },
{
    match ty {
        BaseType::Custom(n) => Some(emitted_sort_name(n)),
        BaseType::Bool => {
            proof {
                assert(ty@ == BaseTypeV::Bool);
            }
            Some(String::from_str("Bool"))
        },
        BaseType::Unit => {
            proof {
                assert(ty@ == BaseTypeV::Unit);
            }
            None
        },
        BaseType::Tuple(_) => {
            proof {
                assert(ty@ is Tuple);
            }
            None
        },
    }
}

/// The sorts of a list, joined by spaces; None where one cannot be written.
fn joined_sorts(ts: &Vec<BaseType>) -> (r: Option<String>)
    ensures
        match sort_texts(base_views(ts@), 0) {
            Some(parts) => r matches Some(t) && t@ == join(" "@, parts),
            None => r is None,
        },
{
    let ghost tv = base_views(ts@);
    let ghost mut acc: Seq<Seq<char>> = Seq::empty();
    let mut out = String::new();
    let mut i: usize = 0;
    proof {
        match sort_texts(tv, 0) {
            Some(rest) => {
                assert(acc + rest =~= rest);
            },
            None => {},
        }
    }
    while i < ts.len()
        invariant
            0 <= i <= ts@.len(),
            tv == base_views(ts@),
            tv.len() == ts@.len(),
            acc.len() == i,
            out@ == join(" "@, acc),
            sort_texts(tv, 0) == prepend(acc, sort_texts(tv, i as int)),
        decreases ts@.len() - i,
    {
        proof {
            assert(tv[i as int] == ts@[i as int]@);
        }
        match sort_name(&ts[i]) {
            Some(t) => {
                append_joined(&mut out, " ", t.as_str(), i == 0, Ghost(acc));
                proof {
                    match sort_texts(tv, i + 1) {
                        Some(rest) => {
                            assert(acc + (seq![t@] + rest) =~= acc.push(t@) + rest);
                        },
                        None => {},
                    }
                    acc = acc.push(t@);
                }
            },
            None => {
                return None;
            },
        }
        i = i + 1;
    }
    proof {
        assert(acc + Seq::<Seq<char>>::empty() =~= acc);
    }
    Some(out)
}

/// Appends a function declaration.
fn push_fun_decl(out: &mut String, name: &str, args: &str, result: &str, Ghost(parts): Ghost<Seq<Seq<char>>>)
    requires
        args@ == join(" "@, parts),
    ensures
        final(out)@ == old(out)@ + fun_decl(name@, parts, result@),
{
    proof {
        reveal_strlit("(declare-fun ");
        reveal_strlit(" (");
        reveal_strlit(") ");
        reveal_strlit(")\n");
    }
    out.append("(declare-fun ");
    out.append(name);
    out.append(" (");
    out.append(args);
    out.append(") ");
    out.append(result);
    out.append(")\n");
    proof {
        assert(final(out)@ =~= old(out)@ + fun_decl(name@, parts, result@));
    }
}

/// Appends a constant declaration.
fn push_const_decl(out: &mut String, name: &str, sort: &str)
    ensures
        final(out)@ == old(out)@ + const_decl(name@, sort@),
{
    proof {
        reveal_strlit("(declare-const ");
        reveal_strlit(" ");
        reveal_strlit(")\n");
    }
    out.append("(declare-const ");
    out.append(name);
    out.append(" ");
    out.append(sort);
    out.append(")\n");
    proof {
        assert(final(out)@ =~= old(out)@ + const_decl(name@, sort@));
    }
}

/// Appends the declaration of one sort (see [`sort_decl`]).
fn push_sort_decl(out: &mut String, sort: &String)
    ensures
        final(out)@ == old(out)@ + sort_decl(sort@),
{
    let emitted = emitted_sort_name(sort);
    proof {
        reveal_strlit("; sort '");
        reveal_strlit("' is written as '");
        reveal_strlit("' below (the name collides with a Z3 built-in)\n");
        reveal_strlit("(declare-sort ");
        reveal_strlit(" 0)\n");
    }
    let renamed = !emitted.eq(sort);
    if renamed {
        out.append("; sort '");
        out.append(sort.as_str());
        out.append("' is written as '");
        out.append(emitted.as_str());
        out.append("' below (the name collides with a Z3 built-in)\n");
    }
    out.append("(declare-sort ");
    out.append(emitted.as_str());
    out.append(" 0)\n");
    proof {
        assert(final(out)@ =~= old(out)@ + sort_decl(sort@));
    }
}

/// Appends the constructor declarations of one datatype sort (see
/// [`ctor_decls`]); false where a field sort cannot be written.
fn push_ctor_decls(out: &mut String, ctors: &Vec<(Ident, Vec<BaseType>)>, emitted: &String) -> (ok: bool)
    ensures
        ok == ctor_decls(ctors_view(ctors@), emitted@, 0) is Some,
        ok ==> final(out)@ == old(out)@ + ctor_decls(ctors_view(ctors@), emitted@, 0).unwrap(),
{
    let ghost cv = ctors_view(ctors@);
    let ghost o0 = out@;
    let ghost mut acc: Seq<char> = Seq::empty();
    let mut c: usize = 0;
    proof {
        assert(o0 + acc =~= o0);
        match ctor_decls(cv, emitted@, 0) {
            Some(rest) => {
                assert(acc + rest =~= rest);
            },
            None => {},
        }
    }
    while c < ctors.len()
        invariant
            0 <= c <= ctors@.len(),
            cv == ctors_view(ctors@),
            out@ == o0 + acc,
            ctor_decls(cv, emitted@, 0) == prepend(acc, ctor_decls(cv, emitted@, c as int)),
        decreases ctors@.len() - c,
    {
        let ghost before = out@;
        let fields = &ctors[c].1;
        proof {
            assert(cv[c as int] == (ctors@[c as int].0@, base_views(fields@)));
        }
        if fields.len() == 0 {
            push_const_decl(out, ctors[c].0.as_str(), emitted.as_str());
        } else {
            match joined_sorts(fields) {
                Some(args) => {
                    push_fun_decl(out, ctors[c].0.as_str(), args.as_str(), emitted.as_str(), Ghost(sort_texts(base_views(fields@), 0).unwrap()));
                },
                None => {
                    return false;
                },
            }
        }
        proof {
            let piece = out@.skip(before.len() as int);
            assert(out@ =~= before + piece);
            match ctor_decls(cv, emitted@, c + 1) {
                Some(rest) => {
                    assert(acc + (piece + rest) =~= (acc + piece) + rest);
                },
                None => {},
            }
            assert(out@ =~= o0 + (acc + piece));
            acc = acc + piece;
        }
        c = c + 1;
    }
    proof {
        assert(acc + Seq::<char>::empty() =~= acc);
    }
    true
}

/// The declarations of the sorts (see [`sort_decls`]).
fn emit_sort_decls(sl: &Vec<String>) -> (r: String)
    ensures
        r@ == sort_decls(texts(sl@)),
{
    let ghost slv = texts(sl@);
    let mut out = String::new();
    let mut i: usize = 0;
    proof {
        assert(slv.take(0) =~= Seq::<Seq<char>>::empty());
    }
    while i < sl.len()
        invariant
            0 <= i <= sl@.len(),
            slv == texts(sl@),
            out@ == sort_decls(slv.take(i as int)),
        decreases sl@.len() - i,
    {
        proof {
            assert(slv.take(i + 1).drop_last() =~= slv.take(i as int));
            assert(slv.take(i + 1).last() == sl@[i as int]@);
        }
        push_sort_decl(&mut out, &sl[i]);
        i = i + 1;
    }
    proof {
        assert(slv.take(i as int) =~= slv);
    }
    out
}

/// The constructor declarations of the sorts that are datatypes (see
/// [`datatype_decls`]).
fn emit_datatype_decls(program: &Program, sl: &Vec<String>) -> (r: Option<String>)
    ensures
        datatype_decls(datatypes_view(program.datatypes@), texts(sl@), 0) == match r {
            Some(t) => Some(t@),
            None => None,
        },
{
    let ghost slv = texts(sl@);
    let ghost dv = datatypes_view(program.datatypes@);
    let mut out = String::new();
    let ghost mut acc: Seq<char> = Seq::empty();
    let mut j: usize = 0;
    proof {
        match datatype_decls(dv, slv, 0) {
            Some(rest) => {
                assert(acc + rest =~= rest);
            },
            None => {},
        }
    }
    while j < sl.len()
        invariant
            0 <= j <= sl@.len(),
            slv == texts(sl@),
            dv == datatypes_view(program.datatypes@),
            out@ == acc,
            datatype_decls(dv, slv, 0) == prepend(acc, datatype_decls(dv, slv, j as int)),
        decreases sl@.len() - j,
    {
        let ghost before = out@;
        let k = datatype_index(&program.datatypes, &sl[j]);
        if k < program.datatypes.len() {
            let emitted = emitted_sort_name(&sl[j]);
            proof {
                assert(dv[k as int].1 == ctors_view(program.datatypes@[k as int].1@));
            }
            if !push_ctor_decls(&mut out, &program.datatypes[k].1, &emitted) {
                return None;
            }
        }
        proof {
            let piece = out@.skip(before.len() as int);
            assert(out@ =~= before + piece);
            match datatype_decls(dv, slv, j + 1) {
                Some(rest) => {
                    assert(acc + (piece + rest) =~= (acc + piece) + rest);
                },
                None => {},
            }
            acc = acc + piece;
        }
        j = j + 1;
    }
    proof {
        assert(acc + Seq::<char>::empty() =~= acc);
    }
    Some(out)
}

/// The declarations of the named functions (see [`func_decls`]).
fn emit_func_decls(program: &Program, fl: &Vec<String>) -> (r: Option<String>)
    ensures
        func_decls(fdefs_view(program.functions@), texts(fl@), 0) == match r {
            Some(t) => Some(t@),
            None => None,
        },
{
    let ghost flv = texts(fl@);
    let ghost fv = fdefs_view(program.functions@);
    let mut out = String::new();
    let ghost mut acc: Seq<char> = Seq::empty();
    let mut m: usize = 0;
    proof {
        match func_decls(fv, flv, 0) {
            Some(rest) => {
                assert(acc + rest =~= rest);
            },
            None => {},
        }
    }
    while m < fl.len()
        invariant
            0 <= m <= fl@.len(),
            flv == texts(fl@),
            fv == fdefs_view(program.functions@),
            out@ == acc,
            func_decls(fv, flv, 0) == prepend(acc, func_decls(fv, flv, m as int)),
        decreases fl@.len() - m,
    {
        let ghost before = out@;
        let k = function_index(&program.functions, &fl[m]);
        if k >= program.functions.len() {
            return None;
        }
        proof {
            assert(fv[k as int].1.0 == program.functions@[k as int].1.signature@);
        }
        let (ins, o) = match get_fun_types(&program.functions[k].1.signature) {
            Some(p) => p,
            None => {
                return None;
            },
        };
        let args = match joined_sorts(&ins) {
            Some(a) => a,
            None => {
                return None;
            },
        };
        let result = match sort_name(&o) {
            Some(t) => t,
            None => {
                return None;
            },
        };
        push_fun_decl(&mut out, fl[m].as_str(), args.as_str(), result.as_str(), Ghost(sort_texts(base_views(ins@), 0).unwrap()));
        proof {
            let piece = out@.skip(before.len() as int);
            assert(out@ =~= before + piece);
            match func_decls(fv, flv, m + 1) {
                Some(rest) => {
                    assert(acc + (piece + rest) =~= (acc + piece) + rest);
                },
                None => {},
            }
            acc = acc + piece;
        }
        m = m + 1;
    }
    proof {
        assert(acc + Seq::<char>::empty() =~= acc);
    }
    Some(out)
}

/// The declarations of the inputs (see [`input_decls`]).
fn emit_input_decls(inputs: &Vec<(Ident, BaseType)>) -> (r: Option<String>)
    ensures
        input_decls(binders_view(inputs@), 0) == match r {
            Some(t) => Some(t@),
            None => None,
        },
{
    let ghost iv = binders_view(inputs@);
    let mut out = String::new();
    let ghost mut acc: Seq<char> = Seq::empty();
    let mut n: usize = 0;
    proof {
        match input_decls(iv, 0) {
            Some(rest) => {
                assert(acc + rest =~= rest);
            },
            None => {},
        }
    }
    while n < inputs.len()
        invariant
            0 <= n <= inputs@.len(),
            iv == binders_view(inputs@),
            out@ == acc,
            input_decls(iv, 0) == prepend(acc, input_decls(iv, n as int)),
        decreases inputs@.len() - n,
    {
        let ghost before = out@;
        proof {
            assert(iv[n as int] == (inputs@[n as int].0@, inputs@[n as int].1@));
        }
        match &inputs[n].1 {
            BaseType::Unit => {
                proof {
                    assert(inputs@[n as int].1@ == BaseTypeV::Unit);
                }
            },
            ty => {
                proof {
                    assert(inputs@[n as int].1@ != BaseTypeV::Unit);
                }
                match sort_name(ty) {
                    Some(t) => {
                        push_const_decl(&mut out, inputs[n].0.as_str(), t.as_str());
                    },
                    None => {
                        return None;
                    },
                }
            },
        }
        proof {
            let piece = out@.skip(before.len() as int);
            assert(out@ =~= before + piece);
            match input_decls(iv, n + 1) {
                Some(rest) => {
                    assert(acc + (piece + rest) =~= (acc + piece) + rest);
                },
                None => {},
            }
            acc = acc + piece;
        }
        n = n + 1;
    }
    proof {
        assert(acc + Seq::<char>::empty() =~= acc);
    }
    Some(out)
}

/// The declaration section of the counterexample file for a goal's terms
/// and inputs (see [`declarations_text`]).
pub fn try_print_declarations(program: &Program, terms: &Vec<Expr>, inputs: &Vec<(Ident, BaseType)>) -> (r: Option<String>)
    ensures
        declarations_text(datatypes_view(program.datatypes@), fdefs_view(program.functions@), expr_views(terms@), binders_view(inputs@))
            == match r {
            Some(t) => Some(t@),
            None => None,
        },
{
    let ghost dv = datatypes_view(program.datatypes@);
    let ghost fv = fdefs_view(program.functions@);
    let ghost tv = expr_views(terms@);
    let ghost iv = binders_view(inputs@);
    let mut funcs: Vec<String> = Vec::new();
    let mut enums: Vec<String> = Vec::new();
    proof {
        assert(texts(funcs@) =~= Seq::<Seq<char>>::empty());
        assert(texts(enums@) =~= Seq::<Seq<char>>::empty());
    }
    if !collect_args(terms, &mut funcs, &mut enums) {
        return None;
    }
    proof {
        assert(texts(funcs@) =~= terms_funcs(tv, tv.len() as int));
        assert(texts(enums@) =~= terms_enums(tv, tv.len() as int));
    }
    let sorts = match collect_sorts(program, &funcs, &enums, inputs) {
        Some(v) => v,
        None => {
            return None;
        },
    };
    let sl = sorted_ci(&sorts);
    let fl = sorted_ci(&funcs);
    let mut out = emit_sort_decls(&sl);
    let a = match emit_datatype_decls(program, &sl) {
        Some(t) => t,
        None => {
            return None;
        },
    };
    let b = match emit_func_decls(program, &fl) {
        Some(t) => t,
        None => {
            return None;
        },
    };
    let c = match emit_input_decls(inputs) {
        Some(t) => t,
        None => {
            return None;
        },
    };
    proof {
        reveal_strlit("\n");
    }
    out.append(a.as_str());
    out.append(b.as_str());
    out.append("\n");
    out.append(c.as_str());
    proof {
        assert(out@ =~= sort_decls(texts(sl@)) + a@ + b@ + "\n"@ + c@);
    }
    Some(out)
}

/// The declaration section of the counterexample file (see
/// [`declarations_text`]); defined where [`try_print_declarations`] gives one.
pub fn print_declarations(program: &Program, terms: &Vec<Expr>, inputs: &Vec<(Ident, BaseType)>) -> (r: String)
    requires
        declarations_text(datatypes_view(program.datatypes@), fdefs_view(program.functions@), expr_views(terms@), binders_view(inputs@)) is Some,
    ensures
        declarations_text(datatypes_view(program.datatypes@), fdefs_view(program.functions@), expr_views(terms@), binders_view(inputs@)) == Some(r@),
{
    match try_print_declarations(program, terms, inputs) {
        Some(t) => t,
        None => {
            proof {
                assert(false);
            }
            String::new()
        },
    }
}

} // verus!
