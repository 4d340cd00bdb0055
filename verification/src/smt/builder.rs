//! Sort and identifier rendering for the solver.

use vstd::prelude::*;
use crate::ast::{BaseType, BaseTypeV, base_views};
use crate::text::{sanitized, sanitize_id};

verus! {

broadcast use vstd::std_specs::vec::group_vec_axioms, crate::ast::group_ast_views;

/// The solver's name for a sort: `Bool`, `Unit`, `UI_` and the sanitised
/// name of a user sort, `TUPLE` followed by `__` and each component.
pub open spec fn sort_text(b: BaseTypeV) -> Seq<char>
    decreases b,
{
    match b {
        BaseTypeV::Bool => "Bool"@,
        BaseTypeV::Unit => "Unit"@,
        BaseTypeV::Custom(name) => "UI_"@ + sanitized(name),
        BaseTypeV::Tuple(ts) => "TUPLE"@ + components_text(ts),
    }
}

/// `__` and the name of each component, concatenated.
pub open spec fn components_text(ts: Seq<BaseTypeV>) -> Seq<char>
    decreases ts,
{
    if ts.len() == 0 {
        Seq::empty()
    } else {
        components_text(ts.drop_last()) + "__"@ + sort_text(ts.last())
    }
}

/// Renders a sort for the solver.
pub fn render_sort(b: &BaseType) -> (r: String)
    ensures
        r@ == sort_text(b@),
    decreases b,
{
    match b {
        BaseType::Bool => {
            proof {
                reveal_strlit("Bool");
            }
            String::from_str("Bool")
        },
        BaseType::Unit => {
            proof {
                reveal_strlit("Unit");
            }
            String::from_str("Unit")
        },
        BaseType::Custom(name) => {
            proof {
                reveal_strlit("UI_");
            }
            let mut s = String::from_str("UI_");
            let n = sanitize_id(name.as_str());
            s.append(n.as_str());
            s
        },
        BaseType::Tuple(ts) => {
            proof {
                reveal_strlit("TUPLE");
                reveal_strlit("__");
                assert(b@ == BaseTypeV::Tuple(base_views(ts@)));
            }
            let ghost tv = base_views(ts@);
            let mut s = String::from_str("TUPLE");
            let mut i: usize = 0;
            proof {
                assert(tv.take(0) =~= Seq::<BaseTypeV>::empty());
            }
            while i < ts.len()
                invariant
                    0 <= i <= ts@.len(),
                    tv == base_views(ts@),
                    *b == BaseType::Tuple(*ts),
                    s@ == "TUPLE"@ + components_text(tv.take(i as int)),
                decreases ts@.len() - i,
            {
                proof {
                    assert(decreases_to!(*b => (*b)->Tuple_0));
                    assert(decreases_to!(ts@ => ts@[i as int]));
                    assert(tv.take(i + 1).drop_last() =~= tv.take(i as int));
                }
                s.append("__");
                let c = render_sort(&ts[i]);
                s.append(c.as_str());
                i = i + 1;
            }
            proof {
                assert(tv.take(i as int) =~= tv);
            }
            s
        },
    }
}

} // verus!
