//! Symbolic costs of the operations of generic type parameters.
use vstd::prelude::*;
use crate::expr::LinExpr;
use crate::keymap::KeyMap;
use crate::obligation::expr_value;
use crate::text::owned;

verus! {

/// The cost of each trait operation on a type parameter, by name such as `Clone<T>`.
#[derive(Debug, Clone, PartialEq, Eq)]
pub struct GenericCostModel {
    pub costs: KeyMap<String, LinExpr>,
}

/// The cost `1·name`.
pub open spec fn unit_var(name: Seq<char>) -> (int, spec_fn(Seq<char>) -> int) {
    (0, |n: Seq<char>| if n == name { 1int } else { 0 })
}

impl GenericCostModel {
    /// `Clone<T>`, `Drop<T>` and `Hash<T>` cost the symbolic constants
    /// `K_clone_T`, `K_drop_T` and `K_hash_T`.
    pub fn default_symbolic() -> (r: Self)
        ensures
            r.costs.wf(),
            r.costs@.dom() == set![seq!["Clone<T>"@], seq!["Drop<T>"@], seq!["Hash<T>"@]],
            expr_value(r.costs@[seq!["Clone<T>"@]]) == unit_var("K_clone_T"@),
            expr_value(r.costs@[seq!["Drop<T>"@]]) == unit_var("K_drop_T"@),
            expr_value(r.costs@[seq!["Hash<T>"@]]) == unit_var("K_hash_T"@),
            forall|k: Seq<Seq<char>>| #[trigger] r.costs@.contains_key(k) ==> r.costs@[k].wf(),
    {
        let mut costs: KeyMap<String, LinExpr> = KeyMap::new();
        let c = LinExpr::var("K_clone_T", 1);
        assert(expr_value(c).1 =~= unit_var("K_clone_T"@).1);
        costs.insert(owned("Clone<T>"), c);
        let d = LinExpr::var("K_drop_T", 1);
        assert(expr_value(d).1 =~= unit_var("K_drop_T"@).1);
        costs.insert(owned("Drop<T>"), d);
        let h = LinExpr::var("K_hash_T", 1);
        assert(expr_value(h).1 =~= unit_var("K_hash_T"@).1);
        costs.insert(owned("Hash<T>"), h);
        proof {
            reveal_strlit("Clone<T>");
            reveal_strlit("Drop<T>");
            reveal_strlit("Hash<T>");
            assert(seq!["Clone<T>"@] != seq!["Drop<T>"@]) by {
                assert(seq!["Clone<T>"@][0][0] != seq!["Drop<T>"@][0][0]);
            }
            assert(seq!["Clone<T>"@] != seq!["Hash<T>"@]) by {
                assert(seq!["Clone<T>"@][0][0] != seq!["Hash<T>"@][0][0]);
            }
            assert(seq!["Drop<T>"@] != seq!["Hash<T>"@]) by {
                assert(seq!["Drop<T>"@][0][0] != seq!["Hash<T>"@][0][0]);
            }
            assert(costs@.dom() =~= set![seq!["Clone<T>"@], seq!["Drop<T>"@], seq!["Hash<T>"@]]);
        }
        GenericCostModel { costs }
    }
}

} // verus!
