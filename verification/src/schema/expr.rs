//! The untyped expression tree of the configuration language.

use vstd::prelude::*;

verus! {

/// What the parser reads: literals, keyword pairs, lists and calls.
#[derive(Debug, PartialEq, Eq)]
pub enum ExprU {
    NatU(u8),
    StringU(String),
    KeywordU { name: String, id: String },
    ListU(Vec<ExprU>),
    FnU { name: String, args: Vec<ExprU> },
}

/// An untyped expression as plain values.
pub enum ExprUView {
    NatU(u8),
    StringU(Seq<char>),
    KeywordU { name: Seq<char>, id: Seq<char> },
    ListU(Seq<ExprUView>),
    FnU { name: Seq<char>, args: Seq<ExprUView> },
}

impl View for ExprU {
    type V = ExprUView;

    open spec fn view(&self) -> ExprUView
        decreases self,
    {
        match self {
            ExprU::NatU(n) => ExprUView::NatU(*n),
            ExprU::StringU(s) => ExprUView::StringU(s@),
            ExprU::KeywordU { name, id } => ExprUView::KeywordU { name: name@, id: id@ },
            ExprU::ListU(items) => ExprUView::ListU(
                expr_views(items@),
            ),
            ExprU::FnU { name, args } => ExprUView::FnU {
                name: name@,
                args: expr_views(args@),
            },
        }
    }
}

/// The views of a vector of expressions.
pub open spec fn expr_views(v: Seq<ExprU>) -> Seq<ExprUView>
    decreases v,
{
    Seq::new(
        v.len(),
        |i: int|
            if 0 <= i < v.len() {
                v[i]@
            } else {
                ExprUView::NatU(0)
            },
    )
}

impl Clone for ExprU {
    fn clone(&self) -> (r: Self)
        ensures
            r@ == self@,
        decreases self,
    {
        match self {
            ExprU::NatU(n) => ExprU::NatU(*n),
            ExprU::StringU(s) => ExprU::StringU(s.clone()),
            ExprU::KeywordU { name, id } => ExprU::KeywordU { name: name.clone(), id: id.clone() },
            ExprU::ListU(items) => {
                let mut copy: Vec<ExprU> = Vec::new();
                let mut i: usize = 0;
                while i < items.len()
                    invariant
                        *self == ExprU::ListU(*items),
                        i <= items.len(),
                        copy@.len() == i,
                        forall|k: int| 0 <= k < i ==> (#[trigger] copy@[k])@ == items@[k]@,
                    decreases items.len() - i,
                {
                    proof {
                        vstd::std_specs::vec::axiom_vec_index_decreases(*items, i as int);
                        assert(self->ListU_0 == *items);
                    }
                    copy.push(items[i].clone());
                    i += 1;
                }
                assert(expr_views(copy@) =~= expr_views(items@));
                ExprU::ListU(copy)
            },
            ExprU::FnU { name, args } => {
                let mut copy: Vec<ExprU> = Vec::new();
                let mut i: usize = 0;
                while i < args.len()
                    invariant
                        *self == (ExprU::FnU { name: *name, args: *args }),
                        i <= args.len(),
                        copy@.len() == i,
                        forall|k: int| 0 <= k < i ==> (#[trigger] copy@[k])@ == args@[k]@,
                    decreases args.len() - i,
                {
                    proof {
                        vstd::std_specs::vec::axiom_vec_index_decreases(*args, i as int);
                        assert(self->args == *args);
                    }
                    copy.push(args[i].clone());
                    i += 1;
                }
                assert(expr_views(copy@) =~= expr_views(args@));
                ExprU::FnU { name: name.clone(), args: copy }
            },
        }
    }
}

} // verus!
