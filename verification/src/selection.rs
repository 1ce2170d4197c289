//! The selection state: which keyword of which category is switched on.

use vstd::prelude::*;

verus! {

/// One category of a selection: each keyword id with its flag, in the order
/// in which the category declares its keywords.
#[derive(Debug, PartialEq, Eq)]
pub struct UiCategory {
    pub name: String,
    pub values: Vec<(String, bool)>,
}

/// A selection: an opaque leading salt and one entry per category, in the
/// schema's order.
#[derive(Debug, PartialEq, Eq)]
pub struct State {
    pub salt: String,
    pub categories: Vec<UiCategory>,
}

/// One category of a selection as plain values.
pub struct UiCategoryView {
    pub name: Seq<char>,
    pub values: Seq<(Seq<char>, bool)>,
}

/// A selection as plain values.
pub struct StateView {
    pub salt: Seq<char>,
    pub categories: Seq<UiCategoryView>,
}

/// The flags of a category as pairs of plain values.
pub open spec fn flag_views(v: Seq<(String, bool)>) -> Seq<(Seq<char>, bool)> {
    Seq::new(v.len(), |i: int| (v[i].0@, v[i].1))
}

/// The views of a vector of categories of a selection.
pub open spec fn ui_category_views(v: Seq<UiCategory>) -> Seq<UiCategoryView> {
    Seq::new(v.len(), |i: int| v[i]@)
}

impl View for UiCategory {
    type V = UiCategoryView;

    open spec fn view(&self) -> UiCategoryView {
        UiCategoryView { name: self.name@, values: flag_views(self.values@) }
    }
}

impl View for State {
    type V = StateView;

    open spec fn view(&self) -> StateView {
        StateView { salt: self.salt@, categories: ui_category_views(self.categories@) }
    }
}

impl Clone for UiCategory {
    fn clone(&self) -> (r: Self)
        ensures
            r@ == self@,
    {
        let mut values: Vec<(String, bool)> = Vec::new();
        let mut i: usize = 0;
        while i < self.values.len()
            invariant
                i <= self.values.len(),
                values@.len() == i,
                forall|k: int|
                    0 <= k < i ==> (#[trigger] values@[k]).0@ == self.values@[k].0@ && values@[k].1
                        == self.values@[k].1,
            decreases self.values.len() - i,
        {
            values.push((self.values[i].0.clone(), self.values[i].1));
            i += 1;
        }
        assert(flag_views(values@) =~= flag_views(self.values@));
        UiCategory { name: self.name.clone(), values }
    }
}

impl Clone for State {
    fn clone(&self) -> (r: Self)
        ensures
            r@ == self@,
    {
        let mut categories: Vec<UiCategory> = Vec::new();
        let mut i: usize = 0;
        while i < self.categories.len()
            invariant
                i <= self.categories.len(),
                categories@.len() == i,
                forall|k: int| 0 <= k < i ==> (#[trigger] categories@[k])@ == self.categories@[k]@,
            decreases self.categories.len() - i,
        {
            categories.push(self.categories[i].clone());
            i += 1;
        }
        assert(ui_category_views(categories@) =~= ui_category_views(self.categories@));
        State { salt: self.salt.clone(), categories }
    }
}

/// An id counts as selected where its entry holds it with the flag set.
pub open spec fn is_selected(entry: Seq<(Seq<char>, bool)>, id: Seq<char>) -> bool {
    exists|k: int| 0 <= k < entry.len() && #[trigger] entry[k] == (id, true)
}

/// Whether `entry` holds `id` with its flag set.
pub fn holds_selected(entry: &Vec<(String, bool)>, id: &String) -> (r: bool)
    ensures
        r == is_selected(flag_views(entry@), id@),
{
    let mut k: usize = 0;
    while k < entry.len()
        invariant
            k <= entry.len(),
            forall|j: int| 0 <= j < k ==> #[trigger] flag_views(entry@)[j] != (id@, true),
        decreases entry.len() - k,
    {
        if entry[k].1 && entry[k].0 == *id {
            assert(flag_views(entry@)[k as int] == (id@, true));
            return true;
        }
        k += 1;
    }
    false
}

} // verus!
