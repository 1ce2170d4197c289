//! Which schemas are valid, and which read every filename in one way.

use vstd::prelude::*;
use crate::schema::{Schema, SchemaView};
use crate::text::{chars_of, matches_at, occurs_at, occurs_in, separable};

verus! {

impl SchemaView {
    /// Category `ci` has a keyword `j`.
    pub open spec fn has_keyword(self, ci: int, j: int) -> bool {
        0 <= ci < self.categories.len() && 0 <= j < self.categories[ci].keywords.len()
    }

    /// The id of keyword `j` of category `ci`.
    pub open spec fn id(self, ci: int, j: int) -> Seq<char> {
        self.categories[ci].keywords[j].id
    }

    /// Keyword `j` of category `ci` has a name and an id, neither empty,
    /// and its id neither holds the delimiter nor is the placeholder.
    pub open spec fn keyword_fine(self, ci: int, j: int) -> bool {
        &&& self.categories[ci].keywords[j].name.len() > 0
        &&& self.id(ci, j).len() > 0
        &&& !occurs_in(self.id(ci, j), self.delim)
        &&& self.id(ci, j) != self.empty
    }

    /// What a schema must keep to: the delimiter is not empty; every keyword
    /// has a name and an id, neither empty; no id holds the delimiter or is
    /// the placeholder; and the ids of one category differ from each other.
    pub open spec fn well_formed(self) -> bool {
        &&& self.delim.len() > 0
        &&& forall|ci: int, j: int| #[trigger]
            self.has_keyword(ci, j) ==> self.keyword_fine(ci, j)
        &&& forall|ci: int, j: int, k: int|
            #![trigger self.has_keyword(ci, j), self.has_keyword(ci, k)]
            self.has_keyword(ci, j) && self.has_keyword(ci, k) && j != k ==> self.id(ci, j)
                != self.id(ci, k)
    }

    /// What makes every filename of the schema read back in one way only:
    /// the placeholder and the ids are separable from the delimiter, and two
    /// categories that follow each other share no id.
    pub open spec fn unambiguous(self) -> bool {
        &&& separable(self.empty, self.delim)
        &&& forall|ci: int, j: int| #[trigger]
            self.has_keyword(ci, j) ==> separable(self.id(ci, j), self.delim)
        &&& forall|ci: int, j: int, next: int, k: int|
            #![trigger self.has_keyword(ci, j), self.has_keyword(next, k)]
            self.has_keyword(ci, j) && self.has_keyword(next, k) && next == ci + 1 ==> self.id(
                ci,
                j,
            ) != self.id(next, k)
    }
}

/// Whether `d` stands somewhere in `s`.
pub fn occurs(s: &Vec<char>, d: &Vec<char>) -> (r: bool)
    ensures
        r == occurs_in(s@, d@),
{
    let mut i: usize = 0;
    loop
        invariant
            i <= s.len(),
            forall|k: int| 0 <= k < i ==> !occurs_at(s@, d@, k),
        decreases s.len() - i,
    {
        if matches_at(s, d, i) {
            return true;
        }
        if i == s.len() {
            return false;
        }
        i += 1;
    }
}

/// Whether a field can be told from the delimiter behind it.
pub fn is_separable(field: &str, delim: &str) -> (r: bool)
    ensures
        r == separable(field@, delim@),
{
    let f = chars_of(field);
    let d = chars_of(delim);
    let mut both = chars_of(field);
    let mut i: usize = 0;
    while i < d.len()
        invariant
            i <= d.len(),
            both@ == f@ + d@.take(i as int),
        decreases d.len() - i,
    {
        both.push(d[i]);
        assert(f@ + d@.take(i as int + 1) =~= (f@ + d@.take(i as int)).push(d@[i as int]));
        i += 1;
    }
    assert(d@.take(d@.len() as int) =~= d@);
    let mut k: usize = 0;
    while k < f.len()
        invariant
            k <= f.len(),
            f@ == field@,
            d@ == delim@,
            both@ == f@ + d@,
            forall|j: int| 0 <= j < k ==> !occurs_at(both@, d@, j),
        decreases f.len() - k,
    {
        if matches_at(&both, &d, k) {
            return false;
        }
        k += 1;
    }
    true
}

impl Schema {
    /// Whether the schema keeps to what a schema must keep to.
    #[verifier::loop_isolation(false)]
    pub fn is_well_formed(&self) -> (r: bool)
        ensures
            r == self@.well_formed(),
    {
        if self.delim.as_str().is_empty() {
            return false;
        }
        let d = chars_of(self.delim.as_str());
        let mut ci: usize = 0;
        while ci < self.categories.len()
            invariant
                ci <= self.categories.len(),
                forall|c: int, j: int| #[trigger]
                    self@.has_keyword(c, j) && c < ci ==> self@.keyword_fine(c, j),
                forall|c: int, j: int, k: int|
                    #![trigger self@.has_keyword(c, j), self@.has_keyword(c, k)]
                    self@.has_keyword(c, j) && self@.has_keyword(c, k) && c < ci && j != k
                        ==> self@.id(c, j) != self@.id(c, k),
            decreases self.categories.len() - ci,
        {
            let cat = &self.categories[ci];
            let mut j: usize = 0;
            while j < cat.keywords.len()
                invariant
                    j <= cat.keywords.len(),
                    forall|i: int| 0 <= i < j ==> #[trigger] self@.keyword_fine(ci as int, i),
                    forall|i: int, k: int|
                        #![trigger self@.id(ci as int, i), self@.id(ci as int, k)]
                        0 <= i < j && 0 <= k < j && i != k ==> self@.id(ci as int, i) != self@.id(
                            ci as int,
                            k,
                        ),
                decreases cat.keywords.len() - j,
            {
                let keyword = &cat.keywords[j];
                assert(self@.has_keyword(ci as int, j as int));
                assert(self@.id(ci as int, j as int) == keyword.id@);
                assert(self@.categories[ci as int].keywords[j as int].name == keyword.name@);
                if keyword.name.as_str().is_empty() || keyword.id.as_str().is_empty() {
                    return false;
                }
                let id = chars_of(keyword.id.as_str());
                if occurs(&id, &d) {
                    return false;
                }
                if keyword.id == self.empty {
                    return false;
                }
                let mut k: usize = 0;
                while k < j
                    invariant
                        k <= j,
                        forall|i: int| 0 <= i < k ==> self@.id(ci as int, i) != keyword.id@,
                    decreases j - k,
                {
                    assert(self@.has_keyword(ci as int, k as int));
                    assert(self@.id(ci as int, k as int) == cat.keywords@[k as int].id@);
                    if cat.keywords[k].id == keyword.id {
                        return false;
                    }
                    k += 1;
                }
                j += 1;
            }
            ci += 1;
        }
        true
    }

    /// Whether every filename of the schema reads back in one way only.
    #[verifier::loop_isolation(false)]
    pub fn is_unambiguous(&self) -> (r: bool)
        ensures
            r == self@.unambiguous(),
    {
        if !is_separable(self.empty.as_str(), self.delim.as_str()) {
            return false;
        }
        let mut ci: usize = 0;
        while ci < self.categories.len()
            invariant
                ci <= self.categories.len(),
                forall|c: int, j: int| #[trigger]
                    self@.has_keyword(c, j) && c < ci ==> separable(self@.id(c, j), self@.delim),
                forall|c: int, j: int, next: int, k: int|
                    #![trigger self@.has_keyword(c, j), self@.has_keyword(next, k)]
                    self@.has_keyword(c, j) && self@.has_keyword(next, k) && next == c + 1 && c
                        < ci ==> self@.id(c, j) != self@.id(next, k),
            decreases self.categories.len() - ci,
        {
            let cat = &self.categories[ci];
            let mut j: usize = 0;
            while j < cat.keywords.len()
                invariant
                    j <= cat.keywords.len(),
                    forall|i: int|
                        0 <= i < j ==> separable(#[trigger] self@.id(ci as int, i), self@.delim),
                    forall|i: int, k: int|
                        #![trigger self@.id(ci as int, i), self@.id(ci + 1, k)]
                        0 <= i < j && self@.has_keyword(ci + 1, k) ==> self@.id(ci as int, i)
                            != self@.id(ci + 1, k),
                decreases cat.keywords.len() - j,
            {
                let keyword = &cat.keywords[j];
                assert(self@.has_keyword(ci as int, j as int));
                assert(self@.id(ci as int, j as int) == keyword.id@);
                if !is_separable(keyword.id.as_str(), self.delim.as_str()) {
                    return false;
                }
                if ci + 1 < self.categories.len() {
                    let later = &self.categories[ci + 1];
                    let mut k: usize = 0;
                    while k < later.keywords.len()
                        invariant
                            k <= later.keywords.len(),
                            forall|i: int|
                                0 <= i < k ==> #[trigger] self@.id(ci + 1, i) != keyword.id@,
                        decreases later.keywords.len() - k,
                    {
                        assert(self@.has_keyword(ci + 1, k as int));
                        assert(self@.id(ci + 1, k as int) == later.keywords@[k as int].id@);
                        if later.keywords[k].id == keyword.id {
                            return false;
                        }
                        k += 1;
                    }
                }
                j += 1;
            }
            ci += 1;
        }
        true
    }
}

} // verus!
