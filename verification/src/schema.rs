//! The typed schema and the decoding of filenames against it.

use vstd::prelude::*;
use crate::selection::{State, StateView, UiCategory, UiCategoryView, flag_views};
use crate::text::{split, split_fields, views};

pub mod expr;
pub mod lex;
pub mod parse;
pub mod source;
pub mod typecheck;

verus! {

/// How many keywords of a category must be selected.
#[derive(Clone, Copy, Debug, PartialEq, Eq, Hash)]
pub enum Requirement {
    Exactly(u8),
    AtLeast(u8),
    AtMost(u8),
}

/// A display name and the id that stands in filenames.
#[derive(Debug, PartialEq, Eq, Hash)]
pub struct Keyword {
    pub name: String,
    pub id: String,
}

/// A named group of keywords with a rule on how many may be selected.
#[derive(Debug, PartialEq, Eq, Hash)]
pub struct Category {
    pub name: String,
    pub requirement: Requirement,
    pub keywords: Vec<Keyword>,
}

/// A tagging scheme: the delimiter between fields, the placeholder of a
/// category without tags, and the categories in order.
#[derive(Debug, PartialEq, Eq, Hash)]
pub struct Schema {
    pub delim: String,
    pub empty: String,
    pub categories: Vec<Category>,
}

/// Why a filename does not decode.
#[derive(Clone, Debug, PartialEq, Eq)]
pub enum FilenameParseError {
    /// A field is left over behind the last category.
    UnexpectedTag(String),
}

/// A keyword as plain values.
pub struct KeywordView {
    pub name: Seq<char>,
    pub id: Seq<char>,
}

/// A category as plain values.
pub struct CategoryView {
    pub name: Seq<char>,
    pub requirement: Requirement,
    pub keywords: Seq<KeywordView>,
}

/// A schema as plain values.
pub struct SchemaView {
    pub delim: Seq<char>,
    pub empty: Seq<char>,
    pub categories: Seq<CategoryView>,
}

/// The views of a vector of keywords.
pub open spec fn keyword_views(v: Seq<Keyword>) -> Seq<KeywordView> {
    Seq::new(v.len(), |i: int| v[i]@)
}

/// The views of a vector of categories.
pub open spec fn category_views(v: Seq<Category>) -> Seq<CategoryView> {
    Seq::new(v.len(), |i: int| v[i]@)
}

impl View for Keyword {
    type V = KeywordView;

    open spec fn view(&self) -> KeywordView {
        KeywordView { name: self.name@, id: self.id@ }
    }
}

impl View for Category {
    type V = CategoryView;

    open spec fn view(&self) -> CategoryView {
        CategoryView {
            name: self.name@,
            requirement: self.requirement,
            keywords: keyword_views(self.keywords@),
        }
    }
}

impl View for Schema {
    type V = SchemaView;

    open spec fn view(&self) -> SchemaView {
        SchemaView {
            delim: self.delim@,
            empty: self.empty@,
            categories: category_views(self.categories@),
        }
    }
}

impl Clone for Keyword {
    fn clone(&self) -> (r: Self)
        ensures
            r@ == self@,
    {
        Keyword { name: self.name.clone(), id: self.id.clone() }
    }
}

impl Clone for Category {
    fn clone(&self) -> (r: Self)
        ensures
            r@ == self@,
    {
        let mut keywords: Vec<Keyword> = Vec::new();
        let mut i: usize = 0;
        while i < self.keywords.len()
            invariant
                i <= self.keywords.len(),
                keywords@.len() == i,
                forall|k: int| 0 <= k < i ==> (#[trigger] keywords@[k])@ == self.keywords@[k]@,
            decreases self.keywords.len() - i,
        {
            keywords.push(self.keywords[i].clone());
            i += 1;
        }
        assert(keyword_views(keywords@) =~= keyword_views(self.keywords@));
        Category { name: self.name.clone(), requirement: self.requirement, keywords }
    }
}

impl Clone for Schema {
    fn clone(&self) -> (r: Self)
        ensures
            r@ == self@,
    {
        let mut categories: Vec<Category> = Vec::new();
        let mut i: usize = 0;
        while i < self.categories.len()
            invariant
                i <= self.categories.len(),
                categories@.len() == i,
                forall|k: int| 0 <= k < i ==> (#[trigger] categories@[k])@ == self.categories@[k]@,
            decreases self.categories.len() - i,
        {
            categories.push(self.categories[i].clone());
            i += 1;
        }
        assert(category_views(categories@) =~= category_views(self.categories@));
        Schema { delim: self.delim.clone(), empty: self.empty.clone(), categories }
    }
}

impl Requirement {
    /// Whether `count` selected keywords satisfy the requirement.
    pub open spec fn allows(self, count: int) -> bool {
        match self {
            Requirement::Exactly(n) => count == n,
            Requirement::AtLeast(n) => count >= n,
            Requirement::AtMost(n) => count <= n,
        }
    }

    /// The words for the kind of a requirement in messages.
    pub open spec fn label(self) -> Seq<char> {
        match self {
            Requirement::Exactly(_) => "exactly"@,
            Requirement::AtLeast(_) => "at least"@,
            Requirement::AtMost(_) => "at most"@,
        }
    }

    /// The words for the kind of a requirement in messages.
    pub fn to_string(&self) -> (r: String)
        ensures
            r@ == self.label(),
    {
        match self {
            Requirement::Exactly(_) => "exactly".to_owned(),
            Requirement::AtLeast(_) => "at least".to_owned(),
            Requirement::AtMost(_) => "at most".to_owned(),
        }
    }

    /// Whether `count` selected keywords satisfy the requirement.
    pub fn is_met(&self, count: usize) -> (r: bool)
        ensures
            r == self.allows(count as int),
    {
        match self {
            Requirement::Exactly(n) => count == *n as usize,
            Requirement::AtLeast(n) => count >= *n as usize,
            Requirement::AtMost(n) => count <= *n as usize,
        }
    }
}

impl CategoryView {
    /// `tag` is the id of one of the category's keywords.
    pub open spec fn has_id(self, tag: Seq<char>) -> bool {
        exists|j: int| 0 <= j < self.keywords.len() && (#[trigger] self.keywords[j]).id == tag
    }
}

impl Category {
    /// Whether `tag` is the id of one of the category's keywords.
    pub fn has_id(&self, tag: &String) -> (r: bool)
        ensures
            r == self@.has_id(tag@),
    {
        let mut j: usize = 0;
        while j < self.keywords.len()
            invariant
                j <= self.keywords.len(),
                forall|k: int| 0 <= k < j ==> (#[trigger] self@.keywords[k]).id != tag@,
            decreases self.keywords.len() - j,
        {
            if self.keywords[j].id == *tag {
                assert(self@.keywords[j as int].id == tag@);
                return true;
            }
            j += 1;
        }
        false
    }
}

/// How many fields from `from` on are ids of the category, one after the
/// other.
pub open spec fn run_of_ids(cat: CategoryView, fields: Seq<Seq<char>>, from: int) -> int
    decreases fields.len() - from,
{
    if 0 <= from < fields.len() && cat.has_id(fields[from]) {
        1 + run_of_ids(cat, fields, from + 1)
    } else {
        0
    }
}

/// How many fields a category takes at `from`: its run of ids, or, where
/// that is empty, the one placeholder that may stand there.
pub open spec fn taken_len(
    schema: SchemaView,
    cat: CategoryView,
    fields: Seq<Seq<char>>,
    from: int,
) -> int {
    let run = run_of_ids(cat, fields, from);
    if run > 0 {
        run
    } else if 0 <= from < fields.len() && fields[from] == schema.empty {
        1
    } else {
        0
    }
}

/// The field at which category `ci` starts: behind the salt and behind what
/// the categories before it took.
pub open spec fn position(schema: SchemaView, fields: Seq<Seq<char>>, ci: nat) -> int
    decreases ci,
{
    if ci == 0 {
        1
    } else {
        let before = position(schema, fields, (ci - 1) as nat);
        before + taken_len(schema, schema.categories[ci - 1], fields, before)
    }
}

/// `tag` stands among `fields[from..to]`.
pub open spec fn among(fields: Seq<Seq<char>>, from: int, to: int, tag: Seq<char>) -> bool {
    exists|k: int| from <= k < to && #[trigger] fields[k] == tag
}

/// What a category reads from the fields at `from`: each of its ids, flagged
/// where it stands in the category's run.
pub open spec fn decoded_entry(
    cat: CategoryView,
    fields: Seq<Seq<char>>,
    from: int,
) -> UiCategoryView {
    let to = from + run_of_ids(cat, fields, from);
    UiCategoryView {
        name: cat.name,
        values: Seq::new(
            cat.keywords.len(),
            |j: int| (cat.keywords[j].id, among(fields, from, to, cat.keywords[j].id)),
        ),
    }
}

/// The selection that the fields hold, or the first field that no category
/// took.
pub open spec fn decode_fields(schema: SchemaView, fields: Seq<Seq<char>>) -> Result<
    StateView,
    Seq<char>,
> {
    let end = position(schema, fields, schema.categories.len());
    if end < fields.len() {
        Err(fields[end])
    } else {
        Ok(
            StateView {
                salt: fields[0],
                categories: Seq::new(
                    schema.categories.len(),
                    |ci: int|
                        decoded_entry(
                            schema.categories[ci],
                            fields,
                            position(schema, fields, ci as nat),
                        ),
                ),
            },
        )
    }
}

/// The selection that a filename holds under a schema: the filename is cut
/// at the delimiter, the first field is the salt, and each category in turn
/// takes the fields that are its ids.
pub open spec fn decode(schema: SchemaView, input: Seq<char>) -> Result<StateView, Seq<char>> {
    decode_fields(schema, split(input, schema.delim))
}

/// A run of ids goes on as long as the fields are ids of the category.
pub proof fn lemma_run_of_ids_extend(
    cat: CategoryView,
    fields: Seq<Seq<char>>,
    from: int,
    to: int,
)
    requires
        0 <= from <= to <= fields.len(),
        forall|k: int| from <= k < to ==> cat.has_id(#[trigger] fields[k]),
    ensures
        run_of_ids(cat, fields, from) == (to - from) + run_of_ids(cat, fields, to),
    decreases to - from,
{
    if from < to {
        lemma_run_of_ids_extend(cat, fields, from + 1, to);
    }
}

impl Schema {
    /// The selection that a filename holds.
    ///
    /// The filename is cut at the delimiter. The first field is the salt.
    /// Each category, in the schema's order, then takes the fields that are
    /// ids of its keywords, as many as follow one another; where there is
    /// none and the next field is the placeholder, it takes that one field.
    /// The ids that a category took are flagged, its other ids are not. How
    /// many keywords a category requires plays no part. A field that is
    /// left when the last category has taken its fields is reported.
    pub fn parse(&self, input: &str) -> (r: Result<State, FilenameParseError>)
        ensures
            match r {
                Ok(state) => decode(self@, input@) == Ok::<StateView, Seq<char>>(state@),
                Err(FilenameParseError::UnexpectedTag(tag)) => decode(self@, input@) == Err::<
                    StateView,
                    Seq<char>,
                >(tag@),
            },
    {
        let fields = split_fields(input, self.delim.as_str());
        let ghost all = views(fields@);
        assert(fields.len() >= 1) by {
            assert(split(input@, self@.delim).len() >= 1);
        }
        let mut categories: Vec<UiCategory> = Vec::new();
        let mut pos: usize = 1;
        let mut ci: usize = 0;
        while ci < self.categories.len()
            invariant
                ci <= self.categories.len(),
                all == views(fields@),
                1 <= pos <= fields.len(),
                pos == position(self@, all, ci as nat),
                categories@.len() == ci,
                forall|k: int|
                    0 <= k < ci ==> (#[trigger] categories@[k])@ == decoded_entry(
                        self@.categories[k],
                        all,
                        position(self@, all, k as nat),
                    ),
            decreases self.categories.len() - ci,
        {
            let cat = &self.categories[ci];
            let mut end: usize = pos;
            while end < fields.len() && cat.has_id(&fields[end])
                invariant
                    pos <= end <= fields.len(),
                    all == views(fields@),
                    forall|k: int| pos <= k < end ==> cat@.has_id(#[trigger] all[k]),
                decreases fields.len() - end,
            {
                end += 1;
            }
            proof {
                lemma_run_of_ids_extend(cat@, all, pos as int, end as int);
                assert(run_of_ids(cat@, all, end as int) == 0);
            }
            let mut values: Vec<(String, bool)> = Vec::new();
            let mut j: usize = 0;
            while j < cat.keywords.len()
                invariant
                    j <= cat.keywords.len(),
                    all == views(fields@),
                    pos <= end <= fields.len(),
                    values@.len() == j,
                    forall|k: int|
                        0 <= k < j ==> (#[trigger] flag_views(values@)[k]) == (
                            cat@.keywords[k].id,
                            among(all, pos as int, end as int, cat@.keywords[k].id),
                        ),
                decreases cat.keywords.len() - j,
            {
                let id = &cat.keywords[j].id;
                let mut found = false;
                let mut k: usize = pos;
                while k < end
                    invariant
                        pos <= k <= end,
                        end <= fields.len(),
                        all == views(fields@),
                        found == among(all, pos as int, k as int, id@),
                    decreases end - k,
                {
                    if fields[k] == *id {
                        found = true;
                        assert(all[k as int] == id@);
                    }
                    k += 1;
                }
                let ghost earlier = flag_views(values@);
                values.push((id.clone(), found));
                proof {
                    assert(id@ == cat@.keywords[j as int].id);
                    assert forall|k: int| 0 <= k <= j implies (#[trigger] flag_views(values@)[k])
                        == (
                        cat@.keywords[k].id,
                        among(all, pos as int, end as int, cat@.keywords[k].id),
                    ) by {
                        if k < j {
                            assert(flag_views(values@)[k] == earlier[k]);
                        }
                    }
                }
                j += 1;
            }
            let entry = UiCategory { name: cat.name.clone(), values };
            proof {
                assert(entry@.values =~= decoded_entry(cat@, all, pos as int).values);
                assert(cat@ == self@.categories[ci as int]);
            }
            categories.push(entry);
            if end > pos {
                pos = end;
            } else if pos < fields.len() && fields[pos] == self.empty {
                pos += 1;
            }
            ci += 1;
        }
        if pos < fields.len() {
            Err(FilenameParseError::UnexpectedTag(fields[pos].clone()))
        } else {
            let state = State { salt: fields[0].clone(), categories };
            proof {
                let decoded = decode_fields(self@, all);
                assert(decoded is Ok);
                assert(state@.categories =~= decoded->Ok_0.categories);
            }
            Ok(state)
        }
    }
}

} // verus!
