//! What holds between encoding and decoding.

use vstd::prelude::*;
use crate::filename::{
    chosen, encode, entry_at, fields_of, first_unmet, group, groups_upto, requirement_met,
    selected_ids,
};
use crate::schema::{
    CategoryView, KeywordView, Schema, SchemaView, among, decode, decode_fields,
    decoded_entry, lemma_run_of_ids_extend, position, run_of_ids, taken_len,
};
use crate::selection::{State, StateView, is_selected};
use crate::text::{lemma_split_join, separable, split};

verus! {

impl StateView {
    /// The selection is one of the schema: it has the schema's categories
    /// by name and in order, and each holds the ids of its keywords in order.
    pub open spec fn fits(self, schema: SchemaView) -> bool {
        &&& self.categories.len() == schema.categories.len()
        &&& forall|ci: int|
            0 <= ci < self.categories.len() ==> {
                &&& (#[trigger] self.categories[ci]).name == schema.categories[ci].name
                &&& self.categories[ci].values.len() == schema.categories[ci].keywords.len()
            }
        &&& forall|ci: int, j: int| #[trigger]
            schema.has_keyword(ci, j) ==> self.categories[ci].values[j].0 == schema.id(ci, j)
    }

    /// Every category has as many selected keywords as it requires.
    pub open spec fn meets(self, schema: SchemaView) -> bool {
        forall|ci: int|
            0 <= ci < schema.categories.len() ==> #[trigger] requirement_met(schema, self, ci)
    }
}

impl State {
    /// Whether the selection is one of the schema.
    #[verifier::loop_isolation(false)]
    pub fn fits(&self, schema: &Schema) -> (r: bool)
        ensures
            r == self@.fits(schema@),
    {
        if self.categories.len() != schema.categories.len() {
            return false;
        }
        let mut ci: usize = 0;
        while ci < schema.categories.len()
            invariant
                ci <= schema.categories.len(),
                forall|c: int|
                    0 <= c < ci ==> {
                        &&& (#[trigger] self@.categories[c]).name == schema@.categories[c].name
                        &&& self@.categories[c].values.len() == schema@.categories[c].keywords.len()
                    },
                forall|c: int, j: int| #[trigger]
                    schema@.has_keyword(c, j) && c < ci ==> self@.categories[c].values[j].0
                        == schema@.id(c, j),
            decreases schema.categories.len() - ci,
        {
            let entry = &self.categories[ci];
            let cat = &schema.categories[ci];
            assert(self@.categories[ci as int] == entry@);
            assert(schema@.categories[ci as int] == cat@);
            if entry.name != cat.name || entry.values.len() != cat.keywords.len() {
                return false;
            }
            let mut j: usize = 0;
            while j < cat.keywords.len()
                invariant
                    j <= cat.keywords.len(),
                    forall|i: int|
                        0 <= i < j ==> (#[trigger] entry@.values[i]).0 == schema@.id(ci as int, i),
                decreases cat.keywords.len() - j,
            {
                assert(schema@.has_keyword(ci as int, j as int));
                assert(entry@.values[j as int].0 == entry.values@[j as int].0@);
                assert(schema@.id(ci as int, j as int) == cat.keywords@[j as int].id@);
                if entry.values[j].0 != cat.keywords[j].id {
                    return false;
                }
                j += 1;
            }
            ci += 1;
        }
        true
    }
}

/// An id is among the selected ids of the first `n` keywords exactly where
/// it is selected and one of those keywords has it.
pub proof fn lemma_selected_ids_member(
    keywords: Seq<KeywordView>,
    entry: Seq<(Seq<char>, bool)>,
    n: nat,
    x: Seq<char>,
)
    requires
        n <= keywords.len(),
    ensures
        selected_ids(keywords, entry, n).contains(x) <==> (is_selected(entry, x) && exists|j: int|
            0 <= j < n && (#[trigger] keywords[j]).id == x),
    decreases n,
{
    if n > 0 {
        let before = selected_ids(keywords, entry, (n - 1) as nat);
        let last = keywords[n - 1].id;
        lemma_selected_ids_member(keywords, entry, (n - 1) as nat, x);
        if is_selected(entry, last) {
            let now = before.push(last);
            if now.contains(x) {
                let w = choose|k: int| 0 <= k < now.len() && now[k] == x;
                if w < before.len() {
                    assert(before[w] == x);
                } else {
                    assert(keywords[n - 1].id == x);
                }
            }
            if before.contains(x) {
                let w = choose|k: int| 0 <= k < before.len() && before[k] == x;
                assert(now[w] == x);
            }
            if x == last {
                assert(now[before.len() as int] == x);
            }
        }
        if exists|j: int| 0 <= j < n && (#[trigger] keywords[j]).id == x {
            let j = choose|j: int| 0 <= j < n && (#[trigger] keywords[j]).id == x;
            if j < n - 1 {
                assert(keywords[j].id == x);
            }
        }
    }
}

/// The group of a category lies in the fields of any longer run of
/// categories, behind the groups of the categories before it.
pub proof fn lemma_group_slice(schema: SchemaView, state: StateView, ci: nat, m: nat)
    requires
        ci < m,
    ensures
        groups_upto(schema, state, ci).len() + group(schema, state, ci as int).len()
            == groups_upto(schema, state, ci + 1).len(),
        groups_upto(schema, state, ci + 1).len() <= groups_upto(schema, state, m).len(),
        groups_upto(schema, state, m).subrange(
            groups_upto(schema, state, ci).len() as int,
            groups_upto(schema, state, ci + 1).len() as int,
        ) == group(schema, state, ci as int),
    decreases m,
{
    let lo = groups_upto(schema, state, ci).len() as int;
    let hi = groups_upto(schema, state, ci + 1).len() as int;
    if m == ci + 1 {
        assert(groups_upto(schema, state, m).subrange(lo, hi) =~= group(schema, state, ci as int));
    } else {
        lemma_group_slice(schema, state, ci, (m - 1) as nat);
        let shorter = groups_upto(schema, state, (m - 1) as nat);
        assert(groups_upto(schema, state, m).subrange(lo, hi) =~= shorter.subrange(lo, hi));
    }
}

/// Every field of the groups is the placeholder or the id of a keyword.
pub proof fn lemma_groups_separable(schema: SchemaView, state: StateView, n: nat)
    requires
        schema.unambiguous(),
        n <= schema.categories.len(),
    ensures
        forall|i: int|
            0 <= i < groups_upto(schema, state, n).len() ==> separable(
                #[trigger] groups_upto(schema, state, n)[i],
                schema.delim,
            ),
    decreases n,
{
    if n > 0 {
        lemma_groups_separable(schema, state, (n - 1) as nat);
        let before = groups_upto(schema, state, (n - 1) as nat);
        let ci = (n - 1) as int;
        let g = group(schema, state, ci);
        let keywords = schema.categories[ci].keywords;
        assert forall|i: int| 0 <= i < (before + g).len() implies separable(
            #[trigger] (before + g)[i],
            schema.delim,
        ) by {
            if i >= before.len() {
                let x = g[i - before.len()];
                if chosen(schema, state, ci).len() > 0 {
                    assert(chosen(schema, state, ci).contains(x));
                    lemma_selected_ids_member(keywords, entry_at(state, ci), keywords.len(), x);
                    let j = choose|j: int| 0 <= j < keywords.len() && (#[trigger] keywords[j]).id == x;
                    assert(schema.has_keyword(ci, j));
                }
            }
        }
    }
}

/// Where all requirements are met, no category is reported.
pub proof fn lemma_all_met(schema: SchemaView, state: StateView, ci: int)
    requires
        state.meets(schema),
        0 <= ci,
    ensures
        first_unmet(schema, state, ci) == schema.categories.len(),
    decreases schema.categories.len() - ci,
{
    if ci < schema.categories.len() {
        assert(requirement_met(schema, state, ci));
        lemma_all_met(schema, state, ci + 1);
    }
}

/// In the fields of a selection, a category takes its own group and reads
/// its own entry from it.
pub proof fn lemma_category_reads_back(schema: SchemaView, state: StateView, ci: int)
    requires
        schema.well_formed(),
        schema.unambiguous(),
        state.fits(schema),
        0 <= ci < schema.categories.len(),
    ensures
        ({
            let fields = fields_of(schema, state);
            let from: int = 1 + groups_upto(schema, state, ci as nat).len() as int;
            &&& taken_len(schema, schema.categories[ci], fields, from) == group(
                schema,
                state,
                ci,
            ).len()
            &&& decoded_entry(schema.categories[ci], fields, from) == state.categories[ci]
        }),
{
    let n = schema.categories.len();
    let fields = fields_of(schema, state);
    let cat = schema.categories[ci];
    let keywords = cat.keywords;
    let entry = entry_at(state, ci);
    let picked = chosen(schema, state, ci);
    let g = group(schema, state, ci);
    let from: int = 1 + groups_upto(schema, state, ci as nat).len() as int;
    let to: int = from + g.len();
    lemma_group_slice(schema, state, ci as nat, n);
    assert forall|k: int| from <= k < to implies fields[k] == g[k - from] by {
        assert(groups_upto(schema, state, n).subrange(from - 1, to - 1)[k - from] == g[k - from]);
    }
    // which ids the category has
    assert forall|x: Seq<char>| picked.contains(x) implies cat.has_id(x) by {
        lemma_selected_ids_member(keywords, entry, keywords.len(), x);
    }
    assert(!cat.has_id(schema.empty)) by {
        if cat.has_id(schema.empty) {
            let j = choose|j: int| 0 <= j < keywords.len() && (#[trigger] keywords[j]).id == schema.empty;
            assert(schema.has_keyword(ci, j));
        }
    }
    // the field behind the group is none of the category's ids
    assert(to == fields.len() || !cat.has_id(fields[to])) by {
        if ci + 1 < n {
            lemma_group_slice(schema, state, (ci + 1) as nat, n);
            let next = group(schema, state, ci + 1);
            assert(groups_upto(schema, state, n).subrange(
                to - 1,
                to - 1 + next.len(),
            )[0] == next[0]);
            assert(fields[to] == next[0]);
            let later = schema.categories[ci + 1].keywords;
            if chosen(schema, state, ci + 1).len() > 0 {
                let x = next[0];
                assert(chosen(schema, state, ci + 1).contains(x));
                lemma_selected_ids_member(later, entry_at(state, ci + 1), later.len(), x);
                let k = choose|k: int| 0 <= k < later.len() && (#[trigger] later[k]).id == x;
                assert(schema.has_keyword(ci + 1, k));
                if cat.has_id(x) {
                    let j = choose|j: int| 0 <= j < keywords.len() && (#[trigger] keywords[j]).id == x;
                    assert(schema.has_keyword(ci, j));
                    assert(schema.id(ci, j) != schema.id(ci + 1, k));
                }
            }
        } else {
            assert(groups_upto(schema, state, n).len() == to - 1);
        }
    }
    let run = run_of_ids(cat, fields, from);
    if picked.len() > 0 {
        assert forall|k: int| from <= k < to implies cat.has_id(#[trigger] fields[k]) by {
            assert(picked.contains(g[k - from]));
        }
        lemma_run_of_ids_extend(cat, fields, from, to);
        assert(run == picked.len());
    } else {
        assert(fields[from] == schema.empty);
        assert(run == 0);
    }
    // the flags
    let decoded = decoded_entry(cat, fields, from);
    let given = state.categories[ci];
    assert(decoded.values.len() == given.values.len());
    assert forall|j: int| 0 <= j < keywords.len() implies decoded.values[j] == given.values[j] by {
        let x = keywords[j].id;
        assert(schema.has_keyword(ci, j));
        assert(given.values[j].0 == x);
        lemma_selected_ids_member(keywords, entry, keywords.len(), x);
        if among(fields, from, from + run, x) {
            let k = choose|k: int| from <= k < from + run && #[trigger] fields[k] == x;
            assert(picked.contains(g[k - from]));
            let w = choose|w: int| 0 <= w < entry.len() && #[trigger] entry[w] == (x, true);
            assert(schema.has_keyword(ci, w));
            assert(schema.id(ci, w) == schema.id(ci, j));
            assert(w == j);
        }
        if given.values[j].1 {
            assert(entry[j] == (x, true));
            assert(is_selected(entry, x));
            assert(picked.contains(x));
            let w = choose|w: int| 0 <= w < picked.len() && picked[w] == x;
            assert(fields[from + w] == x);
            assert(among(fields, from, from + run, x));
        }
    }
    assert(decoded.values =~= given.values);
}

/// In the fields of a selection, each category starts behind the groups of
/// the categories before it.
pub proof fn lemma_positions(schema: SchemaView, state: StateView, ci: nat)
    requires
        schema.well_formed(),
        schema.unambiguous(),
        state.fits(schema),
        ci <= schema.categories.len(),
    ensures
        position(schema, fields_of(schema, state), ci) == 1 + groups_upto(schema, state, ci).len(),
    decreases ci,
{
    if ci > 0 {
        lemma_positions(schema, state, (ci - 1) as nat);
        lemma_category_reads_back(schema, state, ci - 1);
    }
}

/// A category's run of ids depends on its keywords alone.
pub proof fn lemma_run_same_keywords(
    a: CategoryView,
    b: CategoryView,
    fields: Seq<Seq<char>>,
    from: int,
)
    requires
        a.keywords == b.keywords,
    ensures
        run_of_ids(a, fields, from) == run_of_ids(b, fields, from),
    decreases fields.len() - from,
{
    if 0 <= from < fields.len() {
        assert(a.has_id(fields[from]) == b.has_id(fields[from]));
        if a.has_id(fields[from]) {
            lemma_run_same_keywords(a, b, fields, from + 1);
        }
    }
}

/// Two schemas are the same but for the requirements of their categories.
pub open spec fn same_but_requirements(a: SchemaView, b: SchemaView) -> bool {
    &&& a.delim == b.delim
    &&& a.empty == b.empty
    &&& a.categories.len() == b.categories.len()
    &&& forall|ci: int|
        0 <= ci < a.categories.len() ==> {
            &&& (#[trigger] a.categories[ci]).name == b.categories[ci].name
            &&& a.categories[ci].keywords == b.categories[ci].keywords
        }
}

/// Categories with the same keywords start at the same fields.
pub proof fn lemma_position_same_keywords(
    a: SchemaView,
    b: SchemaView,
    fields: Seq<Seq<char>>,
    ci: nat,
)
    requires
        same_but_requirements(a, b),
        ci <= a.categories.len(),
    ensures
        position(a, fields, ci) == position(b, fields, ci),
    decreases ci,
{
    if ci > 0 {
        lemma_position_same_keywords(a, b, fields, (ci - 1) as nat);
        assert(a.categories[ci - 1].keywords == b.categories[ci - 1].keywords);
        lemma_run_same_keywords(
            a.categories[ci - 1],
            b.categories[ci - 1],
            fields,
            position(a, fields, (ci - 1) as nat),
        );
    }
}

/// Decoding does not look at the requirements.
///
/// Two schemas that differ in nothing but the requirements of their
/// categories decode every filename alike: whether a filename decodes, and
/// to what, does not depend on how many keywords a category requires.
pub proof fn decode_ignores_requirements(a: SchemaView, b: SchemaView, input: Seq<char>)
    requires
        same_but_requirements(a, b),
    ensures
        decode(a, input) == decode(b, input),
{
    let fields = split(input, a.delim);
    let n = a.categories.len();
    lemma_position_same_keywords(a, b, fields, n);
    let da = decode_fields(a, fields);
    let db = decode_fields(b, fields);
    if da is Ok {
        assert forall|ci: int| 0 <= ci < n implies da->Ok_0.categories[ci]
            == db->Ok_0.categories[ci] by {
            lemma_position_same_keywords(a, b, fields, ci as nat);
            assert(a.categories[ci].keywords == b.categories[ci].keywords);
            lemma_run_same_keywords(
                a.categories[ci],
                b.categories[ci],
                fields,
                position(a, fields, ci as nat),
            );
            assert(decoded_entry(a.categories[ci], fields, position(a, fields, ci as nat)).values
                =~= decoded_entry(
                b.categories[ci],
                fields,
                position(b, fields, ci as nat),
            ).values);
        }
        assert(da->Ok_0.categories =~= db->Ok_0.categories);
    }
}

/// From `ci` on, the first category that is reported is one whose
/// requirement is not met, and there is one exactly where some requirement
/// from `ci` on is not met.
pub proof fn lemma_first_unmet(schema: SchemaView, state: StateView, ci: int)
    requires
        0 <= ci <= schema.categories.len(),
    ensures
        ci <= first_unmet(schema, state, ci) <= schema.categories.len(),
        first_unmet(schema, state, ci) < schema.categories.len() ==> !requirement_met(
            schema,
            state,
            first_unmet(schema, state, ci),
        ),
        forall|k: int|
            ci <= k < first_unmet(schema, state, ci) ==> #[trigger] requirement_met(
                schema,
                state,
                k,
            ),
    decreases schema.categories.len() - ci,
{
    if ci < schema.categories.len() && requirement_met(schema, state, ci) {
        lemma_first_unmet(schema, state, ci + 1);
    }
}

/// Encoding enforces the requirements.
///
/// A selection encodes exactly where each category has as many selected
/// keywords as its requirement allows. Where it does not encode, the
/// category that is reported is the first whose requirement is not met.
pub proof fn encode_enforces_requirements(schema: SchemaView, state: StateView)
    ensures
        encode(schema, state) is Ok <==> state.meets(schema),
        encode(schema, state) matches Err(name) ==> exists|ci: int|
            0 <= ci < schema.categories.len() && #[trigger] schema.categories[ci].name == name
                && !requirement_met(schema, state, ci) && forall|k: int|
                0 <= k < ci ==> #[trigger] requirement_met(schema, state, k),
{
    lemma_first_unmet(schema, state, 0);
    let k = first_unmet(schema, state, 0);
    if k < schema.categories.len() {
        assert(schema.categories[k].name == encode(schema, state)->Err_0);
    }
}

/// Decoding gives back what was encoded.
///
/// For a schema that is well formed and unambiguous, and a selection of
/// that schema whose salt is separable from the delimiter and whose
/// categories all meet their requirements, encoding succeeds and decoding
/// the filename gives the selection back: the salt, each category by name,
/// and each keyword with its flag, set or not.
pub proof fn round_trip(schema: SchemaView, state: StateView)
    requires
        schema.well_formed(),
        schema.unambiguous(),
        state.fits(schema),
        state.meets(schema),
        separable(state.salt, schema.delim),
    ensures
        encode(schema, state) is Ok,
        decode(schema, encode(schema, state)->Ok_0) == Ok::<StateView, Seq<char>>(state),
{
    let n = schema.categories.len();
    let fields = fields_of(schema, state);
    lemma_all_met(schema, state, 0);
    lemma_groups_separable(schema, state, n);
    assert forall|i: int| 0 <= i < fields.len() implies separable(
        #[trigger] fields[i],
        schema.delim,
    ) by {
        if i > 0 {
            assert(fields[i] == groups_upto(schema, state, n)[i - 1]);
        }
    }
    lemma_split_join(fields, schema.delim);
    lemma_positions(schema, state, n);
    let decoded = decode_fields(schema, fields);
    assert(decoded is Ok);
    assert forall|ci: int| 0 <= ci < n implies decoded->Ok_0.categories[ci]
        == state.categories[ci] by {
        lemma_positions(schema, state, ci as nat);
        lemma_category_reads_back(schema, state, ci);
    }
    assert(decoded->Ok_0.categories =~= state.categories);
}

} // verus!
