//! The encoding of a selection as a filename.

use vstd::prelude::*;
use crate::schema::{KeywordView, Schema, SchemaView};
use crate::selection::{State, StateView, flag_views, holds_selected, is_selected};
use crate::text::join;

verus! {

/// Why a selection does not encode.
#[derive(Clone, Debug, PartialEq, Eq)]
pub enum EncodeError {
    /// The category of this name has a number of selected keywords that its
    /// requirement does not allow.
    RequirementNotMet(String),
}

/// The ids among the first `n` keywords that the entry selects, in the
/// order of the keywords.
pub open spec fn selected_ids(
    keywords: Seq<KeywordView>,
    entry: Seq<(Seq<char>, bool)>,
    n: nat,
) -> Seq<Seq<char>>
    decreases n,
{
    if n == 0 {
        Seq::empty()
    } else {
        let before = selected_ids(keywords, entry, (n - 1) as nat);
        if is_selected(entry, keywords[n - 1].id) {
            before.push(keywords[n - 1].id)
        } else {
            before
        }
    }
}

/// The flags that a selection holds for category `ci`; none where the
/// selection has no such entry.
pub open spec fn entry_at(state: StateView, ci: int) -> Seq<(Seq<char>, bool)> {
    if 0 <= ci < state.categories.len() {
        state.categories[ci].values
    } else {
        Seq::empty()
    }
}

/// The selected ids of category `ci`.
pub open spec fn chosen(schema: SchemaView, state: StateView, ci: int) -> Seq<Seq<char>> {
    selected_ids(
        schema.categories[ci].keywords,
        entry_at(state, ci),
        schema.categories[ci].keywords.len(),
    )
}

/// The fields that category `ci` gives: its selected ids, or the
/// placeholder where it has none.
pub open spec fn group(schema: SchemaView, state: StateView, ci: int) -> Seq<Seq<char>> {
    if chosen(schema, state, ci).len() == 0 {
        seq![schema.empty]
    } else {
        chosen(schema, state, ci)
    }
}

/// The fields of the first `n` categories, one group after the other.
pub open spec fn groups_upto(schema: SchemaView, state: StateView, n: nat) -> Seq<Seq<char>>
    decreases n,
{
    if n == 0 {
        Seq::empty()
    } else {
        groups_upto(schema, state, (n - 1) as nat) + group(schema, state, n - 1)
    }
}

/// All fields of a filename: the salt, then the group of each category.
pub open spec fn fields_of(schema: SchemaView, state: StateView) -> Seq<Seq<char>> {
    seq![state.salt] + groups_upto(schema, state, schema.categories.len())
}

/// Category `ci` has as many selected keywords as its requirement allows.
pub open spec fn requirement_met(schema: SchemaView, state: StateView, ci: int) -> bool {
    schema.categories[ci].requirement.allows(chosen(schema, state, ci).len() as int)
}

/// The first category from `ci` on whose requirement is not met, or the
/// number of categories where there is none.
pub open spec fn first_unmet(schema: SchemaView, state: StateView, ci: int) -> int
    decreases schema.categories.len() - ci,
{
    if ci < 0 || ci >= schema.categories.len() {
        schema.categories.len() as int
    } else if !requirement_met(schema, state, ci) {
        ci
    } else {
        first_unmet(schema, state, ci + 1)
    }
}

/// The filename of a selection, or the name of the first category whose
/// requirement the selection does not meet.
pub open spec fn encode(schema: SchemaView, state: StateView) -> Result<Seq<char>, Seq<char>> {
    let k = first_unmet(schema, state, 0);
    if k < schema.categories.len() {
        Err(schema.categories[k].name)
    } else {
        Ok(join(fields_of(schema, state), schema.delim))
    }
}

/// Joining one more field puts the delimiter and the field at the end.
pub proof fn lemma_join_push(fields: Seq<Seq<char>>, d: Seq<char>, field: Seq<char>)
    requires
        fields.len() > 0,
    ensures
        join(fields.push(field), d) == join(fields, d) + d + field,
{
    assert(fields.push(field).drop_last() =~= fields);
}

/// The filename that stands for a selection under a schema.
///
/// The fields are the salt and, for each category in the schema's order, the
/// ids of its selected keywords in the order in which the category declares
/// them, or the schema's placeholder where none is selected. The categories
/// are checked in order, and the first whose number of selected keywords its
/// requirement does not allow is reported by name.
pub fn selection_to_filename(schema: &Schema, state: &State) -> (r: Result<String, EncodeError>)
    ensures
        match r {
            Ok(name) => encode(schema@, state@) == Ok::<Seq<char>, Seq<char>>(name@),
            Err(EncodeError::RequirementNotMet(category)) => encode(schema@, state@) == Err::<
                Seq<char>,
                Seq<char>,
            >(category@),
        },
{
    let mut out = state.salt.clone();
    let none: Vec<(String, bool)> = Vec::new();
    let mut ci: usize = 0;
    proof {
        assert(seq![state@.salt] + groups_upto(schema@, state@, 0) =~= seq![state@.salt]);
    }
    while ci < schema.categories.len()
        invariant
            ci <= schema.categories.len(),
            none@.len() == 0,
            first_unmet(schema@, state@, 0) == first_unmet(schema@, state@, ci as int),
            out@ == join(
                seq![state@.salt] + groups_upto(schema@, state@, ci as nat),
                schema@.delim,
            ),
        decreases schema.categories.len() - ci,
    {
        let cat = &schema.categories[ci];
        let entry = if ci < state.categories.len() {
            &state.categories[ci].values
        } else {
            &none
        };
        assert(flag_views(entry@) =~= entry_at(state@, ci as int));
        let ghost keywords = schema@.categories[ci as int].keywords;
        let ghost flags = entry_at(state@, ci as int);
        let ghost done = seq![state@.salt] + groups_upto(schema@, state@, ci as nat);
        let mut count: usize = 0;
        let mut j: usize = 0;
        proof {
            assert(done + selected_ids(keywords, flags, 0) =~= done);
        }
        while j < cat.keywords.len()
            invariant
                j <= cat.keywords.len(),
                cat@.keywords == keywords,
                flag_views(entry@) == flags,
                done.len() > 0,
                count == selected_ids(keywords, flags, j as nat).len(),
                count <= j,
                out@ == join(done + selected_ids(keywords, flags, j as nat), schema@.delim),
            decreases cat.keywords.len() - j,
        {
            let id = &cat.keywords[j].id;
            assert(id@ == keywords[j as int].id);
            if holds_selected(entry, id) {
                proof {
                    let before = selected_ids(keywords, flags, j as nat);
                    lemma_join_push(done + before, schema@.delim, id@);
                    assert((done + before).push(id@) =~= done + before.push(id@));
                }
                out.append(schema.delim.as_str());
                out.append(id.as_str());
                count += 1;
            }
            j += 1;
        }
        assert(selected_ids(keywords, flags, j as nat) == chosen(schema@, state@, ci as int));
        if count == 0 {
            proof {
                lemma_join_push(done, schema@.delim, schema@.empty);
                assert(done + chosen(schema@, state@, ci as int) =~= done);
                assert(done.push(schema@.empty) =~= done + group(schema@, state@, ci as int));
            }
            out.append(schema.delim.as_str());
            out.append(schema.empty.as_str());
        }
        proof {
            assert(done + group(schema@, state@, ci as int) =~= seq![state@.salt] + groups_upto(
                schema@,
                state@,
                (ci + 1) as nat,
            ));
        }
        if !cat.requirement.is_met(count) {
            return Err(EncodeError::RequirementNotMet(cat.name.clone()));
        }
        ci += 1;
    }
    Ok(out)
}

} // verus!
