//! Sequences of characters: searching, splitting on a delimiter and joining.

use vstd::prelude::*;

verus! {

/// `d` stands in `s` at position `i`.
pub open spec fn occurs_at(s: Seq<char>, d: Seq<char>, i: int) -> bool {
    0 <= i && i + d.len() <= s.len() && s.subrange(i, i + d.len()) == d
}

/// The first position at or after `from` at which `d` stands in `s`.
pub open spec fn find_from(s: Seq<char>, d: Seq<char>, from: int) -> Option<int>
    decreases s.len() - from + 1,
{
    if from < 0 || from + d.len() > s.len() {
        None
    } else if occurs_at(s, d, from) {
        Some(from)
    } else {
        find_from(s, d, from + 1)
    }
}

/// The fields of `s` between the occurrences of a non-empty `d`, found from
/// the left and never overlapping.
pub open spec fn split_on(s: Seq<char>, d: Seq<char>) -> Seq<Seq<char>>
    decreases s.len(),
{
    match find_from(s, d, 0) {
        Some(i) => if d.len() > 0 && 0 <= i && i + d.len() <= s.len() {
            seq![s.take(i)] + split_on(s.skip(i + d.len()), d)
        } else {
            seq![s]
        },
        None => seq![s],
    }
}

/// The fields that splitting `s` on `d` gives. An empty `d` stands before
/// every character and at the end, so it cuts `s` into an empty field, one
/// field for each character, and an empty field.
pub open spec fn split(s: Seq<char>, d: Seq<char>) -> Seq<Seq<char>> {
    if d.len() == 0 {
        seq![Seq::<char>::empty()] + Seq::new(s.len(), |i: int| seq![s[i]]) + seq![
            Seq::<char>::empty(),
        ]
    } else {
        split_on(s, d)
    }
}

/// The fields with `d` between each two neighbours.
pub open spec fn join(fields: Seq<Seq<char>>, d: Seq<char>) -> Seq<char>
    decreases fields.len(),
{
    if fields.len() == 0 {
        Seq::<char>::empty()
    } else if fields.len() == 1 {
        fields[0]
    } else {
        join(fields.drop_last(), d) + d + fields.last()
    }
}

/// `d` stands somewhere in `s`.
pub open spec fn occurs_in(s: Seq<char>, d: Seq<char>) -> bool {
    exists|k: int| occurs_at(s, d, k)
}

/// A field that can be told from the delimiter behind it: in the field
/// followed by `d`, `d` stands nowhere before the field's end. For a `d` of
/// one character this says that the field does not hold that character.
pub open spec fn separable(field: Seq<char>, d: Seq<char>) -> bool {
    forall|k: int| 0 <= k < field.len() ==> !occurs_at(field + d, d, k)
}

/// The views of a vector of strings.
pub open spec fn views(v: Seq<String>) -> Seq<Seq<char>> {
    Seq::new(v.len(), |i: int| v[i]@)
}

/// The characters of a string, one by one.
pub fn chars_of(s: &str) -> (v: Vec<char>)
    ensures
        v@ == s@,
{
    let mut v: Vec<char> = Vec::new();
    for c in it: s.chars()
        invariant
            it.seq() == s@,
            v@ == s@.take(it.index() as int),
    {
        v.push(c);
        assert(s@.take(it.index() + 1) =~= s@.take(it.index() as int).push(c));
    }
    assert(s@.take(s@.len() as int) =~= s@);
    v
}

/// Whether `d` stands in `s` at position `i`.
pub fn matches_at(s: &Vec<char>, d: &Vec<char>, i: usize) -> (r: bool)
    ensures
        r == occurs_at(s@, d@, i as int),
{
    if d.len() > s.len() || i > s.len() - d.len() {
        return false;
    }
    let mut k: usize = 0;
    while k < d.len()
        invariant
            i + d.len() <= s.len(),
            k <= d.len(),
            forall|j: int| 0 <= j < k ==> s@[i + j] == d@[j],
        decreases d.len() - k,
    {
        if s[i + k] != d[k] {
            assert(s@.subrange(i as int, i + d.len())[k as int] != d@[k as int]);
            return false;
        }
        k += 1;
    }
    assert(s@.subrange(i as int, i + d.len()) =~= d@);
    true
}

/// An occurrence in `s` from position `start` on is an occurrence in the rest
/// of `s` after `start`.
pub proof fn lemma_occurs_at_skip(s: Seq<char>, d: Seq<char>, start: int, i: int)
    requires
        0 <= start <= i,
        start <= s.len(),
    ensures
        occurs_at(s, d, i) == occurs_at(s.skip(start), d, i - start),
{
    if i + d.len() <= s.len() {
        assert(s.subrange(i, i + d.len()) =~= s.skip(start).subrange(
            i - start,
            i - start + d.len(),
        ));
    }
}

/// Where `d` does not stand at `k`, the search goes on behind `k`.
pub proof fn lemma_find_from_step(s: Seq<char>, d: Seq<char>, k: int)
    requires
        0 <= k,
        !occurs_at(s, d, k),
    ensures
        find_from(s, d, k) == find_from(s, d, k + 1),
{
}

/// The search finds the first occurrence.
pub proof fn lemma_find_from_first(s: Seq<char>, d: Seq<char>, from: int, at: int)
    requires
        0 <= from <= at,
        occurs_at(s, d, at),
        forall|k: int| from <= k < at ==> !occurs_at(s, d, k),
    ensures
        find_from(s, d, from) == Some(at),
    decreases at - from,
{
    if from < at {
        lemma_find_from_first(s, d, from + 1, at);
    }
}

/// The search finds nothing where there is no occurrence.
pub proof fn lemma_find_from_none(s: Seq<char>, d: Seq<char>, from: int)
    requires
        0 <= from,
        forall|k: int| from <= k ==> !occurs_at(s, d, k),
    ensures
        find_from(s, d, from) is None,
    decreases s.len() - from + 1,
{
    if from + d.len() <= s.len() {
        lemma_find_from_none(s, d, from + 1);
    }
}

/// A separable field does not hold the delimiter.
pub proof fn lemma_separable_free(field: Seq<char>, d: Seq<char>)
    requires
        d.len() > 0,
        separable(field, d),
    ensures
        !occurs_in(field, d),
{
    assert forall|k: int| !occurs_at(field, d, k) by {
        if occurs_at(field, d, k) {
            assert((field + d).subrange(k, k + d.len()) =~= field.subrange(k, k + d.len()));
            assert(occurs_at(field + d, d, k));
        }
    }
}

/// For a delimiter of one character, a field is separable exactly where it
/// does not hold that character.
pub proof fn lemma_separable_single(field: Seq<char>, d: Seq<char>)
    requires
        d.len() == 1,
    ensures
        separable(field, d) == !occurs_in(field, d),
{
    if !separable(field, d) {
        let k = choose|k: int| 0 <= k < field.len() && occurs_at(field + d, d, k);
        assert((field + d).subrange(k, k + 1) =~= field.subrange(k, k + 1));
        assert(occurs_at(field, d, k));
    } else {
        lemma_separable_free(field, d);
    }
}

/// Joining puts the first field, the delimiter and the rest in a row.
pub proof fn lemma_join_first(fields: Seq<Seq<char>>, d: Seq<char>)
    requires
        fields.len() >= 2,
    ensures
        join(fields, d) == fields[0] + d + join(fields.skip(1), d),
    decreases fields.len(),
{
    if fields.len() == 2 {
        assert(fields.drop_last().len() == 1);
        assert(fields.skip(1).len() == 1);
        assert(join(fields.drop_last(), d) == fields[0]);
        assert(join(fields.skip(1), d) == fields[1]);
    } else {
        lemma_join_first(fields.drop_last(), d);
        assert(fields.drop_last().skip(1) =~= fields.skip(1).drop_last());
        assert(fields.drop_last()[0] == fields[0]);
        assert(fields.skip(1).last() == fields.last());
        assert(join(fields, d) =~= fields[0] + d + join(fields.skip(1), d));
    }
}

/// Splitting what was joined gives the fields back, where the delimiter is
/// not empty and every field is separable from it.
pub proof fn lemma_split_join(fields: Seq<Seq<char>>, d: Seq<char>)
    requires
        d.len() > 0,
        fields.len() > 0,
        forall|i: int| 0 <= i < fields.len() ==> separable(#[trigger] fields[i], d),
    ensures
        split(join(fields, d), d) == fields,
    decreases fields.len(),
{
    let first = fields[0];
    if fields.len() == 1 {
        lemma_separable_free(first, d);
        lemma_find_from_none(first, d, 0);
        assert(split_on(first, d) =~= fields);
    } else {
        let rest = fields.skip(1);
        let s = join(fields, d);
        lemma_join_first(fields, d);
        assert(s == first + d + join(rest, d));
        let at = first.len() as int;
        assert(s.subrange(at, at + d.len()) =~= d);
        assert(separable(first, d));
        assert forall|k: int| 0 <= k < at implies !occurs_at(s, d, k) by {
            assert(!occurs_at(first + d, d, k));
            assert(s.subrange(k, k + d.len()) =~= (first + d).subrange(k, k + d.len()));
        }
        lemma_find_from_first(s, d, 0, at);
        assert(s.take(at) =~= first);
        assert(s.skip(at + d.len()) =~= join(rest, d));
        assert forall|i: int| 0 <= i < rest.len() implies separable(#[trigger] rest[i], d) by {
            assert(rest[i] == fields[i + 1]);
        }
        lemma_split_join(rest, d);
        assert(seq![first] + rest =~= fields);
    }
}

/// The fields of `input` between the occurrences of `delim`.
pub fn split_fields(input: &str, delim: &str) -> (fields: Vec<String>)
    ensures
        views(fields@) == split(input@, delim@),
{
    let s = chars_of(input);
    let d = chars_of(delim);
    let n = s.len();
    let mut fields: Vec<String> = Vec::new();
    if d.len() == 0 {
        fields.push(String::new());
        let mut k: usize = 0;
        while k < n
            invariant
                n == s@.len(),
                s@ == input@,
                k <= n,
                fields@.len() == k + 1,
                fields@[0]@ == Seq::<char>::empty(),
                forall|j: int| 1 <= j <= k ==> (#[trigger] fields@[j])@ == seq![s@[j - 1]],
            decreases n - k,
        {
            let piece = input.substring_char(k, k + 1).to_owned();
            assert(piece@ =~= seq![s@[k as int]]);
            fields.push(piece);
            k += 1;
        }
        fields.push(String::new());
        proof {
            let whole = seq![Seq::<char>::empty()] + Seq::new(s@.len(), |i: int| seq![s@[i]])
                + seq![Seq::<char>::empty()];
            assert(delim@.len() == 0);
            assert(views(fields@).len() == whole.len());
            assert forall|j: int| 0 <= j < whole.len() implies views(fields@)[j] == whole[j] by {
                if 1 <= j <= n {
                    assert(fields@[j]@ == seq![s@[j - 1]]);
                }
            }
            assert(views(fields@) =~= whole);
        }
        return fields;
    }
    let mut start: usize = 0;
    let mut i: usize = 0;
    assert(s@.skip(0) =~= s@);
    assert(views(fields@) + split_on(s@.skip(0), d@) =~= split_on(s@, d@));
    while i < n
        invariant
            n == s@.len(),
            s@ == input@,
            d@.len() > 0,
            start <= i,
            start <= n,
            split_on(s@, d@) == views(fields@) + split_on(s@.skip(start as int), d@),
            find_from(s@.skip(start as int), d@, 0) == find_from(
                s@.skip(start as int),
                d@,
                i - start,
            ),
        decreases n + d.len() - i,
    {
        let ghost rest = s@.skip(start as int);
        proof {
            lemma_occurs_at_skip(s@, d@, start as int, i as int);
        }
        if matches_at(&s, &d, i) {
            let piece = input.substring_char(start, i).to_owned();
            let ghost before = views(fields@);
            fields.push(piece);
            proof {
                assert(piece@ =~= rest.take(i - start));
                assert(rest.skip(i - start + d@.len()) =~= s@.skip(i + d@.len()));
                assert(views(fields@) =~= before + seq![rest.take(i - start)]);
                assert(s@.skip(i + d@.len()).skip(0) =~= s@.skip(i + d@.len()));
            }
            i = i + d.len();
            start = i;
        } else {
            proof {
                lemma_find_from_step(rest, d@, i - start);
            }
            i += 1;
        }
    }
    let piece = input.substring_char(start, n).to_owned();
    proof {
        let rest = s@.skip(start as int);
        assert(piece@ =~= rest);
        assert(find_from(rest, d@, i - start) is None);
        assert(split_on(rest, d@) == seq![rest]);
        assert(views(fields@.push(piece)) =~= views(fields@) + seq![rest]);
    }
    fields.push(piece);
    fields
}

} // verus!
