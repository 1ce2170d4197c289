//! The smallest pieces of the configuration language, read with `nom`.

use vstd::prelude::*;

verus! {

/// The kinds of characters that the language tells apart.
pub enum Class {
    /// An ASCII letter.
    Letter,
    /// A space or a tab.
    Blank,
    /// An ASCII digit.
    Digit,
    /// Any character but this one.
    Other(char),
    /// This character.
    Only(char),
    /// A space, a tab or a newline.
    LineSpace,
    /// An ASCII letter or a hyphen.
    Word,
}

/// Whether a character is of a class.
pub open spec fn in_class(c: char, class: Class) -> bool {
    match class {
        Class::Letter => ('a' <= c && c <= 'z') || ('A' <= c && c <= 'Z'),
        Class::Blank => c == ' ' || c == '\t',
        Class::Digit => '0' <= c && c <= '9',
        Class::Other(stop) => c != stop,
        Class::Only(it) => c == it,
        Class::LineSpace => c == ' ' || c == '\t' || c == '\n',
        Class::Word => ('a' <= c && c <= 'z') || ('A' <= c && c <= 'Z') || c == '-',
    }
}

/// How many characters at the start of `s` are of the class, one after the
/// other.
pub open spec fn run(s: Seq<char>, class: Class) -> nat
    decreases s.len(),
{
    if s.len() > 0 && in_class(s[0], class) {
        1 + run(s.skip(1), class)
    } else {
        0
    }
}

/// A run is no longer than the sequence.
pub proof fn lemma_run_bound(s: Seq<char>, class: Class)
    ensures
        run(s, class) <= s.len(),
    decreases s.len(),
{
    if s.len() > 0 && in_class(s[0], class) {
        lemma_run_bound(s.skip(1), class);
    }
}

/// A run holds only characters of its class, and stops at the end or at a
/// character of another class.
pub proof fn lemma_run_holds(s: Seq<char>, class: Class)
    ensures
        forall|k: int| 0 <= k < run(s, class) ==> in_class(#[trigger] s[k], class),
        run(s, class) < s.len() ==> !in_class(s[run(s, class) as int], class),
    decreases s.len(),
{
    if s.len() > 0 && in_class(s[0], class) {
        lemma_run_holds(s.skip(1), class);
        lemma_run_bound(s.skip(1), class);
        assert forall|k: int| 0 <= k < run(s, class) implies in_class(#[trigger] s[k], class) by {
            if k > 0 {
                assert(s[k] == s.skip(1)[k - 1]);
            }
        }
        if run(s, class) < s.len() {
            assert(s[run(s, class) as int] == s.skip(1)[run(s.skip(1), class) as int]);
        }
    }
}

/// Characters of the class, followed by the end or by a character of
/// another class, are the run.
pub proof fn lemma_run_is(s: Seq<char>, class: Class, n: nat)
    requires
        n <= s.len(),
        forall|k: int| 0 <= k < n ==> in_class(#[trigger] s[k], class),
        n < s.len() ==> !in_class(s[n as int], class),
    ensures
        run(s, class) == n,
    decreases n,
{
    if n > 0 {
        assert(in_class(s[0], class));
        assert forall|k: int| 0 <= k < n - 1 implies in_class(
            #[trigger] s.skip(1)[k],
            class,
        ) by {
            assert(s.skip(1)[k] == s[k + 1]);
        }
        lemma_run_is(s.skip(1), class, (n - 1) as nat);
    }
}

/// The value of a digit.
pub open spec fn digit_value(c: char) -> nat {
    (c as u32 - '0' as u32) as nat
}

/// The number that a row of digits writes in base ten.
pub open spec fn decimal(digits: Seq<char>) -> nat
    decreases digits.len(),
{
    if digits.len() == 0 {
        0
    } else {
        decimal(digits.drop_last()) * 10 + digit_value(digits.last())
    }
}

/// `nom::character::complete::alpha1`: the ASCII letters at the start of
/// the input, as many as there are, and what follows them; nothing where
/// the input does not start with a letter.
#[verifier::external_body]
pub(crate) fn letters1<'a>(input: &'a str) -> (r: Option<(&'a str, &'a str)>)
    ensures
        match r {
            Some((rest, word)) => {
                &&& run(input@, Class::Letter) > 0
                &&& word@ == input@.take(run(input@, Class::Letter) as int)
                &&& rest@ == input@.skip(run(input@, Class::Letter) as int)
            },
            None => run(input@, Class::Letter) == 0,
        },
{
    match nom::character::complete::alpha1::<&str, nom::error::Error<&str>>(input) {
        Ok((rest, word)) => Some((rest, word)),
        Err(_) => None,
    }
}

/// `nom::character::complete::space0`: what follows the spaces and tabs at
/// the start of the input.
#[verifier::external_body]
pub(crate) fn blanks0<'a>(input: &'a str) -> (rest: &'a str)
    ensures
        rest@ == input@.skip(run(input@, Class::Blank) as int),
{
    match nom::character::complete::space0::<&str, nom::error::Error<&str>>(input) {
        Ok((rest, _)) => rest,
        Err(_) => input,
    }
}

/// `nom::character::complete::space1`: what follows the spaces and tabs at
/// the start of the input; nothing where the input starts with neither.
#[verifier::external_body]
pub(crate) fn blanks1<'a>(input: &'a str) -> (r: Option<&'a str>)
    ensures
        match r {
            Some(rest) => run(input@, Class::Blank) > 0 && rest@ == input@.skip(
                run(input@, Class::Blank) as int,
            ),
            None => run(input@, Class::Blank) == 0,
        },
{
    match nom::character::complete::space1::<&str, nom::error::Error<&str>>(input) {
        Ok((rest, _)) => Some(rest),
        Err(_) => None,
    }
}

/// `nom::character::complete::u8`: the number that the digits at the start
/// of the input write, and what follows them; nothing where the input
/// starts with no digit or the number is above 255.
#[verifier::external_body]
pub(crate) fn byte_number<'a>(input: &'a str) -> (r: Option<(&'a str, u8)>)
    ensures
        match r {
            Some((rest, value)) => {
                &&& run(input@, Class::Digit) > 0
                &&& value == decimal(input@.take(run(input@, Class::Digit) as int))
                &&& rest@ == input@.skip(run(input@, Class::Digit) as int)
            },
            None => run(input@, Class::Digit) == 0 || decimal(
                input@.take(run(input@, Class::Digit) as int),
            ) > 255,
        },
{
    match nom::character::complete::u8::<&str, nom::error::Error<&str>>(input) {
        Ok((rest, value)) => Some((rest, value)),
        Err(_) => None,
    }
}

/// `nom::character::complete::char`: what follows the first character of
/// the input, where that character is `c`.
#[verifier::external_body]
pub(crate) fn one_char<'a>(input: &'a str, c: char) -> (r: Option<&'a str>)
    ensures
        match r {
            Some(rest) => input@.len() > 0 && input@[0] == c && rest@ == input@.skip(1),
            None => input@.len() == 0 || input@[0] != c,
        },
{
    match nom::character::complete::char::<&str, nom::error::Error<&str>>(c)(input) {
        Ok((rest, _)) => Some(rest),
        Err(_) => None,
    }
}

/// `nom::bytes::complete::tag`: what follows `word` at the start of the
/// input, where the input starts with `word`.
#[verifier::external_body]
pub(crate) fn literal<'a>(input: &'a str, word: &str) -> (r: Option<&'a str>)
    ensures
        match r {
            Some(rest) => word@.is_prefix_of(input@) && rest@ == input@.skip(word@.len() as int),
            None => !word@.is_prefix_of(input@),
        },
{
    match nom::bytes::complete::tag::<&str, &str, nom::error::Error<&str>>(word)(input) {
        Ok((rest, _)) => Some(rest),
        Err(_) => None,
    }
}

/// Whether two characters are the same.
pub fn same_char(a: char, b: char) -> (r: bool)
    ensures
        r == (a == b),
{
    a == b
}

/// `nom::bytes::complete::take_till` with the test for one character: the
/// characters before the first `stop`, all of them where there is none, and
/// what follows them.
#[verifier::external_body]
pub(crate) fn upto_char<'a>(input: &'a str, stop: char) -> (r: (&'a str, &'a str))
    ensures
        r.1@ == input@.take(run(input@, Class::Other(stop)) as int),
        r.0@ == input@.skip(run(input@, Class::Other(stop)) as int),
{
    match nom::bytes::complete::take_till::<_, &str, nom::error::Error<&str>>(
        |c: char| same_char(c, stop),
    )(input) {
        Ok((rest, taken)) => (rest, taken),
        Err(_) => (input, ""),
    }
}

} // verus!
