//! The parser of the configuration language: from text to the untyped
//! expression tree.

use vstd::prelude::*;
use crate::schema::expr::{ExprU, ExprUView, expr_views};
use crate::schema::lex::{
    Class, blanks0, blanks1, byte_number, decimal, in_class, lemma_run_bound,
    lemma_run_holds, lemma_run_is, letters1, literal, one_char, run, upto_char,
};

verus! {

/// Why a text is no schema source.
#[derive(Clone, Debug, PartialEq, Eq)]
pub enum SchemaParseError {
    /// The grammar does not allow what stands at the start of this rest of
    /// the input.
    UnexpectedInput(String),
    /// The text is an expression, but no call of a function.
    MustStartWithSchemaConstructor,
}

/// An error of the parser as plain values.
pub enum ParseErrorView {
    UnexpectedInput(Seq<char>),
    MustStartWithSchemaConstructor,
}

impl View for SchemaParseError {
    type V = ParseErrorView;

    open spec fn view(&self) -> ParseErrorView {
        match self {
            SchemaParseError::UnexpectedInput(rest) => ParseErrorView::UnexpectedInput(rest@),
            SchemaParseError::MustStartWithSchemaConstructor => {
                ParseErrorView::MustStartWithSchemaConstructor
            },
        }
    }
}

/// `s` without the spaces, tabs and newlines at its start.
pub open spec fn trim(s: Seq<char>) -> Seq<char> {
    s.skip(run(s, Class::LineSpace) as int)
}

/// What follows the character `c` at the start of `s`.
pub open spec fn read_char(s: Seq<char>, c: char) -> Result<Seq<char>, Seq<char>> {
    if s.len() > 0 && s[0] == c {
        Ok(s.skip(1))
    } else {
        Err(s)
    }
}

/// A string literal: a double quote, everything up to the next double
/// quote, and that quote. Nothing is escaped.
pub open spec fn read_string(s: Seq<char>) -> Result<(Seq<char>, Seq<char>), Seq<char>> {
    match read_char(s, '"') {
        Err(at) => Err(at),
        Ok(body) => {
            let n = run(body, Class::Other('"')) as int;
            match read_char(body.skip(n), '"') {
                Err(at) => Err(at),
                Ok(rest) => Ok((body.take(n), rest)),
            }
        },
    }
}

/// A keyword pair: a string literal, a slash and a string literal.
pub open spec fn read_keyword(s: Seq<char>) -> Result<(ExprUView, Seq<char>), Seq<char>> {
    match read_string(s) {
        Err(at) => Err(at),
        Ok((name, after_name)) => match read_char(after_name, '/') {
            Err(at) => Err(at),
            Ok(after_slash) => match read_string(after_slash) {
                Err(at) => Err(at),
                Ok((id, rest)) => Ok((ExprUView::KeywordU { name, id }, rest)),
            },
        },
    }
}

/// A number: the digits at the start of `s`, which must write a number of
/// at most 255.
pub open spec fn read_nat(s: Seq<char>) -> Result<(u8, Seq<char>), Seq<char>> {
    let n = run(s, Class::Digit) as int;
    if n > 0 && decimal(s.take(n)) <= 255 {
        Ok((decimal(s.take(n)) as u8, s.skip(n)))
    } else {
        Err(s)
    }
}

/// An identifier: a letter, and the letters and hyphens that follow it.
pub open spec fn read_identifier(s: Seq<char>) -> Result<(Seq<char>, Seq<char>), Seq<char>> {
    if run(s, Class::Letter) > 0 {
        let n = run(s, Class::Word) as int;
        Ok((s.take(n), s.skip(n)))
    } else {
        Err(s)
    }
}

/// The indentation of a line that goes on: two spaces or one tab.
pub open spec fn read_indent(s: Seq<char>) -> Result<Seq<char>, Seq<char>> {
    if s.len() >= 2 && s[0] == ' ' && s[1] == ' ' {
        Ok(s.skip(2))
    } else if s.len() >= 1 && s[0] == '\t' {
        Ok(s.skip(1))
    } else {
        Err(s)
    }
}

/// A character that closes what a call stands in, or parts it from the next
/// element of a list.
pub open spec fn closes(c: char) -> bool {
    c == ')' || c == ']' || c == ','
}

/// The end of a word of a call, which is one of: blanks, newlines and the
/// indentation of the next line; blanks; the end of the input; or, taking
/// nothing, a closing bracket or a comma.
pub open spec fn read_word_end(s: Seq<char>) -> Result<Seq<char>, Seq<char>> {
    let line = s.skip(run(s, Class::Blank) as int);
    let breaks = run(line, Class::Only('\n'));
    let next_line = if breaks > 0 {
        read_indent(line.skip(breaks as int))
    } else {
        Err(line)
    };
    match next_line {
        Ok(rest) => Ok(rest),
        Err(_) => if run(s, Class::Blank) > 0 {
            Ok(line)
        } else if s.len() == 0 || closes(s[0]) {
            Ok(s)
        } else {
            Err(s)
        },
    }
}

/// The word end takes a part of the start of `s`, maybe nothing.
pub proof fn lemma_word_end_bound(s: Seq<char>)
    ensures
        read_word_end(s) matches Ok(rest) ==> rest.len() <= s.len(),
{
    lemma_run_bound(s, Class::Blank);
    let line = s.skip(run(s, Class::Blank) as int);
    lemma_run_bound(line, Class::Only('\n'));
}

/// An expression: the first that can be read of a parenthesized
/// expression, a list, a number, a keyword pair, a string and a call. Where
/// none can, the call's failure is reported.
pub open spec fn read_expr(s: Seq<char>) -> Result<(ExprUView, Seq<char>), Seq<char>>
    decreases s.len(), 10nat,
{
    match read_parens(s) {
        Ok(found) => Ok(found),
        Err(_) => match read_list(s) {
            Ok(found) => Ok(found),
            Err(_) => match read_nat(s) {
                Ok((n, rest)) => Ok((ExprUView::NatU(n), rest)),
                Err(_) => match read_keyword(s) {
                    Ok(found) => Ok(found),
                    Err(_) => match read_string(s) {
                        Ok((text, rest)) => Ok((ExprUView::StringU(text), rest)),
                        Err(_) => read_func(s),
                    },
                },
            },
        },
    }
}

/// An expression in round brackets; spaces, tabs and newlines may stand
/// before the closing bracket.
pub open spec fn read_parens(s: Seq<char>) -> Result<(ExprUView, Seq<char>), Seq<char>>
    decreases s.len(), 5nat,
{
    match read_char(s, '(') {
        Err(at) => Err(at),
        Ok(inner) => match read_expr(inner) {
            Err(at) => Err(at),
            Ok((value, after)) => match read_char(trim(after), ')') {
                Err(at) => Err(at),
                Ok(rest) => Ok((value, rest)),
            },
        },
    }
}

/// An element of a list, with the spaces, tabs and newlines around it.
pub open spec fn read_value(s: Seq<char>) -> Result<(ExprUView, Seq<char>), Seq<char>>
    decreases s.len(), 11nat,
{
    proof {
        lemma_run_bound(s, Class::LineSpace);
    }
    match read_expr(trim(s)) {
        Err(at) => Err(at),
        Ok((value, rest)) => Ok((value, trim(rest))),
    }
}

/// The comma between two elements of a list, with the spaces, tabs and
/// newlines around it.
pub open spec fn read_separator(s: Seq<char>) -> Result<Seq<char>, Seq<char>> {
    match read_char(trim(s), ',') {
        Err(at) => Err(at),
        Ok(rest) => Ok(trim(rest)),
    }
}

/// What a separator leaves is no longer than what it started on.
pub proof fn lemma_separator_bound(s: Seq<char>)
    ensures
        read_separator(s) matches Ok(rest) ==> rest.len() <= s.len(),
{
    lemma_run_bound(s, Class::LineSpace);
    match read_char(trim(s), ',') {
        Ok(rest) => {
            lemma_run_bound(rest, Class::LineSpace);
        },
        Err(_) => {},
    }
}

/// The further elements of a list behind the elements `before`: as long as
/// a separator and an element follow, the element joins them. An element
/// that leaves as much input as there was before its separator fails the
/// list, so that reading always moves on.
pub open spec fn read_more(s: Seq<char>, before: Seq<ExprUView>) -> Result<
    (Seq<ExprUView>, Seq<char>),
    Seq<char>,
>
    decreases s.len(), 12nat,
{
    match read_separator(s) {
        Err(_) => Ok((before, s)),
        Ok(after_separator) => {
            proof {
                lemma_separator_bound(s);
            }
            match read_value(after_separator) {
                Err(_) => Ok((before, s)),
                Ok((value, rest)) => if rest.len() < s.len() {
                    read_more(rest, before.push(value))
                } else {
                    Err(s)
                },
            }
        },
    }
}

/// The elements of a list that has at least one: the first element, and
/// then the further ones. An element leaves no more input than it was
/// given; one that did would fail the list.
pub open spec fn read_items(s: Seq<char>) -> Result<(Seq<ExprUView>, Seq<char>), Seq<char>>
    decreases s.len(), 13nat,
{
    match read_value(s) {
        Err(at) => Err(at),
        Ok((first, rest)) => if rest.len() <= s.len() {
            read_more(rest, seq![first])
        } else {
            Err(s)
        },
    }
}

/// A list: an opening square bracket, elements with commas between them or
/// nothing but spaces, tabs and newlines, and the closing bracket.
pub open spec fn read_list(s: Seq<char>) -> Result<(ExprUView, Seq<char>), Seq<char>>
    decreases s.len(), 5nat,
{
    match read_char(s, '[') {
        Err(at) => Err(at),
        Ok(inner) => {
            let (items, after) = match read_items(inner) {
                Ok(found) => found,
                Err(_) => (Seq::empty(), trim(inner)),
            };
            match read_char(after, ']') {
                Err(at) => Err(at),
                Ok(rest) => Ok((ExprUView::ListU(items), rest)),
            }
        },
    }
}

/// The arguments of a call behind the arguments `before`: as long as an
/// expression and the end of a word follow, the expression joins them. One
/// that leaves as much input as there was fails the call, so that reading
/// always moves on.
pub open spec fn read_args(s: Seq<char>, before: Seq<ExprUView>) -> Result<
    (Seq<ExprUView>, Seq<char>),
    Seq<char>,
>
    decreases s.len(), 12nat,
{
    match read_expr(s) {
        Err(_) => Ok((before, s)),
        Ok((value, after)) => match read_word_end(after) {
            Err(_) => Ok((before, s)),
            Ok(rest) => if rest.len() < s.len() {
                read_args(rest, before.push(value))
            } else {
                Err(s)
            },
        },
    }
}

/// A call: an identifier, the end of a word, and the arguments.
pub open spec fn read_func(s: Seq<char>) -> Result<(ExprUView, Seq<char>), Seq<char>>
    decreases s.len(), 5nat,
{
    match read_identifier(s) {
        Err(at) => Err(at),
        Ok((name, after_name)) => match read_word_end(after_name) {
            Err(at) => Err(at),
            Ok(start) => {
                proof {
                    lemma_run_bound(s, Class::Word);
                    lemma_run_holds(s, Class::Letter);
                    lemma_run_holds(s, Class::Word);
                    lemma_word_end_bound(after_name);
                }
                match read_args(start, Seq::empty()) {
                    Err(at) => Err(at),
                    Ok((args, rest)) => Ok((ExprUView::FnU { name, args }, rest)),
                }
            },
        },
    }
}

/// A whole text: one call and nothing behind it.
pub open spec fn read_document(s: Seq<char>) -> Result<ExprUView, ParseErrorView> {
    match read_expr(s) {
        Err(at) => Err(ParseErrorView::UnexpectedInput(at)),
        Ok((value, rest)) => if !(value is FnU) {
            Err(ParseErrorView::MustStartWithSchemaConstructor)
        } else if rest.len() > 0 {
            Err(ParseErrorView::UnexpectedInput(rest))
        } else {
            Ok(value)
        },
    }
}

/// What was read without a value, as plain values.
pub open spec fn rest_read(r: Result<&str, &str>) -> Result<Seq<char>, Seq<char>> {
    match r {
        Ok(rest) => Ok(rest@),
        Err(at) => Err(at@),
    }
}

/// A text that was read, as plain values.
pub open spec fn text_read(r: Result<(&str, String), &str>) -> Result<
    (Seq<char>, Seq<char>),
    Seq<char>,
> {
    match r {
        Ok((rest, text)) => Ok((text@, rest@)),
        Err(at) => Err(at@),
    }
}

/// A number that was read, as plain values.
pub open spec fn nat_read(r: Result<(&str, u8), &str>) -> Result<(u8, Seq<char>), Seq<char>> {
    match r {
        Ok((rest, n)) => Ok((n, rest@)),
        Err(at) => Err(at@),
    }
}

/// An expression that was read, as plain values.
pub open spec fn expr_read(r: Result<(&str, ExprU), &str>) -> Result<
    (ExprUView, Seq<char>),
    Seq<char>,
> {
    match r {
        Ok((rest, value)) => Ok((value@, rest@)),
        Err(at) => Err(at@),
    }
}

/// Skipping one character of the class and then the rest of the run skips
/// the run.
proof fn lemma_trim_step(s: Seq<char>)
    requires
        s.len() > 0,
        in_class(s[0], Class::LineSpace),
    ensures
        trim(s.skip(1)) == trim(s),
{
    lemma_run_bound(s.skip(1), Class::LineSpace);
    assert(s.skip(1).skip(run(s.skip(1), Class::LineSpace) as int) =~= s.skip(
        run(s, Class::LineSpace) as int,
    ));
}

/// Skips the spaces, tabs and newlines at the start of the input. The
/// second part of the result is always empty.
pub fn line_space0<'a>(input: &'a str) -> (r: Result<(&'a str, &'a str), &'a str>)
    ensures
        r matches Ok((rest, taken)) && rest@ == trim(input@) && taken@.len() == 0,
{
    let mut cur = input;
    loop
        invariant
            trim(cur@) == trim(input@),
        ensures
            cur@ == trim(input@),
        decreases cur@.len(),
    {
        let next = match one_char(cur, ' ') {
            Some(rest) => Some(rest),
            None => match one_char(cur, '\t') {
                Some(rest) => Some(rest),
                None => one_char(cur, '\n'),
            },
        };
        match next {
            Some(rest) => {
                proof {
                    lemma_trim_step(cur@);
                }
                cur = rest;
            },
            None => {
                assert(cur@.skip(0) =~= cur@);
                break ;
            },
        }
    }
    proof {
        reveal_strlit("");
    }
    Ok((cur, ""))
}

/// Skips the spaces, tabs and newlines at the start of the input.
fn skip_line_space<'a>(input: &'a str) -> (rest: &'a str)
    ensures
        rest@ == trim(input@),
{
    match line_space0(input) {
        Ok((rest, _)) => rest,
        Err(_) => input,
    }
}

/// Reads the character `c`.
fn expect_char<'a>(input: &'a str, c: char) -> (r: Result<&'a str, &'a str>)
    ensures
        rest_read(r) == read_char(input@, c),
{
    match one_char(input, c) {
        Some(rest) => Ok(rest),
        None => Err(input),
    }
}

/// Reads a string literal.
pub fn string<'a>(input: &'a str) -> (r: Result<(&'a str, String), &'a str>)
    ensures
        text_read(r) == read_string(input@),
{
    let body = match expect_char(input, '"') {
        Err(at) => {
            return Err(at);
        },
        Ok(body) => body,
    };
    let (after, taken) = upto_char(body, '"');
    match expect_char(after, '"') {
        Err(at) => Err(at),
        Ok(rest) => Ok((rest, taken.to_owned())),
    }
}

/// Reads a keyword pair.
pub fn keyword<'a>(input: &'a str) -> (r: Result<(&'a str, ExprU), &'a str>)
    ensures
        expr_read(r) == read_keyword(input@),
{
    let (after_name, name) = match string(input) {
        Err(at) => {
            return Err(at);
        },
        Ok(found) => found,
    };
    let after_slash = match literal(after_name, "/") {
        None => {
            proof {
                reveal_strlit("/");
                if after_name@.len() > 0 && after_name@[0] == '/' {
                    assert("/"@ =~= after_name@.subrange(0, 1));
                }
            }
            return Err(after_name);
        },
        Some(rest) => {
            proof {
                reveal_strlit("/");
                assert(after_name@.subrange(0, 1)[0] == '/');
            }
            rest
        },
    };
    match string(after_slash) {
        Err(at) => Err(at),
        Ok((rest, id)) => Ok((rest, ExprU::KeywordU { name, id })),
    }
}

/// Reads a number.
pub fn number<'a>(input: &'a str) -> (r: Result<(&'a str, u8), &'a str>)
    ensures
        nat_read(r) == read_nat(input@),
{
    match byte_number(input) {
        Some((rest, value)) => Ok((rest, value)),
        None => Err(input),
    }
}

/// Reads an identifier.
pub fn identifier<'a>(input: &'a str) -> (r: Result<(&'a str, String), &'a str>)
    ensures
        text_read(r) == read_identifier(input@),
{
    let (start, first) = match letters1(input) {
        None => {
            return Err(input);
        },
        Some(found) => found,
    };
    let mut cur = start;
    let mut name = first.to_owned();
    proof {
        lemma_run_bound(input@, Class::Letter);
        lemma_run_holds(input@, Class::Letter);
        assert(name@ + cur@ =~= input@);
    }
    loop
        invariant
            name@ + cur@ == input@,
            forall|k: int| 0 <= k < name@.len() ==> in_class(#[trigger] name@[k], Class::Word),
        ensures
            name@ + cur@ == input@,
            forall|k: int| 0 <= k < name@.len() ==> in_class(#[trigger] name@[k], Class::Word),
            cur@.len() == 0 || !in_class(cur@[0], Class::Word),
        decreases cur@.len(),
    {
        let ghost before = name@;
        match letters1(cur) {
            Some((rest, word)) => {
                proof {
                    lemma_run_bound(cur@, Class::Letter);
                    lemma_run_holds(cur@, Class::Letter);
                    assert((before + word@) + rest@ =~= before + cur@);
                }
                name.append(word);
                cur = rest;
            },
            None => match literal(cur, "-") {
                Some(rest) => {
                    proof {
                        reveal_strlit("-");
                        assert(cur@.subrange(0, 1)[0] == '-');
                        assert((before + "-"@) + rest@ =~= before + cur@);
                    }
                    name.append("-");
                    cur = rest;
                },
                None => {
                    proof {
                        reveal_strlit("-");
                        if cur@.len() > 0 && cur@[0] == '-' {
                            assert("-"@ =~= cur@.subrange(0, 1));
                        }
                    }
                    break ;
                },
            },
        }
    }
    proof {
        assert forall|k: int| 0 <= k < name@.len() implies in_class(
            #[trigger] input@[k],
            Class::Word,
        ) by {
            assert(input@[k] == name@[k]);
        }
        if name@.len() < input@.len() {
            assert(input@[name@.len() as int] == cur@[0]);
        }
        lemma_run_is(input@, Class::Word, name@.len());
        assert(input@.take(name@.len() as int) =~= name@);
        assert(input@.skip(name@.len() as int) =~= cur@);
    }
    Ok((cur, name))
}

/// Reads the indentation of a line that goes on.
pub fn indent<'a>(input: &'a str) -> (r: Result<&'a str, &'a str>)
    ensures
        rest_read(r) == read_indent(input@),
{
    proof {
        reveal_strlit("  ");
        reveal_strlit("\t");
    }
    match literal(input, "  ") {
        Some(rest) => {
            assert(input@.subrange(0, 2)[0] == ' ' && input@.subrange(0, 2)[1] == ' ');
            Ok(rest)
        },
        None => {
            proof {
                if input@.len() >= 2 && input@[0] == ' ' && input@[1] == ' ' {
                    assert("  "@ =~= input@.subrange(0, 2));
                }
            }
            match literal(input, "\t") {
                Some(rest) => {
                    assert(input@.subrange(0, 1)[0] == '\t');
                    Ok(rest)
                },
                None => {
                    proof {
                        if input@.len() >= 1 && input@[0] == '\t' {
                            assert("\t"@ =~= input@.subrange(0, 1));
                        }
                    }
                    Err(input)
                },
            }
        },
    }
}

/// Reads the end of a word of a call.
pub fn word_end<'a>(input: &'a str) -> (r: Result<&'a str, &'a str>)
    ensures
        rest_read(r) == read_word_end(input@),
{
    let line = blanks0(input);
    let mut cur = line;
    let mut any = false;
    let ghost mut count: nat = 0;
    proof {
        assert(line@.skip(0) =~= line@);
    }
    loop
        invariant
            count <= line@.len(),
            cur@ == line@.skip(count as int),
            any == (count > 0),
            forall|k: int| 0 <= k < count ==> in_class(#[trigger] line@[k], Class::Only('\n')),
        ensures
            count == run(line@, Class::Only('\n')),
            cur@ == line@.skip(count as int),
            any == (count > 0),
        decreases cur@.len(),
    {
        match one_char(cur, '\n') {
            Some(rest) => {
                proof {
                    assert(line@[count as int] == cur@[0]);
                    assert(rest@ =~= line@.skip(count as int + 1));
                    count = count + 1;
                }
                cur = rest;
                any = true;
            },
            None => {
                proof {
                    if count < line@.len() {
                        assert(line@[count as int] == cur@[0]);
                    }
                    lemma_run_is(line@, Class::Only('\n'), count);
                }
                break ;
            },
        }
    }
    if any {
        match indent(cur) {
            Ok(rest) => {
                return Ok(rest);
            },
            Err(_) => {},
        }
    }
    match blanks1(input) {
        Some(rest) => {
            return Ok(rest);
        },
        None => {},
    }
    if input.is_empty() {
        return Ok(input);
    }
    let closing = match one_char(input, ')') {
        Some(_) => true,
        None => match one_char(input, ']') {
            Some(_) => true,
            None => match one_char(input, ',') {
                Some(_) => true,
                None => false,
            },
        },
    };
    if closing {
        Ok(input)
    } else {
        Err(input)
    }
}

/// A list of expressions that was read, as plain values.
pub open spec fn items_read(r: Result<(&str, Vec<ExprU>), &str>) -> Result<
    (Seq<ExprUView>, Seq<char>),
    Seq<char>,
> {
    match r {
        Ok((rest, items)) => Ok((expr_views(items@), rest@)),
        Err(at) => Err(at@),
    }
}

/// A whole text that was read, as plain values.
pub open spec fn document_read(r: Result<ExprU, SchemaParseError>) -> Result<
    ExprUView,
    ParseErrorView,
> {
    match r {
        Ok(value) => Ok(value@),
        Err(e) => Err(e@),
    }
}

/// A string literal, a keyword pair and a number each take at least one
/// character.
pub proof fn lemma_literals_consume(s: Seq<char>)
    ensures
        read_string(s) matches Ok((_, rest)) ==> rest.len() < s.len(),
        read_keyword(s) matches Ok((_, rest)) ==> rest.len() < s.len(),
        read_nat(s) matches Ok((_, rest)) ==> rest.len() < s.len(),
{
    lemma_string_consumes(s);
    match read_string(s) {
        Ok((_, after_name)) => {
            match read_char(after_name, '/') {
                Ok(after_slash) => {
                    lemma_string_consumes(after_slash);
                },
                Err(_) => {},
            }
        },
        Err(_) => {},
    }
    lemma_run_bound(s, Class::Digit);
}

/// A string literal takes at least one character.
pub proof fn lemma_string_consumes(s: Seq<char>)
    ensures
        read_string(s) matches Ok((_, rest)) ==> rest.len() < s.len(),
{
    if s.len() > 0 {
        lemma_run_bound(s.skip(1), Class::Other('"'));
    }
}

/// An identifier and the end of the word behind it take at least one
/// character.
pub proof fn lemma_identifier_consumes(s: Seq<char>)
    ensures
        read_identifier(s) matches Ok((_, rest)) ==> rest.len() < s.len(),
{
    lemma_run_bound(s, Class::Word);
    lemma_run_holds(s, Class::Letter);
    lemma_run_holds(s, Class::Word);
}

/// A name that the grammar allows: a letter, and letters and hyphens
/// behind it.
pub open spec fn is_identifier(name: Seq<char>) -> bool {
    &&& name.len() > 0
    &&& in_class(name[0], Class::Letter)
    &&& forall|k: int| 0 <= k < name.len() ==> in_class(#[trigger] name[k], Class::Word)
}

/// Every call in the expression, at any depth, has a name that the grammar
/// allows.
pub open spec fn well_named(e: ExprUView) -> bool
    decreases e,
{
    match e {
        ExprUView::ListU(items) => forall|i: int|
            0 <= i < items.len() ==> well_named(#[trigger] items[i]),
        ExprUView::FnU { name, args } => is_identifier(name) && forall|i: int|
            0 <= i < args.len() ==> well_named(#[trigger] args[i]),
        _ => true,
    }
}

/// All of the expressions are well named.
pub open spec fn all_well_named(items: Seq<ExprUView>) -> bool {
    forall|i: int| 0 <= i < items.len() ==> well_named(#[trigger] items[i])
}

/// What is read has only names that the grammar allows: no call, at any
/// depth, has an empty name or one with another character than letters and
/// hyphens.
pub proof fn lemma_expr_well_named(s: Seq<char>)
    ensures
        read_expr(s) matches Ok((value, _)) ==> well_named(value),
    decreases s.len(), 10nat,
{
    lemma_parens_well_named(s);
    lemma_list_well_named(s);
    lemma_func_well_named(s);
}

/// An expression in round brackets has only names that the grammar allows.
pub proof fn lemma_parens_well_named(s: Seq<char>)
    ensures
        read_parens(s) matches Ok((value, _)) ==> well_named(value),
    decreases s.len(), 5nat,
{
    if s.len() > 0 && s[0] == '(' {
        lemma_expr_well_named(s.skip(1));
    }
}

/// An element of a list has only names that the grammar allows.
pub proof fn lemma_value_well_named(s: Seq<char>)
    ensures
        read_value(s) matches Ok((value, _)) ==> well_named(value),
    decreases s.len(), 11nat,
{
    lemma_run_bound(s, Class::LineSpace);
    lemma_expr_well_named(trim(s));
}

/// The further elements of a list have only names that the grammar
/// allows.
pub proof fn lemma_more_well_named(s: Seq<char>, before: Seq<ExprUView>)
    requires
        all_well_named(before),
    ensures
        read_more(s, before) matches Ok((items, _)) ==> all_well_named(items),
    decreases s.len(), 12nat,
{
    match read_separator(s) {
        Err(_) => {},
        Ok(after_separator) => {
            lemma_separator_bound(s);
            lemma_value_well_named(after_separator);
            match read_value(after_separator) {
                Err(_) => {},
                Ok((value, rest)) => {
                    if rest.len() < s.len() {
                        assert forall|i: int| 0 <= i < before.push(value).len() implies well_named(
                            #[trigger] before.push(value)[i],
                        ) by {
                            if i < before.len() {
                                assert(before.push(value)[i] == before[i]);
                            }
                        }
                        lemma_more_well_named(rest, before.push(value));
                    }
                },
            }
        },
    }
}

/// The elements of a list have only names that the grammar allows.
pub proof fn lemma_items_well_named(s: Seq<char>)
    ensures
        read_items(s) matches Ok((items, _)) ==> all_well_named(items),
    decreases s.len(), 13nat,
{
    lemma_value_well_named(s);
    match read_value(s) {
        Err(_) => {},
        Ok((first, rest)) => {
            if rest.len() <= s.len() {
                assert(seq![first][0] == first);
                lemma_more_well_named(rest, seq![first]);
            }
        },
    }
}

/// A list has only names that the grammar allows.
pub proof fn lemma_list_well_named(s: Seq<char>)
    ensures
        read_list(s) matches Ok((value, _)) ==> well_named(value),
    decreases s.len(), 5nat,
{
    if s.len() > 0 && s[0] == '[' {
        lemma_items_well_named(s.skip(1));
    }
}

/// The arguments of a call have only names that the grammar allows.
pub proof fn lemma_args_well_named(s: Seq<char>, before: Seq<ExprUView>)
    requires
        all_well_named(before),
    ensures
        read_args(s, before) matches Ok((args, _)) ==> all_well_named(args),
    decreases s.len(), 12nat,
{
    lemma_expr_well_named(s);
    match read_expr(s) {
        Err(_) => {},
        Ok((value, after)) => {
            match read_word_end(after) {
                Err(_) => {},
                Ok(rest) => {
                    if rest.len() < s.len() {
                        assert forall|i: int| 0 <= i < before.push(value).len() implies well_named(
                            #[trigger] before.push(value)[i],
                        ) by {
                            if i < before.len() {
                                assert(before.push(value)[i] == before[i]);
                            }
                        }
                        lemma_args_well_named(rest, before.push(value));
                    }
                },
            }
        },
    }
}

/// A call has only names that the grammar allows.
pub proof fn lemma_func_well_named(s: Seq<char>)
    ensures
        read_func(s) matches Ok((value, _)) ==> well_named(value),
    decreases s.len(), 5nat,
{
    match read_identifier(s) {
        Err(_) => {},
        Ok((name, after_name)) => {
            lemma_run_bound(s, Class::Word);
            lemma_run_holds(s, Class::Letter);
            lemma_run_holds(s, Class::Word);
            lemma_word_end_bound(after_name);
            assert(is_identifier(name)) by {
                assert forall|k: int| 0 <= k < name.len() implies in_class(
                    #[trigger] name[k],
                    Class::Word,
                ) by {
                    assert(name[k] == s[k]);
                }
            }
            match read_word_end(after_name) {
                Err(_) => {},
                Ok(start) => {
                    lemma_args_well_named(start, Seq::empty());
                },
            }
        },
    }
}

/// What parses is one call, and all its names are names that the grammar
/// allows.
pub proof fn parsed_document_is_well_named(s: Seq<char>)
    ensures
        read_document(s) matches Ok(tree) ==> tree is FnU && well_named(tree),
{
    lemma_expr_well_named(s);
}

/// Reads an expression.
pub fn expr<'a>(input: &'a str) -> (r: Result<(&'a str, ExprU), &'a str>)
    ensures
        expr_read(r) == read_expr(input@),
        r matches Ok((rest, _)) ==> rest@.len() < input@.len(),
    decreases input@.len(), 10nat,
{
    proof {
        lemma_literals_consume(input@);
    }
    match parens(input) {
        Ok(found) => {
            return Ok(found);
        },
        Err(_) => {},
    }
    match list(input) {
        Ok(found) => {
            return Ok(found);
        },
        Err(_) => {},
    }
    match number(input) {
        Ok((rest, n)) => {
            return Ok((rest, ExprU::NatU(n)));
        },
        Err(_) => {},
    }
    match keyword(input) {
        Ok(found) => {
            return Ok(found);
        },
        Err(_) => {},
    }
    match string(input) {
        Ok((rest, text)) => {
            return Ok((rest, ExprU::StringU(text)));
        },
        Err(_) => {},
    }
    func(input)
}

/// Reads an expression in round brackets.
pub fn parens<'a>(input: &'a str) -> (r: Result<(&'a str, ExprU), &'a str>)
    ensures
        expr_read(r) == read_parens(input@),
        r matches Ok((rest, _)) ==> rest@.len() < input@.len(),
    decreases input@.len(), 5nat,
{
    let inner = match expect_char(input, '(') {
        Err(at) => {
            return Err(at);
        },
        Ok(inner) => inner,
    };
    let (after, value) = match expr(inner) {
        Err(at) => {
            return Err(at);
        },
        Ok(found) => found,
    };
    proof {
        lemma_run_bound(after@, Class::LineSpace);
    }
    match expect_char(skip_line_space(after), ')') {
        Err(at) => Err(at),
        Ok(rest) => Ok((rest, value)),
    }
}

/// Reads an element of a list with the space around it.
pub fn value<'a>(input: &'a str) -> (r: Result<(&'a str, ExprU), &'a str>)
    ensures
        expr_read(r) == read_value(input@),
        r matches Ok((rest, _)) ==> rest@.len() < input@.len(),
    decreases input@.len(), 11nat,
{
    proof {
        lemma_run_bound(input@, Class::LineSpace);
    }
    match expr(skip_line_space(input)) {
        Err(at) => Err(at),
        Ok((rest, value)) => {
            proof {
                lemma_run_bound(rest@, Class::LineSpace);
            }
            Ok((skip_line_space(rest), value))
        },
    }
}

/// Reads the comma between two elements of a list with the space around
/// it.
pub fn separator<'a>(input: &'a str) -> (r: Result<&'a str, &'a str>)
    ensures
        rest_read(r) == read_separator(input@),
{
    let start = skip_line_space(input);
    match literal(start, ",") {
        Some(rest) => {
            proof {
                reveal_strlit(",");
                assert(start@.subrange(0, 1)[0] == ',');
            }
            Ok(skip_line_space(rest))
        },
        None => {
            proof {
                reveal_strlit(",");
                if start@.len() > 0 && start@[0] == ',' {
                    assert(","@ =~= start@.subrange(0, 1));
                }
            }
            Err(start)
        },
    }
}

/// Reads the elements of a list that has at least one: an element, and
/// then a separator and an element as often as both follow.
pub fn items<'a>(input: &'a str) -> (r: Result<(&'a str, Vec<ExprU>), &'a str>)
    ensures
        items_read(r) == read_items(input@),
        r matches Ok((rest, _)) ==> rest@.len() < input@.len(),
    decreases input@.len(), 13nat,
{
    let (start, first) = match value(input) {
        Err(at) => {
            return Err(at);
        },
        Ok(found) => found,
    };
    let ghost target = read_more(start@, seq![first@]);
    let mut found: Vec<ExprU> = Vec::new();
    found.push(first);
    let mut cur = start;
    assert(expr_views(found@) =~= seq![first@]);
    loop
        invariant
            cur@.len() < input@.len(),
            read_more(cur@, expr_views(found@)) == target,
        ensures
            cur@.len() < input@.len(),
            target == Ok::<(Seq<ExprUView>, Seq<char>), Seq<char>>((expr_views(found@), cur@)),
        decreases cur@.len(),
    {
        proof {
            lemma_separator_bound(cur@);
        }
        let after = match separator(cur) {
            Err(_) => {
                break ;
            },
            Ok(after) => after,
        };
        match value(after) {
            Err(_) => {
                break ;
            },
            Ok((rest, next)) => {
                assert(expr_views(found@.push(next)) =~= expr_views(found@).push(next@));
                found.push(next);
                cur = rest;
            },
        }
    }
    Ok((cur, found))
}

/// One round of a separated list: from `from`, the separator and then the
/// value can return so that `to` is left and `x` is the value, and `to` is
/// shorter than `from`.
pub open spec fn sep_step<'a, O1, O2, F, G>(
    sep: F,
    value: G,
    from: &'a str,
    to: &'a str,
    x: O2,
) -> bool where
    F: Fn(&'a str) -> Result<(&'a str, O1), &'a str>,
    G: Fn(&'a str) -> Result<(&'a str, O2), &'a str>,
 {
    exists|after: &'a str, o: O1|
        {
            &&& call_ensures(sep, (from,), Ok::<(&'a str, O1), &'a str>((after, o)))
            &&& call_ensures(value, (after,), Ok::<(&'a str, O2), &'a str>((to, x)))
            &&& to.len() < from.len()
        }
}

/// A run of a separated list: the first value leaves `stops[0]`, and each
/// further round leads from one stop to the next; `found` holds the values.
pub open spec fn sep_run<'a, O1, O2, F, G>(
    sep: F,
    value: G,
    input: &'a str,
    stops: Seq<&'a str>,
    found: Seq<O2>,
) -> bool where
    F: Fn(&'a str) -> Result<(&'a str, O1), &'a str>,
    G: Fn(&'a str) -> Result<(&'a str, O2), &'a str>,
 {
    &&& stops.len() == found.len()
    &&& found.len() >= 1
    &&& call_ensures(value, (input,), Ok::<(&'a str, O2), &'a str>((stops[0], found[0])))
    &&& forall|k: int|
        0 <= k < stops.len() - 1 ==> #[trigger] sep_step::<O1, O2, F, G>(
            sep,
            value,
            stops[k],
            stops[k + 1],
            found[k + 1],
        )
}

/// No further round starts at `at`: the separator can fail there, or it
/// can succeed and the value can fail behind it.
pub open spec fn sep_ends<'a, O1, O2, F, G>(sep: F, value: G, at: &'a str) -> bool where
    F: Fn(&'a str) -> Result<(&'a str, O1), &'a str>,
    G: Fn(&'a str) -> Result<(&'a str, O2), &'a str>,
 {
    ||| exists|e: &'a str| call_ensures(sep, (at,), Err::<(&'a str, O1), &'a str>(e))
    ||| exists|after: &'a str, o: O1, e: &'a str|
        {
            &&& call_ensures(sep, (at,), Ok::<(&'a str, O1), &'a str>((after, o)))
            &&& call_ensures(value, (after,), Err::<(&'a str, O2), &'a str>(e))
        }
}

/// A round at `at` makes no way: the separator and then the value can
/// succeed and leave at least as much as `at`.
pub open spec fn sep_stalls<'a, O1, O2, F, G>(sep: F, value: G, at: &'a str) -> bool where
    F: Fn(&'a str) -> Result<(&'a str, O1), &'a str>,
    G: Fn(&'a str) -> Result<(&'a str, O2), &'a str>,
 {
    exists|after: &'a str, o: O1, to: &'a str, x: O2|
        {
            &&& call_ensures(sep, (at,), Ok::<(&'a str, O1), &'a str>((after, o)))
            &&& call_ensures(value, (after,), Ok::<(&'a str, O2), &'a str>((to, x)))
            &&& to.len() >= at.len()
        }
}

/// One or more values with a separator between each two.
///
/// The first value must be there; its failure is the list's. Then a
/// separator and a value are read as often as both succeed, and the list
/// ends before the first separator that fails or is followed by no value.
/// A round that leaves at least as much input as it started on fails the
/// list at that place, so that reading cannot go on for ever.
pub fn sep_by1<'a, O1, O2, F, G>(sep: F, value: G, input: &'a str) -> (r: Result<
    (&'a str, Vec<O2>),
    &'a str,
>) where
    F: Fn(&'a str) -> Result<(&'a str, O1), &'a str>,
    G: Fn(&'a str) -> Result<(&'a str, O2), &'a str>,

    requires
        forall|i: &'a str| call_requires(sep, (i,)),
        forall|i: &'a str| call_requires(value, (i,)),
    ensures
        match r {
            Ok((rest, found)) => exists|stops: Seq<&'a str>|
                {
                    &&& #[trigger] sep_run::<O1, O2, F, G>(sep, value, input, stops, found@)
                    &&& stops.last() == rest
                    &&& sep_ends::<O1, O2, F, G>(sep, value, rest)
                },
            Err(at) => {
                ||| call_ensures(value, (input,), Err::<(&'a str, O2), &'a str>(at))
                ||| exists|stops: Seq<&'a str>, found: Seq<O2>|
                    {
                        &&& #[trigger] sep_run::<O1, O2, F, G>(sep, value, input, stops, found)
                        &&& stops.last() == at
                        &&& sep_stalls::<O1, O2, F, G>(sep, value, at)
                    }
            },
        },
{
    let (start, first) = match value(input) {
        Err(at) => {
            return Err(at);
        },
        Ok(found) => found,
    };
    let mut found: Vec<O2> = Vec::new();
    found.push(first);
    let mut cur = start;
    let ghost mut stops: Seq<&'a str> = seq![start];
    loop
        invariant
            forall|i: &'a str| call_requires(sep, (i,)),
            forall|i: &'a str| call_requires(value, (i,)),
            sep_run::<O1, O2, F, G>(sep, value, input, stops, found@),
            stops.last() == cur,
        ensures
            sep_run::<O1, O2, F, G>(sep, value, input, stops, found@),
            stops.last() == cur,
            sep_ends::<O1, O2, F, G>(sep, value, cur),
        decreases cur.len(),
    {
        let (after, passed): (&'a str, Ghost<O1>) = match sep(cur) {
            Err(e) => {
                assert(call_ensures(sep, (cur,), Err::<(&'a str, O1), &'a str>(e)));
                break ;
            },
            Ok((after, o)) => {
                assert(call_ensures(sep, (cur,), Ok::<(&'a str, O1), &'a str>((after, o))));
                (after, Ghost(o))
            },
        };
        match value(after) {
            Err(e) => {
                assert(call_ensures(sep, (cur,), Ok::<(&'a str, O1), &'a str>((after, passed@))));
                assert(call_ensures(value, (after,), Err::<(&'a str, O2), &'a str>(e)));
                break ;
            },
            Ok((rest, next)) => {
                assert(call_ensures(sep, (cur,), Ok::<(&'a str, O1), &'a str>((after, passed@))));
                assert(call_ensures(value, (after,), Ok::<(&'a str, O2), &'a str>((rest, next))));
                if rest.len() >= cur.len() {
                    assert(sep_stalls::<O1, O2, F, G>(sep, value, cur));
                    return Err(cur);
                }
                proof {
                    let longer = stops.push(rest);
                    let more = found@.push(next);
                    assert(sep_step::<O1, O2, F, G>(sep, value, cur, rest, next));
                    assert forall|k: int| 0 <= k < longer.len() - 1 implies #[trigger] sep_step::<
                        O1,
                        O2,
                        F,
                        G,
                    >(sep, value, longer[k], longer[k + 1], more[k + 1]) by {
                        if k < stops.len() - 1 {
                            assert(sep_step::<O1, O2, F, G>(
                                sep,
                                value,
                                stops[k],
                                stops[k + 1],
                                found@[k + 1],
                            ));
                        }
                    }
                    stops = longer;
                }
                found.push(next);
                cur = rest;
            },
        }
    }
    let r: Result<(&'a str, Vec<O2>), &'a str> = Ok((cur, found));
    assert(sep_run::<O1, O2, F, G>(sep, value, input, stops, r->Ok_0.1@));
    r
}

/// Reads a list.
pub fn list<'a>(input: &'a str) -> (r: Result<(&'a str, ExprU), &'a str>)
    ensures
        expr_read(r) == read_list(input@),
        r matches Ok((rest, _)) ==> rest@.len() < input@.len(),
    decreases input@.len(), 5nat,
{
    let inner = match expect_char(input, '[') {
        Err(at) => {
            return Err(at);
        },
        Ok(inner) => inner,
    };
    let (after, found) = match items(inner) {
        Ok(found) => found,
        Err(_) => {
            let none: Vec<ExprU> = Vec::new();
            proof {
                lemma_run_bound(inner@, Class::LineSpace);
                assert(expr_views(none@) =~= Seq::<ExprUView>::empty());
            }
            (skip_line_space(inner), none)
        },
    };
    match expect_char(after, ']') {
        Err(at) => Err(at),
        Ok(rest) => Ok((rest, ExprU::ListU(found))),
    }
}

/// Reads a call.
pub fn func<'a>(input: &'a str) -> (r: Result<(&'a str, ExprU), &'a str>)
    ensures
        expr_read(r) == read_func(input@),
        r matches Ok((rest, _)) ==> rest@.len() < input@.len(),
    decreases input@.len(), 5nat,
{
    let (after_name, name) = match identifier(input) {
        Err(at) => {
            return Err(at);
        },
        Ok(found) => found,
    };
    let start = match word_end(after_name) {
        Err(at) => {
            return Err(at);
        },
        Ok(start) => start,
    };
    proof {
        lemma_identifier_consumes(input@);
        lemma_word_end_bound(after_name@);
    }
    let ghost target = read_args(start@, Seq::empty());
    let mut args: Vec<ExprU> = Vec::new();
    let mut cur = start;
    assert(expr_views(args@) =~= Seq::<ExprUView>::empty());
    loop
        invariant
            cur@.len() < input@.len(),
            read_args(cur@, expr_views(args@)) == target,
        ensures
            cur@.len() < input@.len(),
            target == Ok::<(Seq<ExprUView>, Seq<char>), Seq<char>>((expr_views(args@), cur@)),
        decreases cur@.len(),
    {
        let (after, next) = match expr(cur) {
            Err(_) => {
                break ;
            },
            Ok(found) => found,
        };
        proof {
            lemma_word_end_bound(after@);
        }
        match word_end(after) {
            Err(_) => {
                break ;
            },
            Ok(rest) => {
                assert(expr_views(args@.push(next)) =~= expr_views(args@).push(next@));
                args.push(next);
                cur = rest;
            },
        }
    }
    Ok((cur, ExprU::FnU { name, args }))
}

/// Reads a whole text.
///
/// The text must be one call of a function, with nothing behind it. A text
/// that the grammar does not allow is reported with the rest of the input
/// at which reading failed; so is what is left behind the call. A text that
/// is another expression than a call is reported as such.
pub fn parse(input: &str) -> (r: Result<ExprU, SchemaParseError>)
    ensures
        document_read(r) == read_document(input@),
{
    match expr(input) {
        Err(at) => Err(SchemaParseError::UnexpectedInput(at.to_owned())),
        Ok((rest, value)) => {
            let is_call = match &value {
                ExprU::FnU { .. } => true,
                _ => false,
            };
            if !is_call {
                Err(SchemaParseError::MustStartWithSchemaConstructor)
            } else if !rest.is_empty() {
                Err(SchemaParseError::UnexpectedInput(rest.to_owned()))
            } else {
                Ok(value)
            }
        },
    }
}

} // verus!
