//! Writing a schema in the configuration language, and reading it back.

use vstd::prelude::*;
use crate::schema::{
    Category, CategoryView, Keyword, KeywordView, Requirement, Schema, SchemaView,
};
use crate::schema::expr::ExprUView;
use crate::text::chars_of;
use crate::schema::typecheck::{
    ExprTView, Type, TypeErrorView, applied, categories_in, check, check_args, check_items,
    check_schema, fits, keyword_list_checks_unchanged, keyword_of, keywords_in, params_of,
    type_of_view, unify_is_idempotent, uniform,
};
use crate::schema::lex::{
    Class, decimal, digit_value, in_class, lemma_run_is, run,
};
use crate::schema::parse::{
    ParseErrorView, closes, read_args, read_document, read_expr, read_func,
    read_identifier, read_items, read_list, read_more, read_nat,
    read_parens, read_separator, read_string, read_value, read_word_end, trim,
};

verus! {

/// A text between double quotes.
pub open spec fn quoted(text: Seq<char>) -> Seq<char> {
    seq!['"'] + text + seq!['"']
}

/// The character of a digit.
pub open spec fn digit_char(d: int) -> char {
    if d == 0 {
        '0'
    } else if d == 1 {
        '1'
    } else if d == 2 {
        '2'
    } else if d == 3 {
        '3'
    } else if d == 4 {
        '4'
    } else if d == 5 {
        '5'
    } else if d == 6 {
        '6'
    } else if d == 7 {
        '7'
    } else if d == 8 {
        '8'
    } else {
        '9'
    }
}

/// A number of one byte in base ten, without leading zeros.
pub open spec fn digits_of(n: u8) -> Seq<char> {
    if n >= 100 {
        seq![digit_char(n as int / 100), digit_char((n as int / 10) % 10), digit_char(n as int % 10)]
    } else if n >= 10 {
        seq![digit_char(n as int / 10), digit_char(n as int % 10)]
    } else {
        seq![digit_char(n as int)]
    }
}

/// The name of the function that makes a requirement.
pub open spec fn requirement_word(r: Requirement) -> Seq<char> {
    match r {
        Requirement::Exactly(_) => "exactly"@,
        Requirement::AtLeast(_) => "at_least"@,
        Requirement::AtMost(_) => "at_most"@,
    }
}

/// The number of a requirement.
pub open spec fn requirement_count(r: Requirement) -> u8 {
    match r {
        Requirement::Exactly(n) => n,
        Requirement::AtLeast(n) => n,
        Requirement::AtMost(n) => n,
    }
}

/// A requirement as a call in round brackets.
pub open spec fn written_requirement(r: Requirement) -> Seq<char> {
    seq!['('] + requirement_word(r) + seq![' '] + digits_of(requirement_count(r)) + seq![')']
}

/// A keyword as a pair of two strings.
pub open spec fn written_keyword(k: KeywordView) -> Seq<char> {
    quoted(k.name) + seq!['/'] + quoted(k.id)
}

/// What follows element `k - 1` of a written list: a comma before each
/// further element, and the closing bracket.
pub open spec fn list_from(items: Seq<Seq<char>>, k: int) -> Seq<char>
    decreases items.len() - k,
{
    if k < 0 || k >= items.len() {
        seq![']']
    } else {
        seq![','] + items[k] + list_from(items, k + 1)
    }
}

/// A list of written elements: square brackets with commas between the
/// elements.
pub open spec fn bracketed(items: Seq<Seq<char>>) -> Seq<char> {
    if items.len() == 0 {
        seq!['[', ']']
    } else {
        seq!['['] + items[0] + list_from(items, 1)
    }
}

/// The written keywords of a category.
pub open spec fn written_keywords(keywords: Seq<KeywordView>) -> Seq<Seq<char>> {
    Seq::new(keywords.len(), |j: int| written_keyword(keywords[j]))
}

/// A category as a call of `category`.
pub open spec fn written_category(c: CategoryView) -> Seq<char> {
    "category "@ + quoted(c.name) + seq![' '] + written_requirement(c.requirement) + seq![' ']
        + bracketed(written_keywords(c.keywords))
}

/// The written categories of a schema.
pub open spec fn written_categories(categories: Seq<CategoryView>) -> Seq<Seq<char>> {
    Seq::new(categories.len(), |ci: int| written_category(categories[ci]))
}

/// A schema as a call of `schema`, on one line.
pub open spec fn written_schema(s: SchemaView) -> Seq<char> {
    "schema "@ + quoted(s.delim) + seq![' '] + quoted(s.empty) + seq![' '] + bracketed(
        written_categories(s.categories),
    )
}

/// The text of one digit.
fn digit_text(d: u8) -> (r: &'static str)
    requires
        d < 10,
    ensures
        r@ == seq![digit_char(d as int)],
{
    proof {
        reveal_strlit("0");
        reveal_strlit("1");
        reveal_strlit("2");
        reveal_strlit("3");
        reveal_strlit("4");
        reveal_strlit("5");
        reveal_strlit("6");
        reveal_strlit("7");
        reveal_strlit("8");
        reveal_strlit("9");
    }
    let r = if d == 0 {
        "0"
    } else if d == 1 {
        "1"
    } else if d == 2 {
        "2"
    } else if d == 3 {
        "3"
    } else if d == 4 {
        "4"
    } else if d == 5 {
        "5"
    } else if d == 6 {
        "6"
    } else if d == 7 {
        "7"
    } else if d == 8 {
        "8"
    } else {
        "9"
    };
    assert(r@ =~= seq![digit_char(d as int)]);
    r
}

/// Writes a number in base ten.
fn write_number(out: &mut String, n: u8)
    ensures
        final(out)@ == old(out)@ + digits_of(n),
{
    if n >= 100 {
        out.append(digit_text(n / 100));
    }
    if n >= 10 {
        out.append(digit_text((n / 10) % 10));
    }
    out.append(digit_text(n % 10));
    assert(out@ =~= old(out)@ + digits_of(n));
}

/// Writes a text between double quotes.
fn write_quoted(out: &mut String, text: &String)
    ensures
        final(out)@ == old(out)@ + quoted(text@),
{
    proof {
        reveal_strlit("\"");
    }
    out.append("\"");
    out.append(text.as_str());
    out.append("\"");
    assert("\""@ =~= seq!['"']);
    assert(out@ =~= old(out)@ + quoted(text@));
}

/// Writes a requirement.
fn write_requirement(out: &mut String, r: &Requirement)
    ensures
        final(out)@ == old(out)@ + written_requirement(*r),
{
    proof {
        reveal_strlit("(");
        reveal_strlit(" ");
        reveal_strlit(")");
    }
    out.append("(");
    let n = match r {
        Requirement::Exactly(n) => {
            out.append("exactly");
            *n
        },
        Requirement::AtLeast(n) => {
            out.append("at_least");
            *n
        },
        Requirement::AtMost(n) => {
            out.append("at_most");
            *n
        },
    };
    out.append(" ");
    write_number(out, n);
    out.append(")");
    assert("("@ =~= seq!['(']);
    assert(" "@ =~= seq![' ']);
    assert(")"@ =~= seq![')']);
    assert(out@ =~= old(out)@ + written_requirement(*r));
}

/// Writes a keyword.
fn write_keyword(out: &mut String, k: &Keyword)
    ensures
        final(out)@ == old(out)@ + written_keyword(k@),
{
    proof {
        reveal_strlit("/");
    }
    write_quoted(out, &k.name);
    out.append("/");
    write_quoted(out, &k.id);
    assert("/"@ =~= seq!['/']);
    assert(out@ =~= old(out)@ + written_keyword(k@));
}

/// Writes a category.
fn write_category(out: &mut String, c: &Category)
    ensures
        final(out)@ == old(out)@ + written_category(c@),
{
    proof {
        reveal_strlit(" ");
        reveal_strlit("[");
        reveal_strlit("]");
        reveal_strlit(",");
    }
    let ghost texts = written_keywords(c@.keywords);
    out.append("category ");
    write_quoted(out, &c.name);
    out.append(" ");
    write_requirement(out, &c.requirement);
    out.append(" ");
    let ghost start = out@;
    let ghost target = start + bracketed(texts);
    out.append("[");
    let mut k: usize = 0;
    if c.keywords.len() > 0 {
        write_keyword(out, &c.keywords[0]);
        k = 1;
        assert(out@ + list_from(texts, 1) =~= target);
    } else {
        assert(out@ + seq![']'] =~= target);
    }
    while k < c.keywords.len()
        invariant
            texts == written_keywords(c@.keywords),
            texts.len() == c.keywords.len(),
            k <= c.keywords.len(),
            c.keywords.len() > 0 ==> k >= 1,
            out@ + (if c.keywords.len() == 0 {
                seq![']']
            } else {
                list_from(texts, k as int)
            }) == target,
            ","@ == seq![','],
        decreases c.keywords.len() - k,
    {
        let ghost before = out@;
        out.append(",");
        write_keyword(out, &c.keywords[k]);
        assert(texts[k as int] == written_keyword(c.keywords@[k as int]@));
        assert(out@ + list_from(texts, k + 1) =~= before + list_from(texts, k as int));
        k += 1;
    }
    out.append("]");
    assert("]"@ =~= seq![']']);
    assert(out@ =~= target);
    assert(" "@ =~= seq![' ']);
    assert(target =~= old(out)@ + written_category(c@));
}

impl Schema {
    /// The schema written in the configuration language, on one line.
    pub fn to_source(&self) -> (r: String)
        ensures
            r@ == written_schema(self@),
    {
        proof {
            reveal_strlit(" ");
            reveal_strlit("[");
            reveal_strlit("]");
            reveal_strlit(",");
        }
        let ghost texts = written_categories(self@.categories);
        let mut out = String::new();
        out.append("schema ");
        write_quoted(&mut out, &self.delim);
        out.append(" ");
        write_quoted(&mut out, &self.empty);
        out.append(" ");
        let ghost start = out@;
        let ghost target = start + bracketed(texts);
        out.append("[");
        let mut k: usize = 0;
        if self.categories.len() > 0 {
            write_category(&mut out, &self.categories[0]);
            k = 1;
            assert(out@ + list_from(texts, 1) =~= target);
        } else {
            assert(out@ + seq![']'] =~= target);
        }
        while k < self.categories.len()
            invariant
                texts == written_categories(self@.categories),
                texts.len() == self.categories.len(),
                k <= self.categories.len(),
                self.categories.len() > 0 ==> k >= 1,
                out@ + (if self.categories.len() == 0 {
                    seq![']']
                } else {
                    list_from(texts, k as int)
                }) == target,
                ","@ == seq![','],
            decreases self.categories.len() - k,
        {
            let ghost before = out@;
            out.append(",");
            write_category(&mut out, &self.categories[k]);
            assert(texts[k as int] == written_category(self.categories@[k as int]@));
            assert(out@ + list_from(texts, k + 1) =~= before + list_from(texts, k as int));
            k += 1;
        }
        out.append("]");
        assert("]"@ =~= seq![']']);
        assert(out@ =~= target);
        assert(" "@ =~= seq![' ']);
        assert(target =~= written_schema(self@));
        out
    }
}

/// A text without a double quote: one that a string literal can hold.
pub open spec fn plain(text: Seq<char>) -> bool {
    forall|i: int| 0 <= i < text.len() ==> text[i] != '"'
}

/// Whether a text holds no double quote.
pub fn is_plain(text: &str) -> (r: bool)
    ensures
        r == plain(text@),
{
    let chars = chars_of(text);
    let mut i: usize = 0;
    while i < chars.len()
        invariant
            i <= chars.len(),
            chars@ == text@,
            forall|k: int| 0 <= k < i ==> text@[k] != '"',
        decreases chars.len() - i,
    {
        if chars[i] == '"' {
            return false;
        }
        i += 1;
    }
    true
}

impl Category {
    /// Whether the category can be written and read back.
    pub fn is_writable(&self) -> (r: bool)
        ensures
            r == writable_category(self@),
    {
        let exactly = match self.requirement {
            Requirement::Exactly(_) => true,
            _ => false,
        };
        if !exactly || !is_plain(self.name.as_str()) {
            return false;
        }
        let mut j: usize = 0;
        while j < self.keywords.len()
            invariant
                j <= self.keywords.len(),
                forall|k: int|
                    0 <= k < j ==> plain((#[trigger] self@.keywords[k]).name) && plain(
                        self@.keywords[k].id,
                    ),
            decreases self.keywords.len() - j,
        {
            assert(self@.keywords[j as int] == self.keywords@[j as int]@);
            if !is_plain(self.keywords[j].name.as_str()) || !is_plain(self.keywords[j].id.as_str()) {
                return false;
            }
            j += 1;
        }
        true
    }
}

impl Schema {
    /// Whether the schema can be written and read back.
    pub fn is_writable(&self) -> (r: bool)
        ensures
            r == writable(self@),
    {
        if !is_plain(self.delim.as_str()) || !is_plain(self.empty.as_str()) {
            return false;
        }
        let mut ci: usize = 0;
        while ci < self.categories.len()
            invariant
                ci <= self.categories.len(),
                forall|k: int| 0 <= k < ci ==> writable_category(#[trigger] self@.categories[k]),
            decreases self.categories.len() - ci,
        {
            assert(self@.categories[ci as int] == self.categories@[ci as int]@);
            if !self.categories[ci].is_writable() {
                return false;
            }
            ci += 1;
        }
        true
    }
}

/// A text in quotes is read as that text.
pub proof fn lemma_quoted_reads(text: Seq<char>, tail: Seq<char>)
    requires
        plain(text),
    ensures
        read_string(quoted(text) + tail) == Ok::<(Seq<char>, Seq<char>), Seq<char>>((text, tail)),
{
    let s = quoted(text) + tail;
    let body = text + seq!['"'] + tail;
    assert(s.skip(1) =~= body);
    assert forall|k: int| 0 <= k < text.len() implies in_class(
        #[trigger] body[k],
        Class::Other('"'),
    ) by {
        assert(body[k] == text[k]);
    }
    assert(body[text.len() as int] == '"');
    lemma_run_is(body, Class::Other('"'), text.len());
    assert(body.skip(text.len() as int) =~= seq!['"'] + tail);
    assert(body.skip(text.len() as int).skip(1) =~= tail);
    assert(body.take(text.len() as int) =~= text);
}

/// A written keyword is read as that keyword.
pub proof fn lemma_keyword_reads(k: KeywordView, tail: Seq<char>)
    requires
        plain(k.name),
        plain(k.id),
    ensures
        read_expr(written_keyword(k) + tail) == Ok::<(ExprUView, Seq<char>), Seq<char>>(
            (ExprUView::KeywordU { name: k.name, id: k.id }, tail),
        ),
{
    let s = written_keyword(k) + tail;
    let after_name = seq!['/'] + quoted(k.id) + tail;
    assert(s =~= quoted(k.name) + after_name);
    lemma_quoted_reads(k.name, after_name);
    assert(after_name.skip(1) =~= quoted(k.id) + tail);
    lemma_quoted_reads(k.id, tail);
    assert(s[0] == '"');
    assert(run(s, Class::Digit) == 0);
}

/// A digit is a digit, and has its value.
pub proof fn lemma_digit_char(d: int)
    requires
        0 <= d < 10,
    ensures
        in_class(digit_char(d), Class::Digit),
        digit_value(digit_char(d)) == d,
{
}

/// A written number is read as that number, where no digit follows it.
pub proof fn lemma_number_reads(n: u8, tail: Seq<char>)
    requires
        tail.len() == 0 || !in_class(tail[0], Class::Digit),
    ensures
        read_nat(digits_of(n) + tail) == Ok::<(u8, Seq<char>), Seq<char>>((n, tail)),
{
    let digits = digits_of(n);
    let s = digits + tail;
    lemma_digit_char(n as int / 100);
    lemma_digit_char((n as int / 10) % 10);
    if n < 100 {
        lemma_digit_char(n as int / 10);
    }
    lemma_digit_char(n as int % 10);
    assert forall|k: int| 0 <= k < digits.len() implies in_class(#[trigger] s[k], Class::Digit) by {
        assert(s[k] == digits[k]);
    }
    if tail.len() > 0 {
        assert(s[digits.len() as int] == tail[0]);
    }
    lemma_run_is(s, Class::Digit, digits.len());
    assert(s.take(digits.len() as int) =~= digits);
    assert(s.skip(digits.len() as int) =~= tail);
    reveal_with_fuel(decimal, 4);
    if n >= 100 {
        assert(digits.drop_last() =~= seq![digit_char(n as int / 100), digit_char((n as int / 10) % 10)]);
        assert(digits.drop_last().drop_last() =~= seq![digit_char(n as int / 100)]);
        assert(digits.drop_last().drop_last().drop_last() =~= Seq::<char>::empty());
    } else if n >= 10 {
        assert(digits.drop_last() =~= seq![digit_char(n as int / 10)]);
        assert(digits.drop_last().drop_last() =~= Seq::<char>::empty());
    } else {
        assert(digits.drop_last() =~= Seq::<char>::empty());
    }
    assert(decimal(digits) == n);
}

/// Nothing is an expression at the end of the input, or at a closing
/// bracket or a comma.
pub proof fn lemma_no_expr(s: Seq<char>)
    requires
        s.len() == 0 || closes(s[0]),
    ensures
        read_expr(s) is Err,
{
    assert(run(s, Class::Digit) == 0);
    assert(run(s, Class::Letter) == 0);
}

/// A word ends, taking nothing, at the end of the input, at a closing
/// bracket and at a comma.
pub proof fn lemma_word_ends_at_closer(s: Seq<char>)
    requires
        s.len() == 0 || closes(s[0]),
    ensures
        read_word_end(s) == Ok::<Seq<char>, Seq<char>>(s),
{
    assert(run(s, Class::Blank) == 0);
    assert(s.skip(0) =~= s);
    assert(run(s, Class::Only('\n')) == 0);
}

/// A word ends at one space before a character that is no blank and no
/// newline, and what follows the space is left.
pub proof fn lemma_word_ends_at_space(rest: Seq<char>)
    requires
        rest.len() > 0,
        !in_class(rest[0], Class::LineSpace),
    ensures
        read_word_end(seq![' '] + rest) == Ok::<Seq<char>, Seq<char>>(rest),
{
    let s = seq![' '] + rest;
    assert(s.skip(1) =~= rest);
    assert(run(rest, Class::Blank) == 0);
    assert(run(s, Class::Blank) == 1);
    assert(run(rest, Class::Only('\n')) == 0);
}

/// Space, tabs and newlines are skipped only where they stand.
pub proof fn lemma_trim_nothing(s: Seq<char>)
    requires
        s.len() == 0 || !in_class(s[0], Class::LineSpace),
    ensures
        trim(s) == s,
{
    assert(run(s, Class::LineSpace) == 0);
    assert(s.skip(0) =~= s);
}

/// What starts with a letter is a call or nothing.
pub proof fn lemma_letter_starts_call(s: Seq<char>)
    requires
        s.len() > 0,
        in_class(s[0], Class::Letter),
    ensures
        read_expr(s) == read_func(s),
{
    assert(run(s, Class::Digit) == 0);
}

/// A word of letters before a space is read as an identifier.
pub proof fn lemma_word_reads(word: Seq<char>, rest: Seq<char>)
    requires
        word.len() > 0,
        forall|k: int| 0 <= k < word.len() ==> in_class(#[trigger] word[k], Class::Letter),
        rest.len() > 0 && rest[0] == ' ',
    ensures
        read_identifier(word + rest) == Ok::<(Seq<char>, Seq<char>), Seq<char>>((word, rest)),
{
    let s = word + rest;
    assert(s[0] == word[0]);
    assert forall|k: int| 0 <= k < word.len() implies in_class(#[trigger] s[k], Class::Word) by {
        assert(s[k] == word[k]);
        assert(in_class(word[k], Class::Letter));
    }
    assert(s[word.len() as int] == rest[0]);
    lemma_run_is(s, Class::Word, word.len());
    assert(s.take(word.len() as int) =~= word);
    assert(s.skip(word.len() as int) =~= rest);
}

/// A string before a space is read as a string.
pub proof fn lemma_string_reads(text: Seq<char>, rest: Seq<char>)
    requires
        plain(text),
        rest.len() > 0 && rest[0] == ' ',
    ensures
        read_expr(quoted(text) + rest) == Ok::<(ExprUView, Seq<char>), Seq<char>>(
            (ExprUView::StringU(text), rest),
        ),
{
    let s = quoted(text) + rest;
    lemma_quoted_reads(text, rest);
    assert(s[0] == '"');
    assert(run(s, Class::Digit) == 0);
}

/// The call that a requirement of exactly `n` is written as.
pub open spec fn exactly_call(n: u8) -> ExprUView {
    ExprUView::FnU { name: "exactly"@, args: seq![ExprUView::NatU(n)] }
}

/// A written requirement of exactly `n` is read as the call of `exactly`
/// on `n`.
pub proof fn lemma_requirement_reads(n: u8, tail: Seq<char>)
    ensures
        read_expr(written_requirement(Requirement::Exactly(n)) + tail) == Ok::<
            (ExprUView, Seq<char>),
            Seq<char>,
        >((exactly_call(n), tail)),
{
    reveal_strlit("exactly");
    let word = "exactly"@;
    let s = written_requirement(Requirement::Exactly(n)) + tail;
    let closing = seq![')'] + tail;
    let number = digits_of(n) + closing;
    let after_name = seq![' '] + number;
    let inner = word + after_name;
    assert(s =~= seq!['('] + inner);
    assert(s.skip(1) =~= inner);
    // the call
    assert(inner[0] == word[0]);
    lemma_letter_starts_call(inner);
    lemma_word_reads(word, after_name);
    lemma_digit_char(n as int / 100);
    lemma_digit_char(n as int % 10);
    if n < 100 {
        lemma_digit_char(n as int / 10);
    }
    assert(number[0] == digits_of(n)[0]);
    lemma_word_ends_at_space(number);
    // its argument
    lemma_number_reads(n, closing);
    assert(read_expr(number) == Ok::<(ExprUView, Seq<char>), Seq<char>>(
        (ExprUView::NatU(n), closing),
    ));
    lemma_word_ends_at_closer(closing);
    lemma_no_expr(closing);
    let one = Seq::<ExprUView>::empty().push(ExprUView::NatU(n));
    assert(read_args(closing, one) == Ok::<(Seq<ExprUView>, Seq<char>), Seq<char>>(
        (one, closing),
    ));
    assert(read_args(number, Seq::empty()) == read_args(closing, one));
    assert(one =~= seq![ExprUView::NatU(n)]);
    assert(read_func(inner) == Ok::<(ExprUView, Seq<char>), Seq<char>>(
        (exactly_call(n), closing),
    ));
    // the brackets
    lemma_trim_nothing(closing);
    assert(closing.skip(1) =~= tail);
    assert(read_parens(s) == Ok::<(ExprUView, Seq<char>), Seq<char>>((exactly_call(n), tail)));
}

/// A text is read as an expression with this value wherever it stands
/// before a comma or before the end of a list, and it starts with no space.
pub open spec fn reads_as(text: Seq<char>, value: ExprUView) -> bool {
    &&& text.len() > 0
    &&& !in_class(text[0], Class::LineSpace)
    &&& forall|rest: Seq<char>|
        rest.len() > 0 && (rest[0] == ',' || rest[0] == ']') ==> #[trigger] read_expr(text + rest)
            == Ok::<(ExprUView, Seq<char>), Seq<char>>((value, rest))
}

/// What follows an element of a written list starts with a comma or with
/// the closing bracket.
pub proof fn lemma_list_from_starts(items: Seq<Seq<char>>, k: int, tail: Seq<char>)
    ensures
        (list_from(items, k) + tail).len() > 0,
        (list_from(items, k) + tail)[0] == ',' || (list_from(items, k) + tail)[0] == ']',
{
}

/// The further elements of a written list are read as their values.
pub proof fn lemma_more_reads(
    texts: Seq<Seq<char>>,
    values: Seq<ExprUView>,
    k: int,
    before: Seq<ExprUView>,
    tail: Seq<char>,
)
    requires
        texts.len() == values.len(),
        1 <= k <= texts.len(),
        forall|i: int| 0 <= i < texts.len() ==> reads_as(#[trigger] texts[i], values[i]),
    ensures
        read_more(list_from(texts, k) + tail, before) == Ok::<
            (Seq<ExprUView>, Seq<char>),
            Seq<char>,
        >((before + values.skip(k), seq![']'] + tail)),
    decreases texts.len() - k,
{
    let s = list_from(texts, k) + tail;
    lemma_trim_nothing(s);
    if k == texts.len() {
        assert(s =~= seq![']'] + tail);
        assert(before + values.skip(k) =~= before);
    } else {
        let rest = list_from(texts, k + 1) + tail;
        let element = texts[k] + rest;
        assert(reads_as(texts[k], values[k]));
        assert(s =~= seq![','] + element);
        assert(s.skip(1) =~= element);
        assert(element[0] == texts[k][0]);
        lemma_trim_nothing(element);
        assert(read_separator(s) == Ok::<Seq<char>, Seq<char>>(element));
        lemma_list_from_starts(texts, k + 1, tail);
        assert(read_expr(texts[k] + rest) == Ok::<(ExprUView, Seq<char>), Seq<char>>(
            (values[k], rest),
        ));
        lemma_trim_nothing(rest);
        assert(read_value(element) == Ok::<(ExprUView, Seq<char>), Seq<char>>((values[k], rest)));
        lemma_more_reads(texts, values, k + 1, before.push(values[k]), tail);
        assert(before.push(values[k]) + values.skip(k + 1) =~= before + values.skip(k));
    }
}

/// A written list is read as the list of the values of its elements.
pub proof fn lemma_list_reads(texts: Seq<Seq<char>>, values: Seq<ExprUView>, tail: Seq<char>)
    requires
        texts.len() == values.len(),
        forall|i: int| 0 <= i < texts.len() ==> reads_as(#[trigger] texts[i], values[i]),
    ensures
        read_expr(bracketed(texts) + tail) == Ok::<(ExprUView, Seq<char>), Seq<char>>(
            (ExprUView::ListU(values), tail),
        ),
{
    let s = bracketed(texts) + tail;
    let closing = seq![']'] + tail;
    assert(closing.skip(1) =~= tail);
    if texts.len() == 0 {
        assert(s =~= seq!['['] + closing);
        assert(s.skip(1) =~= closing);
        lemma_trim_nothing(closing);
        lemma_no_expr(closing);
        assert(read_items(closing) is Err);
        assert(values =~= Seq::<ExprUView>::empty());
    } else {
        let rest = list_from(texts, 1) + tail;
        let inner = texts[0] + rest;
        assert(reads_as(texts[0], values[0]));
        assert(s =~= seq!['['] + inner);
        assert(s.skip(1) =~= inner);
        assert(inner[0] == texts[0][0]);
        lemma_trim_nothing(inner);
        lemma_list_from_starts(texts, 1, tail);
        assert(read_expr(texts[0] + rest) == Ok::<(ExprUView, Seq<char>), Seq<char>>(
            (values[0], rest),
        ));
        lemma_trim_nothing(rest);
        assert(read_value(inner) == Ok::<(ExprUView, Seq<char>), Seq<char>>((values[0], rest)));
        lemma_more_reads(texts, values, 1, seq![values[0]], tail);
        assert(seq![values[0]] + values.skip(1) =~= values);
        assert(read_items(inner) == Ok::<(Seq<ExprUView>, Seq<char>), Seq<char>>(
            (values, closing),
        ));
    }
    assert(read_list(s) == Ok::<(ExprUView, Seq<char>), Seq<char>>(
        (ExprUView::ListU(values), tail),
    ));
}

/// The keyword pair that a keyword is written as.
pub open spec fn keyword_pair(k: KeywordView) -> ExprUView {
    ExprUView::KeywordU { name: k.name, id: k.id }
}

/// The call that a category is written as.
pub open spec fn category_call(c: CategoryView) -> ExprUView {
    ExprUView::FnU {
        name: "category"@,
        args: seq![
            ExprUView::StringU(c.name),
            exactly_call(requirement_count(c.requirement)),
            ExprUView::ListU(Seq::new(c.keywords.len(), |j: int| keyword_pair(c.keywords[j]))),
        ],
    }
}

/// The call that a schema is written as.
pub open spec fn schema_call(s: SchemaView) -> ExprUView {
    ExprUView::FnU {
        name: "schema"@,
        args: seq![
            ExprUView::StringU(s.delim),
            ExprUView::StringU(s.empty),
            ExprUView::ListU(Seq::new(s.categories.len(), |ci: int| category_call(s.categories[ci]))),
        ],
    }
}

/// A category that can be written and read back: its name and the names
/// and ids of its keywords hold no double quote, and it requires exactly a
/// number of keywords.
pub open spec fn writable_category(c: CategoryView) -> bool {
    &&& plain(c.name)
    &&& c.requirement is Exactly
    &&& forall|j: int|
        0 <= j < c.keywords.len() ==> plain((#[trigger] c.keywords[j]).name) && plain(
            c.keywords[j].id,
        )
}

/// A schema that can be written and read back: none of its strings holds a
/// double quote, and each category requires exactly a number of keywords.
pub open spec fn writable(s: SchemaView) -> bool {
    &&& plain(s.delim)
    &&& plain(s.empty)
    &&& forall|ci: int| 0 <= ci < s.categories.len() ==> writable_category(#[trigger] s.categories[ci])
}

/// The three arguments of `category` and of `schema`, each behind one
/// space, are read one after the other, and reading ends at `rest`.
pub proof fn lemma_three_args_read(
    first: Seq<char>,
    second: Seq<char>,
    third: Seq<char>,
    rest: Seq<char>,
    a: ExprUView,
    b: ExprUView,
    c: ExprUView,
)
    requires
        first.len() > 0 && !in_class(first[0], Class::LineSpace),
        second.len() > 0 && !in_class(second[0], Class::LineSpace),
        third.len() > 0 && !in_class(third[0], Class::LineSpace),
        rest.len() == 0 || closes(rest[0]),
        read_expr(first + (seq![' '] + (second + (seq![' '] + (third + rest))))) == Ok::<
            (ExprUView, Seq<char>),
            Seq<char>,
        >((a, seq![' '] + (second + (seq![' '] + (third + rest))))),
        read_expr(second + (seq![' '] + (third + rest))) == Ok::<
            (ExprUView, Seq<char>),
            Seq<char>,
        >((b, seq![' '] + (third + rest))),
        read_expr(third + rest) == Ok::<(ExprUView, Seq<char>), Seq<char>>((c, rest)),
    ensures
        read_args(
            first + (seq![' '] + (second + (seq![' '] + (third + rest)))),
            Seq::empty(),
        ) == Ok::<(Seq<ExprUView>, Seq<char>), Seq<char>>((seq![a, b, c], rest)),
{
    let t3 = third + rest;
    let a2 = seq![' '] + t3;
    let t2 = second + a2;
    let a1 = seq![' '] + t2;
    let t1 = first + a1;
    assert(t3[0] == third[0]);
    assert(t2[0] == second[0]);
    lemma_word_ends_at_space(t2);
    lemma_word_ends_at_space(t3);
    lemma_word_ends_at_closer(rest);
    lemma_no_expr(rest);
    let none = Seq::<ExprUView>::empty();
    assert(read_args(rest, none.push(a).push(b).push(c)) == Ok::<
        (Seq<ExprUView>, Seq<char>),
        Seq<char>,
    >((none.push(a).push(b).push(c), rest)));
    assert(read_args(t3, none.push(a).push(b)) == read_args(rest, none.push(a).push(b).push(c)));
    assert(read_args(t2, none.push(a)) == read_args(t3, none.push(a).push(b)));
    assert(read_args(t1, none) == read_args(t2, none.push(a)));
    assert(none.push(a).push(b).push(c) =~= seq![a, b, c]);
}

/// A written keyword of a writable category reads as its keyword pair.
pub proof fn lemma_keyword_reads_as(k: KeywordView)
    requires
        plain(k.name),
        plain(k.id),
    ensures
        reads_as(written_keyword(k), keyword_pair(k)),
{
    assert(written_keyword(k)[0] == '"');
    assert forall|rest: Seq<char>|
        rest.len() > 0 && (rest[0] == ',' || rest[0] == ']') implies #[trigger] read_expr(
        written_keyword(k) + rest,
    ) == Ok::<(ExprUView, Seq<char>), Seq<char>>((keyword_pair(k), rest)) by {
        lemma_keyword_reads(k, rest);
    }
}

/// A written category is read as its call.
pub proof fn lemma_category_reads(c: CategoryView, rest: Seq<char>)
    requires
        writable_category(c),
        rest.len() == 0 || closes(rest[0]),
    ensures
        read_expr(written_category(c) + rest) == Ok::<(ExprUView, Seq<char>), Seq<char>>(
            (category_call(c), rest),
        ),
{
    reveal_strlit("category ");
    reveal_strlit("category");
    let n = requirement_count(c.requirement);
    let word = "category"@;
    let texts = written_keywords(c.keywords);
    let pairs = Seq::new(c.keywords.len(), |j: int| keyword_pair(c.keywords[j]));
    let first = quoted(c.name);
    let second = written_requirement(c.requirement);
    let third = bracketed(texts);
    let t3 = third + rest;
    let a2 = seq![' '] + t3;
    let t2 = second + a2;
    let a1 = seq![' '] + t2;
    let t1 = first + a1;
    let after_name = seq![' '] + t1;
    let s = written_category(c) + rest;
    assert("category "@ =~= word + seq![' ']);
    assert(s =~= word + after_name);
    assert(s[0] == word[0]);
    lemma_letter_starts_call(s);
    lemma_word_reads(word, after_name);
    assert(t1[0] == '"');
    lemma_word_ends_at_space(t1);
    // the arguments
    lemma_string_reads(c.name, a1);
    assert(c.requirement == Requirement::Exactly(n));
    lemma_requirement_reads(n, a2);
    assert forall|j: int| 0 <= j < texts.len() implies reads_as(
        #[trigger] texts[j],
        pairs[j],
    ) by {
        assert(plain(c.keywords[j].name));
        lemma_keyword_reads_as(c.keywords[j]);
    }
    lemma_list_reads(texts, pairs, rest);
    assert(second[0] == '(');
    assert(third[0] == '[');
    lemma_three_args_read(
        first,
        second,
        third,
        rest,
        ExprUView::StringU(c.name),
        exactly_call(n),
        ExprUView::ListU(pairs),
    );
    assert(read_func(s) == Ok::<(ExprUView, Seq<char>), Seq<char>>((category_call(c), rest)));
}

/// A written schema is read as its call.
pub proof fn lemma_schema_reads(s: SchemaView)
    requires
        writable(s),
    ensures
        read_document(written_schema(s)) == Ok::<ExprUView, ParseErrorView>(schema_call(s)),
{
    reveal_strlit("schema ");
    reveal_strlit("schema");
    let word = "schema"@;
    let texts = written_categories(s.categories);
    let calls = Seq::new(s.categories.len(), |ci: int| category_call(s.categories[ci]));
    let rest = Seq::<char>::empty();
    let first = quoted(s.delim);
    let second = quoted(s.empty);
    let third = bracketed(texts);
    let t3 = third + rest;
    let a2 = seq![' '] + t3;
    let t2 = second + a2;
    let a1 = seq![' '] + t2;
    let t1 = first + a1;
    let after_name = seq![' '] + t1;
    let text = written_schema(s);
    assert("schema "@ =~= word + seq![' ']);
    assert(text =~= word + after_name);
    assert(text[0] == word[0]);
    lemma_letter_starts_call(text);
    lemma_word_reads(word, after_name);
    assert(t1[0] == '"');
    lemma_word_ends_at_space(t1);
    lemma_string_reads(s.delim, a1);
    lemma_string_reads(s.empty, a2);
    assert forall|ci: int| 0 <= ci < texts.len() implies reads_as(
        #[trigger] texts[ci],
        calls[ci],
    ) by {
        let c = s.categories[ci];
        assert(writable_category(c));
        reveal_strlit("category ");
        assert(written_category(c)[0] == 'c');
        assert forall|rest: Seq<char>|
            rest.len() > 0 && (rest[0] == ',' || rest[0] == ']') implies #[trigger] read_expr(
            written_category(c) + rest,
        ) == Ok::<(ExprUView, Seq<char>), Seq<char>>((category_call(c), rest)) by {
            lemma_category_reads(c, rest);
        }
    }
    lemma_list_reads(texts, calls, rest);
    assert(second[0] == '"');
    assert(third[0] == '[');
    lemma_three_args_read(
        first,
        second,
        third,
        rest,
        ExprUView::StringU(s.delim),
        ExprUView::StringU(s.empty),
        ExprUView::ListU(calls),
    );
    assert(read_func(text) == Ok::<(ExprUView, Seq<char>), Seq<char>>((schema_call(s), rest)));
}

/// The call of `exactly` on a number has the requirement as its value.
pub proof fn lemma_requirement_checks(n: u8)
    ensures
        check(exactly_call(n)) == Ok::<ExprTView, TypeErrorView>(
            ExprTView::RequirementT(Requirement::Exactly(n)),
        ),
{
    let args = seq![ExprUView::NatU(n)];
    let params = seq![Type::Nat];
    assert(params_of("exactly"@) == Some(params));
    reveal_with_fuel(check_args, 2);
    assert(check(args[0]) == Ok::<ExprTView, TypeErrorView>(ExprTView::NatT(n)));
    assert(check_args(args, params, 0) == Ok::<Seq<ExprTView>, TypeErrorView>(Seq::empty()));
    let typed = Seq::<ExprTView>::empty().push(ExprTView::NatT(n));
    assert(check_args(args, params, 1) == Ok::<Seq<ExprTView>, TypeErrorView>(typed));
}

/// The call that a category is written as has the category as its value.
pub proof fn lemma_category_checks(c: CategoryView)
    requires
        c.requirement is Exactly,
    ensures
        check(category_call(c)) == Ok::<ExprTView, TypeErrorView>(ExprTView::CategoryT(c)),
{
    reveal_strlit("category");
    reveal_strlit("exactly");
    reveal_strlit("at_least");
    reveal_strlit("at_most");
    let n = requirement_count(c.requirement);
    let pairs = Seq::new(c.keywords.len(), |j: int| keyword_pair(c.keywords[j]));
    let args = seq![ExprUView::StringU(c.name), exactly_call(n), ExprUView::ListU(pairs)];
    let params = seq![Type::String, Type::Requirement, Type::List(Box::new(Type::Keyword))];
    assert("category"@.len() != "exactly"@.len());
    assert("category"@[0] != "at_least"@[0]);
    assert("category"@.len() != "at_most"@.len());
    assert(params_of("category"@) == Some(params));
    lemma_requirement_checks(n);
    keyword_list_checks_unchanged(pairs);
    let keywords = Seq::new(pairs.len(), |i: int| keyword_of(pairs[i]));
    let list = ExprTView::ListT(keywords);
    assert(check(args[2]) == Ok::<ExprTView, TypeErrorView>(list));
    if keywords.len() > 0 {
        assert(type_of_view(keywords[0]) == Type::Keyword);
    }
    assert(fits(params[2], type_of_view(list)));
    let none = Seq::<ExprTView>::empty();
    let typed = none.push(ExprTView::StringT(c.name)).push(
        ExprTView::RequirementT(Requirement::Exactly(n)),
    ).push(list);
    assert(check(args[0]) == Ok::<ExprTView, TypeErrorView>(ExprTView::StringT(c.name)));
    assert(check_args(args, params, 0) == Ok::<Seq<ExprTView>, TypeErrorView>(none));
    assert(check_args(args, params, 1) == Ok::<Seq<ExprTView>, TypeErrorView>(
        none.push(ExprTView::StringT(c.name)),
    ));
    assert(check_args(args, params, 2) == Ok::<Seq<ExprTView>, TypeErrorView>(
        none.push(ExprTView::StringT(c.name)).push(
            ExprTView::RequirementT(Requirement::Exactly(n)),
        ),
    ));
    assert(check_args(args, params, 3) == Ok::<Seq<ExprTView>, TypeErrorView>(typed));
    assert(keywords_in(keywords) =~= c.keywords);
    assert(applied("category"@, typed) == ExprTView::CategoryT(c));
}

/// The calls that categories are written as have the categories as their
/// values.
pub proof fn lemma_categories_check(categories: Seq<CategoryView>, n: nat)
    requires
        n <= categories.len(),
        forall|ci: int| 0 <= ci < categories.len() ==> (#[trigger] categories[ci]).requirement is Exactly,
    ensures
        check_items(Seq::new(categories.len(), |ci: int| category_call(categories[ci])), n)
            == Ok::<Seq<ExprTView>, TypeErrorView>(
            Seq::new(n, |ci: int| ExprTView::CategoryT(categories[ci])),
        ),
    decreases n,
{
    let calls = Seq::new(categories.len(), |ci: int| category_call(categories[ci]));
    if n > 0 {
        lemma_categories_check(categories, (n - 1) as nat);
        assert(categories[n - 1].requirement is Exactly);
        lemma_category_checks(categories[n - 1]);
        assert(Seq::new((n - 1) as nat, |ci: int| ExprTView::CategoryT(categories[ci])).push(
            ExprTView::CategoryT(categories[n - 1]),
        ) =~= Seq::new(n, |ci: int| ExprTView::CategoryT(categories[ci])));
    } else {
        assert(Seq::new(0, |ci: int| ExprTView::CategoryT(categories[ci]))
            =~= Seq::<ExprTView>::empty());
    }
}

/// The call that a schema is written as has the schema as its value.
pub proof fn lemma_schema_checks(s: SchemaView)
    requires
        forall|ci: int| 0 <= ci < s.categories.len() ==> (#[trigger] s.categories[ci]).requirement is Exactly,
    ensures
        check_schema(schema_call(s)) == Ok::<SchemaView, TypeErrorView>(s),
{
    reveal_strlit("schema");
    reveal_strlit("category");
    reveal_strlit("exactly");
    reveal_strlit("at_least");
    reveal_strlit("at_most");
    let calls = Seq::new(s.categories.len(), |ci: int| category_call(s.categories[ci]));
    let args = seq![ExprUView::StringU(s.delim), ExprUView::StringU(s.empty), ExprUView::ListU(calls)];
    let params = seq![Type::String, Type::String, Type::List(Box::new(Type::Category))];
    assert("schema"@.len() != "exactly"@.len());
    assert("schema"@.len() != "at_least"@.len());
    assert("schema"@.len() != "at_most"@.len());
    assert("schema"@.len() != "category"@.len());
    assert(params_of("schema"@) == Some(params));
    lemma_categories_check(s.categories, s.categories.len());
    let typed_categories = Seq::new(s.categories.len(), |ci: int| ExprTView::CategoryT(s.categories[ci]));
    assert(uniform(typed_categories));
    unify_is_idempotent(typed_categories);
    let list = ExprTView::ListT(typed_categories);
    assert(check(args[2]) == Ok::<ExprTView, TypeErrorView>(list));
    if typed_categories.len() > 0 {
        assert(type_of_view(typed_categories[0]) == Type::Category);
    }
    assert(fits(params[2], type_of_view(list)));
    let none = Seq::<ExprTView>::empty();
    let typed = none.push(ExprTView::StringT(s.delim)).push(ExprTView::StringT(s.empty)).push(list);
    assert(check(args[0]) == Ok::<ExprTView, TypeErrorView>(ExprTView::StringT(s.delim)));
    assert(check(args[1]) == Ok::<ExprTView, TypeErrorView>(ExprTView::StringT(s.empty)));
    assert(check_args(args, params, 0) == Ok::<Seq<ExprTView>, TypeErrorView>(none));
    assert(check_args(args, params, 1) == Ok::<Seq<ExprTView>, TypeErrorView>(
        none.push(ExprTView::StringT(s.delim)),
    ));
    assert(check_args(args, params, 2) == Ok::<Seq<ExprTView>, TypeErrorView>(
        none.push(ExprTView::StringT(s.delim)).push(ExprTView::StringT(s.empty)),
    ));
    assert(check_args(args, params, 3) == Ok::<Seq<ExprTView>, TypeErrorView>(typed));
    assert(categories_in(typed_categories) =~= s.categories);
    let made = SchemaView {
        delim: s.delim,
        empty: s.empty,
        categories: categories_in(typed_categories),
    };
    assert(made == s);
    assert(applied("schema"@, typed) == ExprTView::SchemaT(s));
}

/// A written schema reads back as itself.
///
/// For a schema that is writable, the text that it is written as parses,
/// and what was parsed has that schema as its value: parsing and type
/// checking undo the writing.
pub proof fn source_round_trip(s: SchemaView)
    requires
        writable(s),
    ensures
        read_document(written_schema(s)) matches Ok(tree) && check_schema(tree) == Ok::<
            SchemaView,
            TypeErrorView,
        >(s),
{
    lemma_schema_reads(s);
    assert forall|ci: int| 0 <= ci < s.categories.len() implies (#[trigger] s.categories[ci]).requirement is Exactly by {
        assert(writable_category(s.categories[ci]));
    }
    lemma_schema_checks(s);
}

} // verus!
