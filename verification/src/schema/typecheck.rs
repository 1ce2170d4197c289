//! The type checker: from the untyped expression tree to a schema.

use vstd::prelude::*;
use vstd::pervasive::unreached;
use vstd::std_specs::vec::axiom_vec_index_decreases;
use crate::schema::{
    Category, CategoryView, Keyword, KeywordView, Requirement, Schema, SchemaView,
    category_views, keyword_views,
};
use crate::schema::expr::{ExprU, ExprUView, expr_views};

verus! {

/// The type of an expression.
#[derive(Debug, PartialEq, Eq, Hash)]
pub enum Type {
    String,
    Nat,
    Keyword,
    List(Box<Type>),
    Schema,
    Category,
    Requirement,
    /// The element type of an empty list, which its place decides.
    Hole,
}

/// A typed expression: the value that an expression stands for.
#[derive(Debug, PartialEq, Eq)]
pub enum ExprT {
    SchemaT(Schema),
    CategoryT(Category),
    KeywordT(Keyword),
    RequirementT(Requirement),
    NatT(u8),
    StringT(String),
    ListT(Vec<ExprT>),
}

/// Why an expression has no type.
#[derive(Debug, PartialEq, Eq)]
pub enum SchemaTypeCheckError {
    /// A call of a function that the language does not have.
    UnknownFunction(String),
    /// An argument of another type than its place asks for, a missing
    /// argument (`got` is a hole) or one too many (`expected` is a hole).
    TypeMismatch { expected: Type, got: Type },
    /// A list whose elements have these types, which no coercion unites.
    HeterogeneousListIsNotCoercable(Vec<Type>),
    /// The expression is well typed but is no schema.
    ExpectedTopLevelSchema,
}

/// A typed expression as plain values.
pub enum ExprTView {
    SchemaT(SchemaView),
    CategoryT(CategoryView),
    KeywordT(KeywordView),
    RequirementT(Requirement),
    NatT(u8),
    StringT(Seq<char>),
    ListT(Seq<ExprTView>),
}

/// An error of the type checker as plain values.
pub enum TypeErrorView {
    UnknownFunction(Seq<char>),
    TypeMismatch { expected: Type, got: Type },
    HeterogeneousListIsNotCoercable(Seq<Type>),
    ExpectedTopLevelSchema,
}

/// The views of a vector of typed expressions.
pub open spec fn typed_views(v: Seq<ExprT>) -> Seq<ExprTView>
    decreases v,
{
    Seq::new(
        v.len(),
        |i: int|
            if 0 <= i < v.len() {
                v[i]@
            } else {
                ExprTView::NatT(0)
            },
    )
}

impl View for ExprT {
    type V = ExprTView;

    open spec fn view(&self) -> ExprTView
        decreases self,
    {
        match self {
            ExprT::SchemaT(s) => ExprTView::SchemaT(s@),
            ExprT::CategoryT(c) => ExprTView::CategoryT(c@),
            ExprT::KeywordT(k) => ExprTView::KeywordT(k@),
            ExprT::RequirementT(r) => ExprTView::RequirementT(*r),
            ExprT::NatT(n) => ExprTView::NatT(*n),
            ExprT::StringT(s) => ExprTView::StringT(s@),
            ExprT::ListT(items) => ExprTView::ListT(typed_views(items@)),
        }
    }
}

impl View for SchemaTypeCheckError {
    type V = TypeErrorView;

    open spec fn view(&self) -> TypeErrorView {
        match self {
            SchemaTypeCheckError::UnknownFunction(name) => TypeErrorView::UnknownFunction(name@),
            SchemaTypeCheckError::TypeMismatch { expected, got } => TypeErrorView::TypeMismatch {
                expected: *expected,
                got: *got,
            },
            SchemaTypeCheckError::HeterogeneousListIsNotCoercable(types) => {
                TypeErrorView::HeterogeneousListIsNotCoercable(types@)
            },
            SchemaTypeCheckError::ExpectedTopLevelSchema => TypeErrorView::ExpectedTopLevelSchema,
        }
    }
}

/// A result of the type checker as plain values.
pub open spec fn typed_result(r: Result<ExprT, SchemaTypeCheckError>) -> Result<
    ExprTView,
    TypeErrorView,
> {
    match r {
        Ok(e) => Ok(e@),
        Err(e) => Err(e@),
    }
}

/// A result of the top-level check as plain values.
pub open spec fn schema_result(r: Result<Schema, SchemaTypeCheckError>) -> Result<
    SchemaView,
    TypeErrorView,
> {
    match r {
        Ok(s) => Ok(s@),
        Err(e) => Err(e@),
    }
}

impl Clone for Type {
    fn clone(&self) -> (r: Self)
        ensures
            r == *self,
        decreases self,
    {
        match self {
            Type::String => Type::String,
            Type::Nat => Type::Nat,
            Type::Keyword => Type::Keyword,
            Type::List(inner) => Type::List(Box::new((**inner).clone())),
            Type::Schema => Type::Schema,
            Type::Category => Type::Category,
            Type::Requirement => Type::Requirement,
            Type::Hole => Type::Hole,
        }
    }
}

impl Type {
    /// The word for a type in messages.
    pub open spec fn label(self) -> Seq<char> {
        match self {
            Type::String => "string"@,
            Type::Nat => "nat"@,
            Type::Keyword => "keyword"@,
            Type::List(_) => "list"@,
            Type::Schema => "schema"@,
            Type::Category => "category"@,
            Type::Requirement => "requirement"@,
            Type::Hole => "unknown"@,
        }
    }

    /// The word for a type in messages.
    pub fn to_string(&self) -> (r: String)
        ensures
            r@ == self.label(),
    {
        match self {
            Type::String => "string".to_owned(),
            Type::Nat => "nat".to_owned(),
            Type::Keyword => "keyword".to_owned(),
            Type::List(_) => "list".to_owned(),
            Type::Schema => "schema".to_owned(),
            Type::Category => "category".to_owned(),
            Type::Requirement => "requirement".to_owned(),
            Type::Hole => "unknown".to_owned(),
        }
    }
}

impl Clone for ExprT {
    fn clone(&self) -> (r: Self)
        ensures
            r@ == self@,
        decreases self,
    {
        match self {
            ExprT::SchemaT(s) => ExprT::SchemaT(s.clone()),
            ExprT::CategoryT(c) => ExprT::CategoryT(c.clone()),
            ExprT::KeywordT(k) => ExprT::KeywordT(k.clone()),
            ExprT::RequirementT(r) => ExprT::RequirementT(*r),
            ExprT::NatT(n) => ExprT::NatT(*n),
            ExprT::StringT(s) => ExprT::StringT(s.clone()),
            ExprT::ListT(items) => {
                let mut copy: Vec<ExprT> = Vec::new();
                let mut i: usize = 0;
                while i < items.len()
                    invariant
                        *self == ExprT::ListT(*items),
                        i <= items.len(),
                        copy@.len() == i,
                        forall|k: int| 0 <= k < i ==> (#[trigger] copy@[k])@ == items@[k]@,
                    decreases items.len() - i,
                {
                    proof {
                        axiom_vec_index_decreases(*items, i as int);
                        assert(self->ListT_0 == *items);
                    }
                    copy.push(items[i].clone());
                    i += 1;
                }
                assert(typed_views(copy@) =~= typed_views(items@));
                ExprT::ListT(copy)
            },
        }
    }
}

/// Whether two types are the same.
pub fn same_type(a: &Type, b: &Type) -> (r: bool)
    ensures
        r == (*a == *b),
    decreases a,
{
    match (a, b) {
        (Type::String, Type::String) => true,
        (Type::Nat, Type::Nat) => true,
        (Type::Keyword, Type::Keyword) => true,
        (Type::List(x), Type::List(y)) => same_type(&**x, &**y),
        (Type::Schema, Type::Schema) => true,
        (Type::Category, Type::Category) => true,
        (Type::Requirement, Type::Requirement) => true,
        (Type::Hole, Type::Hole) => true,
        _ => false,
    }
}

/// The type of a typed expression. A list has the type of its first
/// element; an empty list has a hole for it.
pub open spec fn type_of_view(e: ExprTView) -> Type
    decreases e,
{
    match e {
        ExprTView::SchemaT(_) => Type::Schema,
        ExprTView::RequirementT(_) => Type::Requirement,
        ExprTView::CategoryT(_) => Type::Category,
        ExprTView::NatT(_) => Type::Nat,
        ExprTView::StringT(_) => Type::String,
        ExprTView::KeywordT(_) => Type::Keyword,
        ExprTView::ListT(items) => if items.len() == 0 {
            Type::List(Box::new(Type::Hole))
        } else {
            Type::List(Box::new(type_of_view(items[0])))
        },
    }
}

/// The type of a typed expression.
pub fn type_of(expr: &ExprT) -> (t: Type)
    ensures
        t == type_of_view(expr@),
    decreases expr,
{
    match expr {
        ExprT::SchemaT(_) => Type::Schema,
        ExprT::RequirementT(_) => Type::Requirement,
        ExprT::CategoryT(_) => Type::Category,
        ExprT::NatT(_) => Type::Nat,
        ExprT::StringT(_) => Type::String,
        ExprT::KeywordT(_) => Type::Keyword,
        ExprT::ListT(items) => {
            assert(expr@ == ExprTView::ListT(typed_views(items@)));
            assert(typed_views(items@).len() == items@.len());
            if items.len() == 0 {
                Type::List(Box::new(Type::Hole))
            } else {
                proof {
                    axiom_vec_index_decreases(*items, 0);
                    assert(expr->ListT_0 == *items);
                    assert(typed_views(items@)[0] == items@[0]@);
                }
                Type::List(Box::new(type_of(&items[0])))
            }
        },
    }
}

/// The types of the first `n` elements, each once, in the order in which
/// they first occur.
pub open spec fn distinct_types(items: Seq<ExprTView>, n: nat) -> Seq<Type>
    decreases n,
{
    if n == 0 {
        Seq::empty()
    } else {
        let before = distinct_types(items, (n - 1) as nat);
        let t = type_of_view(items[n - 1]);
        if before.contains(t) {
            before
        } else {
            before.push(t)
        }
    }
}

/// A plain string read as a keyword whose name and id are that string;
/// anything else as it is.
pub open spec fn coerced(e: ExprTView) -> ExprTView {
    match e {
        ExprTView::StringT(s) => ExprTView::KeywordT(KeywordView { name: s, id: s }),
        _ => e,
    }
}

/// The one pair of element types that a list may mix: strings and keywords.
pub open spec fn coercible(types: Seq<Type>) -> bool {
    types.len() == 2 && ((types[0] == Type::String && types[1] == Type::Keyword) || (types[0]
        == Type::Keyword && types[1] == Type::String))
}

/// The elements of a list made to agree in type. Elements of at most one
/// type stay as they are. Strings among keywords become keywords. Any other
/// mixture is refused with the types found.
pub open spec fn unify(items: Seq<ExprTView>) -> Result<Seq<ExprTView>, Seq<Type>> {
    let types = distinct_types(items, items.len());
    if types.len() <= 1 {
        Ok(items)
    } else if coercible(types) {
        Ok(Seq::new(items.len(), |i: int| coerced(items[i])))
    } else {
        Err(types)
    }
}

/// Every element's type is among the distinct types.
pub proof fn lemma_distinct_types_cover(items: Seq<ExprTView>, n: nat, i: int)
    requires
        0 <= i < n,
    ensures
        distinct_types(items, n).contains(type_of_view(items[i])),
    decreases n,
{
    let before = distinct_types(items, (n - 1) as nat);
    let t = type_of_view(items[n - 1]);
    if i < n - 1 {
        lemma_distinct_types_cover(items, (n - 1) as nat, i);
        let w = choose|k: int| 0 <= k < before.len() && before[k] == type_of_view(items[i]);
        if !before.contains(t) {
            assert(before.push(t)[w] == type_of_view(items[i]));
        }
    } else {
        if !before.contains(t) {
            assert(before.push(t)[before.len() as int] == t);
        }
    }
}

/// Whether `t` is among `types`.
pub fn contains_type(types: &Vec<Type>, t: &Type) -> (r: bool)
    ensures
        r == types@.contains(*t),
{
    let mut k: usize = 0;
    while k < types.len()
        invariant
            k <= types.len(),
            forall|j: int| 0 <= j < k ==> types@[j] != *t,
        decreases types.len() - k,
    {
        if same_type(&types[k], t) {
            return true;
        }
        k += 1;
    }
    false
}

/// Makes the elements of a list agree in type, or reports the types found.
pub fn unify_list(items: Vec<ExprT>) -> (r: Result<Vec<ExprT>, Vec<Type>>)
    ensures
        match r {
            Ok(unified) => unify(typed_views(items@)) == Ok::<Seq<ExprTView>, Seq<Type>>(
                typed_views(unified@),
            ),
            Err(types) => unify(typed_views(items@)) == Err::<Seq<ExprTView>, Seq<Type>>(types@),
        },
{
    let ghost elements = typed_views(items@);
    let mut types: Vec<Type> = Vec::new();
    let mut i: usize = 0;
    while i < items.len()
        invariant
            i <= items.len(),
            elements == typed_views(items@),
            types@ == distinct_types(elements, i as nat),
        decreases items.len() - i,
    {
        let t = type_of(&items[i]);
        assert(elements[i as int] == items@[i as int]@);
        if !contains_type(&types, &t) {
            types.push(t);
        }
        i += 1;
    }
    if types.len() <= 1 {
        return Ok(items);
    }
    let mixes = types.len() == 2 && ((same_type(&types[0], &Type::String) && same_type(
        &types[1],
        &Type::Keyword,
    )) || (same_type(&types[0], &Type::Keyword) && same_type(&types[1], &Type::String)));
    if !mixes {
        return Err(types);
    }
    let mut unified: Vec<ExprT> = Vec::new();
    let mut k: usize = 0;
    while k < items.len()
        invariant
            k <= items.len(),
            elements == typed_views(items@),
            types@ == distinct_types(elements, items.len() as nat),
            coercible(types@),
            unified@.len() == k,
            forall|j: int| 0 <= j < k ==> (#[trigger] unified@[j])@ == coerced(elements[j]),
        decreases items.len() - k,
    {
        proof {
            lemma_distinct_types_cover(elements, items.len() as nat, k as int);
            assert(elements[k as int] == items@[k as int]@);
        }
        match &items[k] {
            ExprT::StringT(s) => {
                unified.push(ExprT::KeywordT(Keyword { name: s.clone(), id: s.clone() }));
            },
            ExprT::KeywordT(keyword) => {
                unified.push(ExprT::KeywordT(keyword.clone()));
            },
            _ => {
                assert(false);
            },
        }
        k += 1;
    }
    assert(typed_views(unified@) =~= Seq::new(elements.len(), |i: int| coerced(elements[i])));
    Ok(unified)
}

/// The types of the arguments that a function takes, by its name; `None`
/// for a name that the language does not have.
pub open spec fn params_of(name: Seq<char>) -> Option<Seq<Type>> {
    if name == "exactly"@ || name == "at_least"@ || name == "at_most"@ {
        Some(seq![Type::Nat])
    } else if name == "category"@ {
        Some(seq![Type::String, Type::Requirement, Type::List(Box::new(Type::Keyword))])
    } else if name == "schema"@ {
        Some(seq![Type::String, Type::String, Type::List(Box::new(Type::Category))])
    } else {
        None
    }
}

/// An argument of type `got` may stand where `expected` is asked for: the
/// types are the same, or a list is asked for and the argument is the empty
/// list, whose element type its place decides.
pub open spec fn fits(expected: Type, got: Type) -> bool {
    got == expected || (expected is List && got == Type::List(Box::new(Type::Hole)))
}

/// The keywords that the elements of a list of keywords hold.
pub open spec fn keywords_in(items: Seq<ExprTView>) -> Seq<KeywordView> {
    Seq::new(items.len(), |i: int| items[i]->KeywordT_0)
}

/// The categories that the elements of a list of categories hold.
pub open spec fn categories_in(items: Seq<ExprTView>) -> Seq<CategoryView> {
    Seq::new(items.len(), |i: int| items[i]->CategoryT_0)
}

/// The value of a call of `name` on arguments of the types that it takes.
pub open spec fn applied(name: Seq<char>, args: Seq<ExprTView>) -> ExprTView {
    if name == "exactly"@ {
        ExprTView::RequirementT(Requirement::Exactly(args[0]->NatT_0))
    } else if name == "at_least"@ {
        ExprTView::RequirementT(Requirement::AtLeast(args[0]->NatT_0))
    } else if name == "at_most"@ {
        ExprTView::RequirementT(Requirement::AtMost(args[0]->NatT_0))
    } else if name == "category"@ {
        ExprTView::CategoryT(
            CategoryView {
                name: args[0]->StringT_0,
                requirement: args[1]->RequirementT_0,
                keywords: keywords_in(args[2]->ListT_0),
            },
        )
    } else {
        ExprTView::SchemaT(
            SchemaView {
                delim: args[0]->StringT_0,
                empty: args[1]->StringT_0,
                categories: categories_in(args[2]->ListT_0),
            },
        )
    }
}

/// The typed value of an expression, or the first error on the way.
///
/// Literals and keyword pairs stand for themselves. The elements of a list
/// are checked from the left and then made to agree in type. A call is
/// looked up by its name; its arguments are checked from the left against
/// the types that the function takes, and an argument too many is checked
/// and then refused.
pub open spec fn check(e: ExprUView) -> Result<ExprTView, TypeErrorView>
    decreases e, 0nat,
{
    match e {
        ExprUView::NatU(n) => Ok(ExprTView::NatT(n)),
        ExprUView::StringU(s) => Ok(ExprTView::StringT(s)),
        ExprUView::KeywordU { name, id } => Ok(ExprTView::KeywordT(KeywordView { name, id })),
        ExprUView::ListU(items) => match check_items(items, items.len()) {
            Err(e) => Err(e),
            Ok(typed) => match unify(typed) {
                Ok(unified) => Ok(ExprTView::ListT(unified)),
                Err(types) => Err(TypeErrorView::HeterogeneousListIsNotCoercable(types)),
            },
        },
        ExprUView::FnU { name, args } => match params_of(name) {
            None => Err(TypeErrorView::UnknownFunction(name)),
            Some(params) => match check_args(args, params, params.len()) {
                Err(e) => Err(e),
                Ok(typed) => if params.len() < args.len() {
                    match check(args[params.len() as int]) {
                        Err(e) => Err(e),
                        Ok(extra) => Err(
                            TypeErrorView::TypeMismatch {
                                expected: Type::Hole,
                                got: type_of_view(extra),
                            },
                        ),
                    }
                } else {
                    Ok(applied(name, typed))
                },
            },
        },
    }
}

/// The typed values of the first `n` elements of a list, or the first error.
pub open spec fn check_items(items: Seq<ExprUView>, n: nat) -> Result<
    Seq<ExprTView>,
    TypeErrorView,
>
    decreases items, n,
{
    if n == 0 || n > items.len() {
        Ok(Seq::empty())
    } else {
        match check_items(items, (n - 1) as nat) {
            Err(e) => Err(e),
            Ok(before) => match check(items[n - 1]) {
                Err(e) => Err(e),
                Ok(typed) => Ok(before.push(typed)),
            },
        }
    }
}

/// The typed values of the arguments for the first `n` parameters, or the
/// first error: a missing argument, an argument's own error, or an argument
/// of a type that does not fit.
pub open spec fn check_args(args: Seq<ExprUView>, params: Seq<Type>, n: nat) -> Result<
    Seq<ExprTView>,
    TypeErrorView,
>
    decreases args, n,
{
    if n == 0 || n > params.len() {
        Ok(Seq::empty())
    } else {
        match check_args(args, params, (n - 1) as nat) {
            Err(e) => Err(e),
            Ok(before) => if n - 1 >= args.len() {
                Err(TypeErrorView::TypeMismatch { expected: params[n - 1], got: Type::Hole })
            } else {
                match check(args[n - 1]) {
                    Err(e) => Err(e),
                    Ok(typed) => if fits(params[n - 1], type_of_view(typed)) {
                        Ok(before.push(typed))
                    } else {
                        Err(
                            TypeErrorView::TypeMismatch {
                                expected: params[n - 1],
                                got: type_of_view(typed),
                            },
                        )
                    },
                }
            },
        }
    }
}

/// The schema that an expression stands for.
pub open spec fn check_schema(e: ExprUView) -> Result<SchemaView, TypeErrorView> {
    match check(e) {
        Ok(ExprTView::SchemaT(schema)) => Ok(schema),
        Ok(_) => Err(TypeErrorView::ExpectedTopLevelSchema),
        Err(e) => Err(e),
    }
}

/// All elements have the type of the first.
pub open spec fn uniform(items: Seq<ExprTView>) -> bool {
    forall|i: int| 0 <= i < items.len() ==> type_of_view(#[trigger] items[i]) == type_of_view(items[0])
}

/// What `unify` lets through has elements of one type.
pub proof fn lemma_unify_uniform(items: Seq<ExprTView>)
    ensures
        unify(items) matches Ok(unified) ==> uniform(unified),
{
    let types = distinct_types(items, items.len());
    if types.len() <= 1 {
        assert forall|i: int| 0 <= i < items.len() implies type_of_view(#[trigger] items[i])
            == type_of_view(items[0]) by {
            lemma_distinct_types_cover(items, items.len(), i);
            lemma_distinct_types_cover(items, items.len(), 0);
        }
    } else if coercible(types) {
        let unified = Seq::new(items.len(), |i: int| coerced(items[i]));
        assert forall|i: int| 0 <= i < unified.len() implies type_of_view(#[trigger] unified[i])
            == Type::Keyword by {
            lemma_distinct_types_cover(items, items.len(), i);
        }
    }
}

/// Elements of one type have that one type as their distinct types.
pub proof fn lemma_distinct_types_uniform(items: Seq<ExprTView>, n: nat)
    requires
        uniform(items),
        n <= items.len(),
    ensures
        distinct_types(items, n) == if n == 0 {
            Seq::<Type>::empty()
        } else {
            seq![type_of_view(items[0])]
        },
    decreases n,
{
    if n > 0 {
        lemma_distinct_types_uniform(items, (n - 1) as nat);
        let t = type_of_view(items[0]);
        assert(type_of_view(items[n - 1]) == t);
        if n > 1 {
            assert(seq![t][0] == t);
        } else {
            assert(Seq::<Type>::empty().push(t) =~= seq![t]);
        }
    }
}

/// Making a list agree in type is idempotent.
///
/// A list whose elements have one type already comes out as it went in: in
/// particular a list of keywords is not touched by the coercion of strings.
/// And what comes out of `unify` has one type, so that a second pass
/// changes nothing.
pub proof fn unify_is_idempotent(items: Seq<ExprTView>)
    ensures
        uniform(items) ==> unify(items) == Ok::<Seq<ExprTView>, Seq<Type>>(items),
        unify(items) matches Ok(unified) ==> unify(unified) == Ok::<Seq<ExprTView>, Seq<Type>>(
            unified,
        ),
{
    if uniform(items) {
        lemma_distinct_types_uniform(items, items.len());
    }
    match unify(items) {
        Ok(unified) => {
            lemma_unify_uniform(items);
            lemma_distinct_types_uniform(unified, unified.len());
        },
        Err(_) => {},
    }
}

/// A list of mixed types is refused.
///
/// Where two elements of a list differ in type and one of them is neither
/// a string nor a keyword, the list is refused, and the error names the
/// types of both: numbers and strings, for one, do not mix.
pub proof fn mixed_list_is_refused(items: Seq<ExprTView>, i: int, j: int)
    requires
        0 <= i < items.len(),
        0 <= j < items.len(),
        type_of_view(items[i]) != type_of_view(items[j]),
        type_of_view(items[i]) != Type::String,
        type_of_view(items[i]) != Type::Keyword,
    ensures
        unify(items) matches Err(types) && types.contains(type_of_view(items[i]))
            && types.contains(type_of_view(items[j])),
{
    let types = distinct_types(items, items.len());
    lemma_distinct_types_cover(items, items.len(), i);
    lemma_distinct_types_cover(items, items.len(), j);
    let a = choose|k: int| 0 <= k < types.len() && types[k] == type_of_view(items[i]);
    let b = choose|k: int| 0 <= k < types.len() && types[k] == type_of_view(items[j]);
    assert(a != b);
}

/// The keyword that a keyword pair stands for.
pub open spec fn keyword_of(e: ExprUView) -> ExprTView {
    ExprTView::KeywordT(KeywordView { name: e->KeywordU_name, id: e->KeywordU_id })
}

/// A list of keyword pairs has the keywords as its typed elements.
pub proof fn lemma_check_keyword_items(items: Seq<ExprUView>, n: nat)
    requires
        n <= items.len(),
        forall|i: int| 0 <= i < items.len() ==> (#[trigger] items[i]) is KeywordU,
    ensures
        check_items(items, n) == Ok::<Seq<ExprTView>, TypeErrorView>(
            Seq::new(n, |i: int| keyword_of(items[i])),
        ),
    decreases n,
{
    if n > 0 {
        lemma_check_keyword_items(items, (n - 1) as nat);
        assert(items[n - 1] is KeywordU);
        assert(check(items[n - 1]) == Ok::<ExprTView, TypeErrorView>(keyword_of(items[n - 1])));
        assert(Seq::new((n - 1) as nat, |i: int| keyword_of(items[i])).push(
            keyword_of(items[n - 1]),
        ) =~= Seq::new(n, |i: int| keyword_of(items[i])));
    } else {
        assert(Seq::new(0, |i: int| keyword_of(items[i])) =~= Seq::<ExprTView>::empty());
    }
}

/// A list of keyword pairs checks to the list of those keywords, each as
/// it was written.
pub proof fn keyword_list_checks_unchanged(items: Seq<ExprUView>)
    requires
        forall|i: int| 0 <= i < items.len() ==> (#[trigger] items[i]) is KeywordU,
    ensures
        check(ExprUView::ListU(items)) == Ok::<ExprTView, TypeErrorView>(
            ExprTView::ListT(Seq::new(items.len(), |i: int| keyword_of(items[i]))),
        ),
{
    let typed = Seq::new(items.len(), |i: int| keyword_of(items[i]));
    lemma_check_keyword_items(items, items.len());
    assert(uniform(typed));
    unify_is_idempotent(typed);
}

/// A list that the type checker lets through has elements of one type.
pub proof fn lemma_check_list_uniform(e: ExprUView)
    ensures
        check(e) matches Ok(ExprTView::ListT(items)) ==> uniform(items),
{
    match e {
        ExprUView::ListU(items) => {
            match check_items(items, items.len()) {
                Ok(typed) => {
                    lemma_unify_uniform(typed);
                },
                Err(_) => {},
            }
        },
        _ => {},
    }
}

/// Once an element has failed, the error stays.
pub proof fn lemma_check_items_error(items: Seq<ExprUView>, i: nat, n: nat)
    requires
        i <= n <= items.len(),
        check_items(items, i) is Err,
    ensures
        check_items(items, n) == check_items(items, i),
    decreases n,
{
    if i < n {
        lemma_check_items_error(items, i, (n - 1) as nat);
    }
}

/// Once an argument has failed, the error stays.
pub proof fn lemma_check_args_error(args: Seq<ExprUView>, params: Seq<Type>, i: nat, n: nat)
    requires
        i <= n <= params.len(),
        check_args(args, params, i) is Err,
    ensures
        check_args(args, params, n) == check_args(args, params, i),
    decreases n,
{
    if i < n {
        lemma_check_args_error(args, params, i, (n - 1) as nat);
    }
}

/// Whether `name` is the word `word`.
fn is_name(name: &String, word: &str) -> (r: bool)
    ensures
        r == (name@ == word@),
{
    let w = word.to_owned();
    *name == w
}

/// The types of the arguments that the function `name` takes.
fn parameters(name: &String) -> (r: Option<Vec<Type>>)
    ensures
        match r {
            Some(params) => params_of(name@) == Some(params@),
            None => params_of(name@) is None,
        },
{
    if is_name(name, "exactly") || is_name(name, "at_least") || is_name(name, "at_most") {
        let params = vec![Type::Nat];
        assert(params@ =~= seq![Type::Nat]);
        Some(params)
    } else if is_name(name, "category") {
        let params = vec![Type::String, Type::Requirement, Type::List(Box::new(Type::Keyword))];
        assert(params@ =~= seq![
            Type::String,
            Type::Requirement,
            Type::List(Box::new(Type::Keyword)),
        ]);
        Some(params)
    } else if is_name(name, "schema") {
        let params = vec![Type::String, Type::String, Type::List(Box::new(Type::Category))];
        assert(params@ =~= seq![
            Type::String,
            Type::String,
            Type::List(Box::new(Type::Category)),
        ]);
        Some(params)
    } else {
        None
    }
}

/// Whether an argument of type `got` may stand where `expected` is asked for.
fn fits_type(expected: &Type, got: &Type) -> (r: bool)
    ensures
        r == fits(*expected, *got),
{
    if same_type(got, expected) {
        return true;
    }
    match expected {
        Type::List(_) => same_type(got, &Type::List(Box::new(Type::Hole))),
        _ => false,
    }
}

/// The keywords of a list whose elements are keywords.
fn keywords_of(items: &Vec<ExprT>) -> (r: Vec<Keyword>)
    requires
        forall|i: int| 0 <= i < items@.len() ==> (#[trigger] items@[i])@ is KeywordT,
    ensures
        keyword_views(r@) == keywords_in(typed_views(items@)),
{
    let mut out: Vec<Keyword> = Vec::new();
    let mut i: usize = 0;
    while i < items.len()
        invariant
            i <= items.len(),
            out@.len() == i,
            forall|k: int| 0 <= k < items@.len() ==> (#[trigger] items@[k])@ is KeywordT,
            forall|k: int| 0 <= k < i ==> (#[trigger] out@[k])@ == items@[k]@->KeywordT_0,
        decreases items.len() - i,
    {
        assert(items@[i as int]@ is KeywordT);
        match &items[i] {
            ExprT::KeywordT(keyword) => {
                out.push(keyword.clone());
            },
            _ => {
                assert(false);
            },
        }
        i += 1;
    }
    assert(keyword_views(out@) =~= keywords_in(typed_views(items@)));
    out
}

/// The categories of a list whose elements are categories.
fn categories_of(items: &Vec<ExprT>) -> (r: Vec<Category>)
    requires
        forall|i: int| 0 <= i < items@.len() ==> (#[trigger] items@[i])@ is CategoryT,
    ensures
        category_views(r@) == categories_in(typed_views(items@)),
{
    let mut out: Vec<Category> = Vec::new();
    let mut i: usize = 0;
    while i < items.len()
        invariant
            i <= items.len(),
            out@.len() == i,
            forall|k: int| 0 <= k < items@.len() ==> (#[trigger] items@[k])@ is CategoryT,
            forall|k: int| 0 <= k < i ==> (#[trigger] out@[k])@ == items@[k]@->CategoryT_0,
        decreases items.len() - i,
    {
        assert(items@[i as int]@ is CategoryT);
        match &items[i] {
            ExprT::CategoryT(category) => {
                out.push(category.clone());
            },
            _ => {
                assert(false);
            },
        }
        i += 1;
    }
    assert(category_views(out@) =~= categories_in(typed_views(items@)));
    out
}

/// The arguments fit the parameters, and each list among them has elements
/// of one type.
pub open spec fn well_typed_args(params: Seq<Type>, args: Seq<ExprTView>) -> bool {
    &&& args.len() == params.len()
    &&& forall|i: int|
        0 <= i < args.len() ==> fits(params[i], type_of_view(#[trigger] args[i]))
    &&& forall|i: int|
        0 <= i < args.len() ==> ((#[trigger] args[i]) matches ExprTView::ListT(items)
            ==> uniform(items))
}

/// A uniform list that fits a list of `t` holds only elements of type `t`.
proof fn lemma_fitting_list(t: Type, items: Seq<ExprTView>)
    requires
        uniform(items),
        !(t is List),
        t != Type::Hole,
        fits(Type::List(Box::new(t)), type_of_view(ExprTView::ListT(items))),
    ensures
        forall|i: int| 0 <= i < items.len() ==> type_of_view(#[trigger] items[i]) == t,
{
}

/// The value of a call of `name` on arguments that fit.
fn apply(name: &String, args: Vec<ExprT>) -> (r: ExprT)
    requires
        params_of(name@) matches Some(params) && well_typed_args(params, typed_views(args@)),
    ensures
        r@ == applied(name@, typed_views(args@)),
{
    let ghost given = typed_views(args@);
    let ghost params = params_of(name@)->Some_0;
    let mut args = args;
    proof {
        assert forall|i: int| 0 <= i < given.len() implies given[i] == (#[trigger] args@[i])@ by {}
    }
    if is_name(name, "exactly") || is_name(name, "at_least") || is_name(name, "at_most") {
        assert(fits(params[0], type_of_view(given[0])));
        match args.pop() {
            Some(ExprT::NatT(n)) => {
                if is_name(name, "exactly") {
                    ExprT::RequirementT(Requirement::Exactly(n))
                } else if is_name(name, "at_least") {
                    ExprT::RequirementT(Requirement::AtLeast(n))
                } else {
                    ExprT::RequirementT(Requirement::AtMost(n))
                }
            },
            _ => {
                proof {
                    assert(false);
                }
                unreached()
            },
        }
    } else {
        assert(fits(params[0], type_of_view(given[0])));
        assert(fits(params[1], type_of_view(given[1])));
        assert(fits(params[2], type_of_view(given[2])));
        let third = args.pop();
        let second = args.pop();
        let first = args.pop();
        if is_name(name, "category") {
            match (first, second, third) {
                (
                    Some(ExprT::StringT(label)),
                    Some(ExprT::RequirementT(requirement)),
                    Some(ExprT::ListT(items)),
                ) => {
                    proof {
                        assert(given[2] == ExprTView::ListT(typed_views(items@)));
                        lemma_fitting_list(Type::Keyword, typed_views(items@));
                        assert forall|i: int| 0 <= i < items@.len() implies (
                        #[trigger] items@[i])@ is KeywordT by {
                            assert(typed_views(items@)[i] == items@[i]@);
                        }
                    }
                    let keywords = keywords_of(&items);
                    ExprT::CategoryT(Category { name: label, requirement, keywords })
                },
                _ => {
                    proof {
                        assert(false);
                    }
                    unreached()
                },
            }
        } else {
            match (first, second, third) {
                (
                    Some(ExprT::StringT(delim)),
                    Some(ExprT::StringT(empty)),
                    Some(ExprT::ListT(items)),
                ) => {
                    proof {
                        assert(given[2] == ExprTView::ListT(typed_views(items@)));
                        lemma_fitting_list(Type::Category, typed_views(items@));
                        assert forall|i: int| 0 <= i < items@.len() implies (
                        #[trigger] items@[i])@ is CategoryT by {
                            assert(typed_views(items@)[i] == items@[i]@);
                        }
                    }
                    let categories = categories_of(&items);
                    ExprT::SchemaT(Schema { delim, empty, categories })
                },
                _ => {
                    proof {
                        assert(false);
                    }
                    unreached()
                },
            }
        }
    }
}

/// The typed value of an expression, or the first error on the way.
pub fn check_expr(expr: &ExprU) -> (r: Result<ExprT, SchemaTypeCheckError>)
    ensures
        typed_result(r) == check(expr@),
    decreases expr,
{
    match expr {
        ExprU::NatU(n) => Ok(ExprT::NatT(*n)),
        ExprU::StringU(s) => Ok(ExprT::StringT(s.clone())),
        ExprU::KeywordU { name, id } => Ok(
            ExprT::KeywordT(Keyword { name: name.clone(), id: id.clone() }),
        ),
        ExprU::ListU(items) => {
            let ghost elements = expr_views(items@);
            assert(expr@ == ExprUView::ListU(elements));
            let mut typed: Vec<ExprT> = Vec::new();
            let mut i: usize = 0;
            assert(typed_views(typed@) =~= Seq::<ExprTView>::empty());
            while i < items.len()
                invariant
                    *expr == ExprU::ListU(*items),
                    elements == expr_views(items@),
                    i <= items.len(),
                    typed@.len() == i,
                    check_items(elements, i as nat) == Ok::<Seq<ExprTView>, TypeErrorView>(
                        typed_views(typed@),
                    ),
                decreases items.len() - i,
            {
                proof {
                    axiom_vec_index_decreases(*items, i as int);
                    assert(expr->ListU_0 == *items);
                    assert(elements[i as int] == items@[i as int]@);
                }
                match check_expr(&items[i]) {
                    Err(e) => {
                        proof {
                            assert(check_items(elements, (i + 1) as nat) is Err);
                            lemma_check_items_error(
                                elements,
                                (i + 1) as nat,
                                elements.len(),
                            );
                        }
                        return Err(e);
                    },
                    Ok(t) => {
                        assert(typed_views(typed@.push(t)) =~= typed_views(typed@).push(t@));
                        typed.push(t);
                    },
                }
                i += 1;
            }
            match unify_list(typed) {
                Ok(unified) => Ok(ExprT::ListT(unified)),
                Err(types) => Err(SchemaTypeCheckError::HeterogeneousListIsNotCoercable(types)),
            }
        },
        ExprU::FnU { name, args } => {
            let ghost given = expr_views(args@);
            assert(expr@ == (ExprUView::FnU { name: name@, args: given }));
            let params = match parameters(name) {
                None => {
                    return Err(SchemaTypeCheckError::UnknownFunction(name.clone()));
                },
                Some(params) => params,
            };
            let mut typed: Vec<ExprT> = Vec::new();
            let mut i: usize = 0;
            assert(typed_views(typed@) =~= Seq::<ExprTView>::empty());
            while i < params.len()
                invariant
                    *expr == (ExprU::FnU { name: *name, args: *args }),
                    given == expr_views(args@),
                    i <= params.len(),
                    typed@.len() == i,
                    check_args(given, params@, i as nat) == Ok::<Seq<ExprTView>, TypeErrorView>(
                        typed_views(typed@),
                    ),
                    forall|k: int|
                        0 <= k < i ==> fits(
                            params@[k],
                            type_of_view(#[trigger] typed_views(typed@)[k]),
                        ),
                    forall|k: int|
                        0 <= k < i ==> ((#[trigger] typed_views(typed@)[k]) matches ExprTView::ListT(
                            items,
                        ) ==> uniform(items)),
                    params_of(name@) == Some(params@),
                    expr@ == (ExprUView::FnU { name: name@, args: given }),
                decreases params.len() - i,
            {
                if i >= args.len() {
                    proof {
                        assert(check_args(given, params@, (i + 1) as nat) is Err);
                        lemma_check_args_error(given, params@, (i + 1) as nat, params@.len());
                    }
                    return Err(
                        SchemaTypeCheckError::TypeMismatch {
                            expected: params[i].clone(),
                            got: Type::Hole,
                        },
                    );
                }
                proof {
                    axiom_vec_index_decreases(*args, i as int);
                    assert(expr->args == *args);
                    assert(given[i as int] == args@[i as int]@);
                    lemma_check_list_uniform(given[i as int]);
                }
                let t = match check_expr(&args[i]) {
                    Err(e) => {
                        proof {
                            assert(check_args(given, params@, (i + 1) as nat) is Err);
                            lemma_check_args_error(given, params@, (i + 1) as nat, params@.len());
                        }
                        return Err(e);
                    },
                    Ok(t) => t,
                };
                let got = type_of(&t);
                if !fits_type(&params[i], &got) {
                    proof {
                        assert(check_args(given, params@, (i + 1) as nat) is Err);
                        lemma_check_args_error(given, params@, (i + 1) as nat, params@.len());
                    }
                    return Err(
                        SchemaTypeCheckError::TypeMismatch { expected: params[i].clone(), got },
                    );
                }
                proof {
                    let before = typed_views(typed@);
                    assert(typed_views(typed@.push(t)) =~= before.push(t@));
                    assert forall|k: int| 0 <= k < i + 1 implies fits(
                        params@[k],
                        type_of_view(#[trigger] before.push(t@)[k]),
                    ) by {
                        if k < i {
                            assert(before.push(t@)[k] == before[k]);
                        }
                    }
                    assert forall|k: int| 0 <= k < i + 1 implies ((#[trigger] before.push(
                        t@,
                    )[k]) matches ExprTView::ListT(items) ==> uniform(items)) by {
                        if k < i {
                            assert(before.push(t@)[k] == before[k]);
                        }
                    }
                }
                typed.push(t);
                i += 1;
            }
            if params.len() < args.len() {
                proof {
                    axiom_vec_index_decreases(*args, params.len() as int);
                    assert(expr->args == *args);
                    assert(given[params.len() as int] == args@[params.len() as int]@);
                }
                return match check_expr(&args[params.len()]) {
                    Err(e) => Err(e),
                    Ok(extra) => Err(
                        SchemaTypeCheckError::TypeMismatch {
                            expected: Type::Hole,
                            got: type_of(&extra),
                        },
                    ),
                };
            }
            Ok(apply(name, typed))
        },
    }
}

/// The typed value of an expression.
///
/// Literals and keyword pairs stand for themselves. The elements of a list
/// are checked from the left and must then agree in type, where a plain
/// string among keywords counts as the keyword of that name and id. A call
/// is one of `exactly`, `at_least`, `at_most` (one number), `category` (a
/// string, a requirement, a list of keywords) and `schema` (two strings, a
/// list of categories); its arguments are checked from the left.
pub fn typecheck_(expr: ExprU) -> (r: Result<ExprT, SchemaTypeCheckError>)
    ensures
        typed_result(r) == check(expr@),
{
    check_expr(&expr)
}

/// The schema that an expression stands for: its typed value where that is
/// a schema, `ExpectedTopLevelSchema` where it is another value, and the
/// expression's own error where it has no type.
pub fn typecheck(expr: ExprU) -> (r: Result<Schema, SchemaTypeCheckError>)
    ensures
        schema_result(r) == check_schema(expr@),
{
    match typecheck_(expr) {
        Ok(ExprT::SchemaT(schema)) => Ok(schema),
        Ok(_) => Err(SchemaTypeCheckError::ExpectedTopLevelSchema),
        Err(e) => Err(e),
    }
}

} // verus!
