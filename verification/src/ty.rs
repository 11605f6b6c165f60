//! The model of a Rust type as bound inference reads it: its tokens (for
//! the generic parameters it mentions), its outer shape (references and
//! angle-bracketed paths), and its rendering.
use crate::chars::same_chars;
use vstd::prelude::*;

verus! {

/// The delimiter of a token group.
#[derive(Debug, Clone, Copy, PartialEq, Eq)]
pub enum Delimiter {
    Parenthesis,
    Brace,
    Bracket,
    /// An invisible group.
    Invisible,
}

/// Whether a punctuation character is joined to the next token (as in
/// `::` or `->`) or stands alone.
#[derive(Debug, Clone, Copy, PartialEq, Eq)]
pub enum Spacing {
    Alone,
    Joint,
}

/// One token tree of a type's token stream.
#[derive(Debug, PartialEq, Eq)]
pub enum TokenTree {
    Ident(String),
    Punct(char, Spacing),
    Literal(String),
    Group(Delimiter, Vec<TokenTree>),
}

/// A generic parameter of the type being derived for: a type, a lifetime
/// (named without its `'`) or a const.
#[derive(Debug, PartialEq, Eq)]
pub enum GenericParam {
    Type(String),
    Lifetime(String),
    Const(String),
}

/// A type, as written in a field or a source transformation.
#[derive(Debug, PartialEq, Eq)]
pub struct Ty {
    /// The type's tokens rendered as text (what `to_string` gives for them).
    pub text: String,
    /// The type's tokens.
    pub tokens: Vec<TokenTree>,
    /// The type's outer shape.
    pub shape: TyShape,
}

#[derive(Debug, PartialEq, Eq)]
pub enum TyShape {
    /// `&T`, `&'a T`, `&mut T`.
    Reference(Box<Ty>),
    /// A path type, by its segments.
    Path(Vec<PathSegment>),
    /// Any other type.
    Other,
}

#[derive(Debug, PartialEq, Eq)]
pub struct PathSegment {
    pub ident: String,
    pub arguments: PathArguments,
}

#[derive(Debug, PartialEq, Eq)]
pub enum PathArguments {
    /// No arguments.
    Bare,
    AngleBracketed(Vec<GenericArgument>),
    Parenthesized,
}

#[derive(Debug, PartialEq, Eq)]
pub enum GenericArgument {
    Type(Ty),
    /// A lifetime, const, binding or constraint.
    Other,
}

pub open spec fn param_name(p: GenericParam) -> Seq<char> {
    match p {
        GenericParam::Type(n) => n@,
        GenericParam::Lifetime(n) => n@,
        GenericParam::Const(n) => n@,
    }
}

/// Whether `name` names one of the parameters.
pub open spec fn is_param(generics: Seq<GenericParam>, name: Seq<char>) -> bool {
    exists|k: int| 0 <= k < generics.len() && param_name(#[trigger] generics[k]) == name
}

/// Whether a token tree holds, at any depth, an identifier that names a
/// parameter.
pub open spec fn tree_mentions(t: TokenTree, generics: Seq<GenericParam>) -> bool
    decreases t, 1nat,
{
    match t {
        TokenTree::Ident(i) => is_param(generics, i@),
        TokenTree::Group(_, ts) => trees_mention(ts@, generics),
        _ => false,
    }
}

/// Whether any of the token trees mentions a parameter.
pub open spec fn trees_mention(ts: Seq<TokenTree>, generics: Seq<GenericParam>) -> bool
    decreases ts, 0nat,
{
    if ts.len() == 0 {
        false
    } else {
        tree_mentions(ts[0], generics) || trees_mention(ts.drop_first(), generics)
    }
}

/// Whether the type mentions a generic parameter of the type being derived for.
pub open spec fn spec_depends_on_generics(ty: Ty, generics: Seq<GenericParam>) -> bool {
    trees_mention(ty.tokens@, generics)
}

/// The first type among generic arguments.
pub open spec fn first_type_arg(args: Seq<GenericArgument>) -> Option<Ty>
    decreases args.len(),
{
    if args.len() == 0 {
        None
    } else {
        match args[0] {
            GenericArgument::Type(t) => Some(t),
            GenericArgument::Other => first_type_arg(args.drop_first()),
        }
    }
}

/// The first type argument of `ty`, when `ty` is a path whose last segment
/// is `name<...>`.
pub open spec fn spec_inner_type(ty: Ty, name: Seq<char>) -> Option<Ty> {
    match ty.shape {
        TyShape::Path(segs) => if segs@.len() > 0 && segs@.last().ident@ == name {
            match segs@.last().arguments {
                PathArguments::AngleBracketed(args) => first_type_arg(args@),
                _ => None,
            }
        } else {
            None
        },
        _ => None,
    }
}

fn names_param(generics: &Vec<GenericParam>, name: &String) -> (r: bool)
    ensures
        r == is_param(generics@, name@),
{
    let mut k: usize = 0;
    while k < generics.len()
        invariant
            k <= generics@.len(),
            forall|j: int| 0 <= j < k ==> param_name(#[trigger] generics@[j]) != name@,
        decreases generics@.len() - k,
    {
        let p = match &generics[k] {
            GenericParam::Type(p) => p,
            GenericParam::Lifetime(p) => p,
            GenericParam::Const(p) => p,
        };
        if same_chars(p.as_str(), name.as_str()) {
            return true;
        }
        k += 1;
    }
    false
}

fn tree_mentions_exec(t: &TokenTree, generics: &Vec<GenericParam>) -> (r: bool)
    ensures
        r == tree_mentions(*t, generics@),
    decreases t, 1nat,
{
    match t {
        TokenTree::Ident(i) => names_param(generics, i),
        TokenTree::Group(_, ts) => trees_mention_exec(ts, generics),
        _ => false,
    }
}

fn trees_mention_exec(ts: &Vec<TokenTree>, generics: &Vec<GenericParam>) -> (r: bool)
    ensures
        r == trees_mention(ts@, generics@),
    decreases ts, 0nat,
{
    let mut k: usize = 0;
    assert(ts@.skip(0) =~= ts@);
    while k < ts.len()
        invariant
            k <= ts@.len(),
            trees_mention(ts@, generics@) == trees_mention(ts@.skip(k as int), generics@),
        decreases ts@.len() - k,
    {
        assert(decreases_to!(ts => ts@[k as int]));
        let found = tree_mentions_exec(&ts[k], generics);
        assert(ts@.skip(k as int).drop_first() =~= ts@.skip(k + 1));
        if found {
            return true;
        }
        k += 1;
    }
    false
}

/// Whether the type's tokens mention a generic parameter (type, lifetime or
/// const) of the type being derived for.
pub fn depends_on_generics(ty: &Ty, generics: &Vec<GenericParam>) -> (r: bool)
    ensures
        r == spec_depends_on_generics(*ty, generics@),
{
    trees_mention_exec(&ty.tokens, generics)
}

/// The first type argument of `ty` when it is spelled `...::name<...>`.
pub fn inner_type<'a>(ty: &'a Ty, name: &str) -> (r: Option<&'a Ty>)
    ensures
        match spec_inner_type(*ty, name@) {
            Some(t) => r is Some && *r->Some_0 == t,
            None => r is None,
        },
{
    let segs = match &ty.shape {
        TyShape::Path(segs) => segs,
        _ => {
            return None;
        },
    };
    if segs.len() == 0 {
        return None;
    }
    let last = &segs[segs.len() - 1];
    if !same_chars(last.ident.as_str(), name) {
        return None;
    }
    let args = match &last.arguments {
        PathArguments::AngleBracketed(args) => args,
        _ => {
            return None;
        },
    };
    let mut k: usize = 0;
    assert(args@.skip(0) =~= args@);
    assert(segs@.last() == *last);
    assert(spec_inner_type(*ty, name@) == first_type_arg(args@));
    while k < args.len()
        invariant
            spec_inner_type(*ty, name@) == first_type_arg(args@),
            k <= args@.len(),
            first_type_arg(args@) == first_type_arg(args@.skip(k as int)),
        decreases args@.len() - k,
    {
        assert(args@.skip(k as int).drop_first() =~= args@.skip(k + 1));
        assert(args@.skip(k as int)[0] == args@[k as int]);
        if let GenericArgument::Type(t) = &args[k] {
            assert(first_type_arg(args@.skip(k as int)) == Some(*t));
            return Some(t);
        }
        k += 1;
    }
    None
}

proof fn lemma_tree_mentions_monotone(t: TokenTree, g1: Seq<GenericParam>, g2: Seq<GenericParam>)
    requires
        forall|n: Seq<char>| is_param(g1, n) ==> is_param(g2, n),
    ensures
        tree_mentions(t, g1) ==> tree_mentions(t, g2),
    decreases t, 1nat,
{
    if let TokenTree::Group(_, ts) = t {
        lemma_trees_mention_monotone(ts@, g1, g2);
    }
}

proof fn lemma_trees_mention_monotone(ts: Seq<TokenTree>, g1: Seq<GenericParam>, g2: Seq<GenericParam>)
    requires
        forall|n: Seq<char>| is_param(g1, n) ==> is_param(g2, n),
    ensures
        trees_mention(ts, g1) ==> trees_mention(ts, g2),
    decreases ts, 0nat,
{
    if ts.len() > 0 {
        lemma_tree_mentions_monotone(ts[0], g1, g2);
        lemma_trees_mention_monotone(ts.drop_first(), g1, g2);
    }
}

/// A type that depends on some generic parameters still depends on them
/// when more parameters are declared.
pub proof fn law_dependence_survives_more_generics(ty: Ty, g1: Seq<GenericParam>, g2: Seq<GenericParam>)
    requires
        forall|n: Seq<char>| is_param(g1, n) ==> is_param(g2, n),
    ensures
        spec_depends_on_generics(ty, g1) ==> spec_depends_on_generics(ty, g2),
{
    lemma_trees_mention_monotone(ty.tokens@, g1, g2);
}

/// Without generic parameters, no type depends on them.
pub proof fn law_no_generics_no_dependence(ty: Ty)
    ensures
        !spec_depends_on_generics(ty, Seq::empty()),
{
    lemma_trees_mention_none(ty.tokens@);
}

proof fn lemma_tree_mentions_none(t: TokenTree)
    ensures
        !tree_mentions(t, Seq::empty()),
    decreases t, 1nat,
{
    if let TokenTree::Group(_, ts) = t {
        lemma_trees_mention_none(ts@);
    }
}

proof fn lemma_trees_mention_none(ts: Seq<TokenTree>)
    ensures
        !trees_mention(ts, Seq::empty()),
    decreases ts, 0nat,
{
    if ts.len() > 0 {
        lemma_tree_mentions_none(ts[0]);
        lemma_trees_mention_none(ts.drop_first());
    }
}

} // verus!
