//! The `#[snafu(...)]` attributes of a tuple struct (an opaque error): which
//! are allowed there, which may appear at most once, and what they carry.
use crate::container::WherePredicate;
use crate::ty::{GenericParam, Ty, TokenTree};
use vstd::prelude::*;

verus! {

/// `source(from(...))`.
#[derive(Debug, PartialEq, Eq)]
pub enum SourceFrom {
    /// `source(from(exact))`: the field takes the source as it is.
    Exact,
    /// `source(from(Type, expr))`: the source of type `ty` is converted by `expr`.
    Transform { ty: Ty, expr: Vec<TokenTree> },
}

/// One parsed `#[snafu(...)]` attribute (doc comments included), with what
/// it carries where a tuple struct can use it.
#[derive(Debug, PartialEq, Eq)]
pub enum Attribute {
    Backtrace,
    ContextFlag,
    ContextName,
    ContextSuffix,
    CrateRoot(Vec<TokenTree>),
    Display,
    DisplayBounds(Vec<WherePredicate>),
    ErrorBounds(Vec<WherePredicate>),
    ErrorCompatBounds(Vec<WherePredicate>),
    DocComment,
    Implicit,
    Module,
    ProvideFlag,
    ProvideExpression(Vec<TokenTree>),
    SourceFlag,
    SourceFrom(SourceFrom),
    Transparent,
    Visibility,
    Whatever,
}

/// A misplaced or repeated attribute, by its index among the attributes,
/// or a tuple struct without exactly one field.
#[derive(Debug, Clone, Copy, PartialEq, Eq)]
pub enum AttrError {
    /// A flag that a tuple struct does not accept.
    InvalidFlag(usize),
    /// An attribute that a tuple struct does not accept.
    Invalid(usize),
    /// A repeat of an attribute that may appear once.
    Duplicate(usize),
    /// The tuple struct has this many fields, not one.
    FieldCount(usize),
}

/// The attributes that may appear at most once on a tuple struct.
#[derive(Debug, Clone, Copy, PartialEq, Eq)]
pub enum OnceKind {
    CrateRoot,
    DisplayBounds,
    ErrorBounds,
    ErrorCompatBounds,
    SourceFrom,
}

pub open spec fn is_invalid_flag(a: Attribute) -> bool {
    ||| a is Backtrace
    ||| a is ContextFlag
    ||| a is Implicit
    ||| a is ProvideFlag
    ||| a is SourceFlag
    ||| a is Transparent
}

pub open spec fn is_invalid(a: Attribute) -> bool {
    ||| a is ContextName
    ||| a is ContextSuffix
    ||| a is Display
    ||| a is Module
    ||| a is Visibility
    ||| a is Whatever
}

pub open spec fn once_kind(a: Attribute) -> Option<OnceKind> {
    match a {
        Attribute::CrateRoot(_) => Some(OnceKind::CrateRoot),
        Attribute::DisplayBounds(_) => Some(OnceKind::DisplayBounds),
        Attribute::ErrorBounds(_) => Some(OnceKind::ErrorBounds),
        Attribute::ErrorCompatBounds(_) => Some(OnceKind::ErrorCompatBounds),
        Attribute::SourceFrom(_) => Some(OnceKind::SourceFrom),
        _ => None,
    }
}

/// The errors for attributes that a tuple struct does not accept, in order.
pub open spec fn misuse_errors(attrs: Seq<Attribute>) -> Seq<AttrError>
    decreases attrs.len(),
{
    if attrs.len() == 0 {
        Seq::empty()
    } else {
        let prev = misuse_errors(attrs.drop_last());
        let i = (attrs.len() - 1) as usize;
        if is_invalid_flag(attrs.last()) {
            prev.push(AttrError::InvalidFlag(i))
        } else if is_invalid(attrs.last()) {
            prev.push(AttrError::Invalid(i))
        } else {
            prev
        }
    }
}

/// The indices of the attributes of one kind, in order.
pub open spec fn occurrences(attrs: Seq<Attribute>, k: OnceKind) -> Seq<usize>
    decreases attrs.len(),
{
    if attrs.len() == 0 {
        Seq::empty()
    } else {
        let prev = occurrences(attrs.drop_last(), k);
        if once_kind(attrs.last()) == Some(k) {
            prev.push((attrs.len() - 1) as usize)
        } else {
            prev
        }
    }
}

/// A `Duplicate` error for each index after the first.
pub open spec fn repeats(indices: Seq<usize>) -> Seq<AttrError> {
    if indices.len() == 0 {
        Seq::empty()
    } else {
        indices.drop_first().map_values(|i: usize| AttrError::Duplicate(i))
    }
}

/// One error for each repeat of an attribute of kind `k`.
pub open spec fn duplicate_errors(attrs: Seq<Attribute>, k: OnceKind) -> Seq<AttrError> {
    repeats(occurrences(attrs, k))
}

pub proof fn lemma_occurrences_in_range(attrs: Seq<Attribute>, k: OnceKind)
    requires
        attrs.len() <= usize::MAX,
    ensures
        forall|j: int|
            0 <= j < occurrences(attrs, k).len() ==> #[trigger] occurrences(attrs, k)[j]
                < attrs.len() && once_kind(attrs[occurrences(attrs, k)[j] as int]) == Some(k),
    decreases attrs.len(),
{
    if attrs.len() > 0 {
        lemma_occurrences_in_range(attrs.drop_last(), k);
        let prev = occurrences(attrs.drop_last(), k);
        assert forall|j: int| 0 <= j < prev.len() implies #[trigger] prev[j] < attrs.len()
            && once_kind(attrs[prev[j] as int]) == Some(k) by {
            assert(prev[j] < attrs.drop_last().len());
            assert(attrs.drop_last()[prev[j] as int] == attrs[prev[j] as int]);
        }
        let all = occurrences(attrs, k);
        assert forall|j: int| 0 <= j < all.len() implies #[trigger] all[j] < attrs.len()
            && once_kind(attrs[all[j] as int]) == Some(k) by {
            if j < prev.len() {
                assert(all[j] == prev[j]);
            }
        }
    }
}

pub open spec fn deref_payloads<'a>(v: Seq<&'a Vec<TokenTree>>) -> Seq<Vec<TokenTree>> {
    v.map_values(|p: &'a Vec<TokenTree>| *p)
}

/// Every error of a tuple struct's attributes: misplaced ones in order, then
/// repeats by kind.
pub open spec fn attribute_errors(attrs: Seq<Attribute>) -> Seq<AttrError> {
    misuse_errors(attrs) + duplicate_errors(attrs, OnceKind::CrateRoot) + duplicate_errors(
        attrs,
        OnceKind::DisplayBounds,
    ) + duplicate_errors(attrs, OnceKind::ErrorBounds) + duplicate_errors(
        attrs,
        OnceKind::ErrorCompatBounds,
    ) + duplicate_errors(attrs, OnceKind::SourceFrom)
}

/// The payloads of `provide(...)` expressions, in order.
pub open spec fn provided(attrs: Seq<Attribute>) -> Seq<Vec<TokenTree>>
    decreases attrs.len(),
{
    if attrs.len() == 0 {
        Seq::empty()
    } else {
        let prev = provided(attrs.drop_last());
        match attrs.last() {
            Attribute::ProvideExpression(p) => prev.push(p),
            _ => prev,
        }
    }
}

/// The attribute of kind `k`, when there is one.
pub open spec fn the_one(attrs: Seq<Attribute>, k: OnceKind) -> Option<Attribute> {
    if occurrences(attrs, k).len() > 0 {
        Some(attrs[occurrences(attrs, k)[0] as int])
    } else {
        None
    }
}

proof fn lemma_occurrences_contain(attrs: Seq<Attribute>, k: OnceKind, i: int)
    requires
        attrs.len() <= usize::MAX,
        0 <= i < attrs.len(),
        once_kind(attrs[i]) == Some(k),
    ensures
        occurrences(attrs, k).contains(i as usize),
    decreases attrs.len(),
{
    if i < attrs.len() - 1 {
        assert(attrs.drop_last()[i] == attrs[i]);
        lemma_occurrences_contain(attrs.drop_last(), k, i);
        let prev = occurrences(attrs.drop_last(), k);
        let j = choose|j: int| 0 <= j < prev.len() && prev[j] == i as usize;
        assert(occurrences(attrs, k)[j] == i as usize);
    } else {
        let all = occurrences(attrs, k);
        assert(all[all.len() - 1] == i as usize);
    }
}

/// An attribute that may appear once is refused when it appears twice.
pub proof fn law_repeated_attribute_is_refused(attrs: Seq<Attribute>, i: int, j: int, k: OnceKind)
    requires
        attrs.len() <= usize::MAX,
        0 <= i < j < attrs.len(),
        once_kind(attrs[i]) == Some(k),
        once_kind(attrs[j]) == Some(k),
    ensures
        attribute_errors(attrs).len() > 0,
{
    lemma_occurrences_contain(attrs, k, i);
    lemma_occurrences_contain(attrs, k, j);
    let occ = occurrences(attrs, k);
    assert(occ.len() >= 2) by {
        let a = choose|a: int| 0 <= a < occ.len() && occ[a] == i as usize;
        let b = choose|b: int| 0 <= b < occ.len() && occ[b] == j as usize;
        assert(a != b);
    }
    assert(duplicate_errors(attrs, k).len() > 0);
}

/// An attribute that a tuple struct does not accept is refused.
pub proof fn law_misplaced_attribute_is_refused(attrs: Seq<Attribute>, i: int)
    requires
        0 <= i < attrs.len(),
        is_invalid(attrs[i]) || is_invalid_flag(attrs[i]),
    ensures
        attribute_errors(attrs).len() > 0,
{
    lemma_misuse_reported(attrs, i);
}

proof fn lemma_misuse_reported(attrs: Seq<Attribute>, i: int)
    requires
        0 <= i < attrs.len(),
        is_invalid(attrs[i]) || is_invalid_flag(attrs[i]),
    ensures
        misuse_errors(attrs).len() > 0,
    decreases attrs.len(),
{
    if i < attrs.len() - 1 {
        assert(attrs.drop_last()[i] == attrs[i]);
        lemma_misuse_reported(attrs.drop_last(), i);
    }
}

proof fn lemma_occurrences_increasing(attrs: Seq<Attribute>, k: OnceKind)
    requires
        attrs.len() <= usize::MAX,
    ensures
        forall|a: int, b: int|
            0 <= a < b < occurrences(attrs, k).len() ==> #[trigger] occurrences(attrs, k)[a]
                < #[trigger] occurrences(attrs, k)[b],
    decreases attrs.len(),
{
    if attrs.len() > 0 {
        lemma_occurrences_increasing(attrs.drop_last(), k);
        lemma_occurrences_in_range(attrs.drop_last(), k);
        let prev = occurrences(attrs.drop_last(), k);
        let all = occurrences(attrs, k);
        assert forall|a: int, b: int| 0 <= a < b < all.len() implies #[trigger] all[a]
            < #[trigger] all[b] by {
            assert(all[a] == prev[a]);
            if b < prev.len() {
                assert(all[b] == prev[b]);
            } else {
                assert(prev[a] < attrs.drop_last().len());
            }
        }
    }
}

/// Which attribute of a kind that may appear once takes effect: the first
/// of that kind, and none when no attribute is of that kind. (Where the
/// attributes have no errors, that first one is the only one.)
pub proof fn law_attribute_presence(attrs: Seq<Attribute>, k: OnceKind)
    requires
        attrs.len() <= usize::MAX,
    ensures
        (forall|i: int| 0 <= i < attrs.len() ==> once_kind(#[trigger] attrs[i]) != Some(k))
            ==> the_one(attrs, k) is None,
        forall|i: int|
            0 <= i < attrs.len() && once_kind(#[trigger] attrs[i]) == Some(k) && (forall|j: int|
                0 <= j < i ==> once_kind(#[trigger] attrs[j]) != Some(k)) ==> the_one(attrs, k)
                == Some(attrs[i]),
{
    lemma_occurrences_in_range(attrs, k);
    lemma_occurrences_increasing(attrs, k);
    let occ = occurrences(attrs, k);
    if occ.len() > 0 {
        assert(once_kind(attrs[occ[0] as int]) == Some(k));
    }
    assert forall|i: int|
        0 <= i < attrs.len() && once_kind(#[trigger] attrs[i]) == Some(k) && (forall|j: int|
            0 <= j < i ==> once_kind(#[trigger] attrs[j]) != Some(k)) implies the_one(attrs, k)
        == Some(attrs[i]) by {
        lemma_occurrences_contain(attrs, k, i);
        let m = choose|m: int| 0 <= m < occ.len() && occ[m] == i as usize;
        assert(once_kind(attrs[occ[0] as int]) == Some(k));
        if m > 0 {
            assert(occ[0] < occ[m]);
        }
        assert(occ[0] == i as usize);
    }
}

/// What a tuple struct's attributes set.
#[derive(Debug)]
pub struct Attributes<'a> {
    pub display_bounds: Option<&'a Vec<WherePredicate>>,
    pub error_bounds: Option<&'a Vec<WherePredicate>>,
    pub error_compat_bounds: Option<&'a Vec<WherePredicate>>,
    pub crate_root: Option<&'a Vec<TokenTree>>,
    pub provide_expressions: Vec<&'a Vec<TokenTree>>,
    pub source_from: Option<&'a SourceFrom>,
}

pub open spec fn bounds_of(a: Option<Attribute>) -> Option<Vec<WherePredicate>> {
    match a {
        Some(Attribute::DisplayBounds(p)) => Some(p),
        Some(Attribute::ErrorBounds(p)) => Some(p),
        Some(Attribute::ErrorCompatBounds(p)) => Some(p),
        _ => None,
    }
}

pub open spec fn opt_view<'a, T>(o: Option<&'a T>) -> Option<T> {
    match o {
        Some(x) => Some(*x),
        None => None,
    }
}

impl<'a> Attributes<'a> {
    /// What the attributes set, read as `from_syn` reads them.
    pub open spec fn matches_attrs(self, attrs: Seq<Attribute>) -> bool {
        &&& opt_view(self.display_bounds) == bounds_of(the_one(attrs, OnceKind::DisplayBounds))
        &&& opt_view(self.error_bounds) == bounds_of(the_one(attrs, OnceKind::ErrorBounds))
        &&& opt_view(self.error_compat_bounds) == bounds_of(
            the_one(attrs, OnceKind::ErrorCompatBounds),
        )
        &&& opt_view(self.crate_root) == match the_one(attrs, OnceKind::CrateRoot) {
            Some(Attribute::CrateRoot(r)) => Some(r),
            _ => None,
        }
        &&& deref_payloads(self.provide_expressions@) == provided(attrs)
        &&& opt_view(self.source_from) == match the_one(attrs, OnceKind::SourceFrom) {
            Some(Attribute::SourceFrom(s)) => Some(s),
            _ => None,
        }
    }

    /// Reads a tuple struct's attributes: misplaced attributes and repeats
    /// of the attributes that may appear once are errors.
    pub fn from_syn(attrs: &'a Vec<Attribute>) -> (r: Result<Attributes<'a>, Vec<AttrError>>)
        ensures
            attribute_errors(attrs@).len() == 0 ==> r is Ok && r->Ok_0.matches_attrs(attrs@),
            attribute_errors(attrs@).len() > 0 ==> r is Err && r->Err_0@ == attribute_errors(
                attrs@,
            ),
    {
        let mut errors: Vec<AttrError> = Vec::new();
        let mut crate_roots: Vec<usize> = Vec::new();
        let mut display_bounds: Vec<usize> = Vec::new();
        let mut error_bounds: Vec<usize> = Vec::new();
        let mut error_compat_bounds: Vec<usize> = Vec::new();
        let mut source_froms: Vec<usize> = Vec::new();
        let mut provide_expressions: Vec<&'a Vec<TokenTree>> = Vec::new();
        let mut i: usize = 0;
        assert(attrs@.take(0) =~= Seq::<Attribute>::empty());
        while i < attrs.len()
            invariant
                i <= attrs@.len(),
                errors@ == misuse_errors(attrs@.take(i as int)),
                crate_roots@ == occurrences(attrs@.take(i as int), OnceKind::CrateRoot),
                display_bounds@ == occurrences(attrs@.take(i as int), OnceKind::DisplayBounds),
                error_bounds@ == occurrences(attrs@.take(i as int), OnceKind::ErrorBounds),
                error_compat_bounds@ == occurrences(
                    attrs@.take(i as int),
                    OnceKind::ErrorCompatBounds,
                ),
                source_froms@ == occurrences(attrs@.take(i as int), OnceKind::SourceFrom),
                deref_payloads(provide_expressions@) == provided(attrs@.take(i as int)),
            decreases attrs@.len() - i,
        {
            let ghost pre = attrs@.take(i as int);
            assert(attrs@.take(i + 1).drop_last() =~= pre);
            assert(attrs@.take(i + 1).last() == attrs@[i as int]);
            let ghost before = provide_expressions@;
            match &attrs[i] {
                Attribute::Backtrace | Attribute::ContextFlag | Attribute::Implicit
                | Attribute::ProvideFlag | Attribute::SourceFlag | Attribute::Transparent => {
                    errors.push(AttrError::InvalidFlag(i));
                },
                Attribute::ContextName | Attribute::ContextSuffix | Attribute::Display
                | Attribute::Module | Attribute::Visibility | Attribute::Whatever => {
                    errors.push(AttrError::Invalid(i));
                },
                Attribute::CrateRoot(_) => crate_roots.push(i),
                Attribute::DisplayBounds(_) => display_bounds.push(i),
                Attribute::ErrorBounds(_) => error_bounds.push(i),
                Attribute::ErrorCompatBounds(_) => error_compat_bounds.push(i),
                Attribute::DocComment => {},
                Attribute::ProvideExpression(p) => {
                    provide_expressions.push(p);
                    assert(deref_payloads(provide_expressions@) =~= deref_payloads(before).push(
                        *p,
                    ));
                },
                Attribute::SourceFrom(_) => source_froms.push(i),
            }
            proof {
                if !(attrs@[i as int] is ProvideExpression) {
                    assert(provide_expressions@ == before);
                }
            }
            i += 1;
        }
        assert(attrs@.take(attrs@.len() as int) =~= attrs@);
        proof {
            lemma_occurrences_in_range(attrs@, OnceKind::CrateRoot);
            lemma_occurrences_in_range(attrs@, OnceKind::DisplayBounds);
            lemma_occurrences_in_range(attrs@, OnceKind::ErrorBounds);
            lemma_occurrences_in_range(attrs@, OnceKind::ErrorCompatBounds);
            lemma_occurrences_in_range(attrs@, OnceKind::SourceFrom);
        }
        push_duplicates(&mut errors, &crate_roots);
        push_duplicates(&mut errors, &display_bounds);
        push_duplicates(&mut errors, &error_bounds);
        push_duplicates(&mut errors, &error_compat_bounds);
        push_duplicates(&mut errors, &source_froms);
        assert(errors@ =~= attribute_errors(attrs@));
        if errors.len() > 0 {
            return Err(errors);
        }
        let crate_root = match first_of(&crate_roots, attrs) {
            Some(Attribute::CrateRoot(r)) => Some(r),
            _ => None,
        };
        let display_bounds = match first_of(&display_bounds, attrs) {
            Some(Attribute::DisplayBounds(p)) => Some(p),
            _ => None,
        };
        let error_bounds = match first_of(&error_bounds, attrs) {
            Some(Attribute::ErrorBounds(p)) => Some(p),
            _ => None,
        };
        let error_compat_bounds = match first_of(&error_compat_bounds, attrs) {
            Some(Attribute::ErrorCompatBounds(p)) => Some(p),
            _ => None,
        };
        let source_from = match first_of(&source_froms, attrs) {
            Some(Attribute::SourceFrom(s)) => Some(s),
            _ => None,
        };
        let r = Attributes {
            display_bounds,
            error_bounds,
            error_compat_bounds,
            crate_root,
            provide_expressions,
            source_from,
        };
        assert(opt_view(r.display_bounds) == bounds_of(the_one(attrs@, OnceKind::DisplayBounds)));
        assert(opt_view(r.error_bounds) == bounds_of(the_one(attrs@, OnceKind::ErrorBounds)));
        assert(opt_view(r.crate_root) == match the_one(attrs@, OnceKind::CrateRoot) {
            Some(Attribute::CrateRoot(r)) => Some(r),
            _ => None,
        });
        assert(deref_payloads(r.provide_expressions@) == provided(attrs@));
        Ok(r)
    }
}

proof fn lemma_misuse_listed(attrs: Seq<Attribute>, i: int)
    requires
        attrs.len() <= usize::MAX,
        0 <= i < attrs.len(),
    ensures
        is_invalid_flag(attrs[i]) ==> misuse_errors(attrs).contains(AttrError::InvalidFlag(i as usize)),
        !is_invalid_flag(attrs[i]) && is_invalid(attrs[i]) ==> misuse_errors(attrs).contains(
            AttrError::Invalid(i as usize),
        ),
    decreases attrs.len(),
{
    let all = misuse_errors(attrs);
    if i == attrs.len() - 1 {
        if is_invalid_flag(attrs[i]) || is_invalid(attrs[i]) {
            assert(all[all.len() - 1] == all.last());
        }
    } else {
        assert(attrs.drop_last()[i] == attrs[i]);
        lemma_misuse_listed(attrs.drop_last(), i);
        let prev = misuse_errors(attrs.drop_last());
        if is_invalid_flag(attrs[i]) {
            let k = choose|k: int| 0 <= k < prev.len() && prev[k] == AttrError::InvalidFlag(i as usize);
            assert(all[k] == prev[k]);
        } else if is_invalid(attrs[i]) {
            let k = choose|k: int| 0 <= k < prev.len() && prev[k] == AttrError::Invalid(i as usize);
            assert(all[k] == prev[k]);
        }
    }
}

/// A tuple struct accepts neither context, display, module, visibility nor
/// `whatever` attributes, nor the backtrace, context, implicit, provide,
/// source and transparent flags: each one is reported at its index.
pub proof fn law_each_misplaced_attribute_is_reported(attrs: Seq<Attribute>)
    requires
        attrs.len() <= usize::MAX,
    ensures
        forall|i: int|
            0 <= i < attrs.len() && (#[trigger] attrs[i] is ContextName || attrs[i] is ContextSuffix
                || attrs[i] is Display || attrs[i] is Module || attrs[i] is Visibility
                || attrs[i] is Whatever) ==> attribute_errors(attrs).contains(
                AttrError::Invalid(i as usize),
            ),
        forall|i: int|
            0 <= i < attrs.len() && (#[trigger] attrs[i] is Backtrace || attrs[i] is ContextFlag
                || attrs[i] is Implicit || attrs[i] is ProvideFlag || attrs[i] is SourceFlag
                || attrs[i] is Transparent) ==> attribute_errors(attrs).contains(
                AttrError::InvalidFlag(i as usize),
            ),
{
    let all = attribute_errors(attrs);
    let mis = misuse_errors(attrs);
    assert forall|i: int|
        0 <= i < attrs.len() && (#[trigger] attrs[i] is ContextName || attrs[i] is ContextSuffix
            || attrs[i] is Display || attrs[i] is Module || attrs[i] is Visibility
            || attrs[i] is Whatever) implies all.contains(AttrError::Invalid(i as usize)) by {
        lemma_misuse_listed(attrs, i);
        let k = choose|k: int| 0 <= k < mis.len() && mis[k] == AttrError::Invalid(i as usize);
        assert(all[k] == mis[k]);
    }
    assert forall|i: int|
        0 <= i < attrs.len() && (#[trigger] attrs[i] is Backtrace || attrs[i] is ContextFlag
            || attrs[i] is Implicit || attrs[i] is ProvideFlag || attrs[i] is SourceFlag
            || attrs[i] is Transparent) implies all.contains(AttrError::InvalidFlag(i as usize)) by {
        lemma_misuse_listed(attrs, i);
        let k = choose|k: int| 0 <= k < mis.len() && mis[k] == AttrError::InvalidFlag(i as usize);
        assert(all[k] == mis[k]);
    }
}

/// Whether some attribute is of kind `k`.
pub open spec fn present(attrs: Seq<Attribute>, k: OnceKind) -> bool {
    exists|i: int| 0 <= i < attrs.len() && once_kind(#[trigger] attrs[i]) == Some(k)
}

proof fn lemma_no_repeats(attrs: Seq<Attribute>, k: OnceKind)
    requires
        attrs.len() <= usize::MAX,
        attribute_errors(attrs).len() == 0,
    ensures
        occurrences(attrs, k).len() <= 1,
{
    let occ = occurrences(attrs, k);
    if occ.len() > 1 {
        assert(repeats(occ).len() == occ.len() - 1);
        assert(duplicate_errors(attrs, k).len() > 0);
        assert(attribute_errors(attrs).len() > 0);
    }
}

/// Where the attributes have no errors, each kind that may appear once is
/// set exactly when an attribute of that kind is present, and then to that
/// attribute.
pub proof fn law_settings_follow_presence(attrs: Seq<Attribute>, k: OnceKind)
    requires
        attrs.len() <= usize::MAX,
        attribute_errors(attrs).len() == 0,
    ensures
        the_one(attrs, k) is Some <==> present(attrs, k),
        forall|i: int|
            0 <= i < attrs.len() && once_kind(#[trigger] attrs[i]) == Some(k) ==> the_one(attrs, k)
                == Some(attrs[i]),
        the_one(attrs, k) matches Some(a) ==> attrs.contains(a) && once_kind(a) == Some(k),
{
    lemma_no_repeats(attrs, k);
    lemma_occurrences_in_range(attrs, k);
    let occ = occurrences(attrs, k);
    assert forall|i: int| 0 <= i < attrs.len() && once_kind(#[trigger] attrs[i]) == Some(k) implies the_one(
        attrs,
        k,
    ) == Some(attrs[i]) by {
        lemma_occurrences_contain(attrs, k, i);
        let m = choose|m: int| 0 <= m < occ.len() && occ[m] == i as usize;
        assert(m == 0);
    }
    if occ.len() > 0 {
        let j = occ[0] as int;
        assert(once_kind(attrs[j]) == Some(k));
        assert(attrs.contains(attrs[j]));
    }
}

/// With no errors, what `from_syn` reads is set exactly when its attribute
/// is present, to that attribute's value.
pub proof fn law_from_syn_settings_follow_presence(attrs: Seq<Attribute>, a: Attributes)
    requires
        attrs.len() <= usize::MAX,
        attribute_errors(attrs).len() == 0,
        a.matches_attrs(attrs),
    ensures
        forall|p: Vec<WherePredicate>|
            opt_view(a.display_bounds) == Some(p) <==> #[trigger] attrs.contains(Attribute::DisplayBounds(p)),
        forall|p: Vec<WherePredicate>|
            opt_view(a.error_bounds) == Some(p) <==> #[trigger] attrs.contains(Attribute::ErrorBounds(p)),
        forall|p: Vec<WherePredicate>|
            opt_view(a.error_compat_bounds) == Some(p) <==> #[trigger] attrs.contains(Attribute::ErrorCompatBounds(p)),
        forall|r: Vec<TokenTree>|
            opt_view(a.crate_root) == Some(r) <==> #[trigger] attrs.contains(Attribute::CrateRoot(r)),
        forall|f: SourceFrom|
            opt_view(a.source_from) == Some(f) <==> #[trigger] attrs.contains(Attribute::SourceFrom(f)),
        a.display_bounds is None <==> !present(attrs, OnceKind::DisplayBounds),
        a.error_bounds is None <==> !present(attrs, OnceKind::ErrorBounds),
        a.error_compat_bounds is None <==> !present(attrs, OnceKind::ErrorCompatBounds),
        a.crate_root is None <==> !present(attrs, OnceKind::CrateRoot),
        a.source_from is None <==> !present(attrs, OnceKind::SourceFrom),
        deref_payloads(a.provide_expressions@) == provided(attrs),
{
    lemma_settings_of_one_present(attrs);
}

proof fn lemma_settings_of_one_present(attrs: Seq<Attribute>)
    requires
        attrs.len() <= usize::MAX,
        attribute_errors(attrs).len() == 0,
    ensures
        forall|p: Vec<WherePredicate>|
            bounds_of(the_one(attrs, OnceKind::DisplayBounds)) == Some(p) <==> #[trigger] attrs.contains(Attribute::DisplayBounds(p)),
        forall|p: Vec<WherePredicate>|
            bounds_of(the_one(attrs, OnceKind::ErrorBounds)) == Some(p) <==> #[trigger] attrs.contains(Attribute::ErrorBounds(p)),
        forall|p: Vec<WherePredicate>|
            bounds_of(the_one(attrs, OnceKind::ErrorCompatBounds)) == Some(p) <==> #[trigger] attrs.contains(Attribute::ErrorCompatBounds(p)),
        forall|r: Vec<TokenTree>|
            (match the_one(attrs, OnceKind::CrateRoot) {
                Some(Attribute::CrateRoot(x)) => Some(x),
                _ => None,
            }) == Some(r) <==> #[trigger] attrs.contains(Attribute::CrateRoot(r)),
        forall|f: SourceFrom|
            (match the_one(attrs, OnceKind::SourceFrom) {
                Some(Attribute::SourceFrom(x)) => Some(x),
                _ => None,
            }) == Some(f) <==> #[trigger] attrs.contains(Attribute::SourceFrom(f)),
        bounds_of(the_one(attrs, OnceKind::DisplayBounds)) is None <==> !present(
            attrs,
            OnceKind::DisplayBounds,
        ),
        bounds_of(the_one(attrs, OnceKind::ErrorBounds)) is None <==> !present(
            attrs,
            OnceKind::ErrorBounds,
        ),
        bounds_of(the_one(attrs, OnceKind::ErrorCompatBounds)) is None <==> !present(
            attrs,
            OnceKind::ErrorCompatBounds,
        ),
        (match the_one(attrs, OnceKind::CrateRoot) {
            Some(Attribute::CrateRoot(x)) => Some(x),
            _ => None,
        }) is None <==> !present(attrs, OnceKind::CrateRoot),
        (match the_one(attrs, OnceKind::SourceFrom) {
            Some(Attribute::SourceFrom(x)) => Some(x),
            _ => None,
        }) is None <==> !present(attrs, OnceKind::SourceFrom),
{
    law_settings_follow_presence(attrs, OnceKind::DisplayBounds);
    law_settings_follow_presence(attrs, OnceKind::ErrorBounds);
    law_settings_follow_presence(attrs, OnceKind::ErrorCompatBounds);
    law_settings_follow_presence(attrs, OnceKind::CrateRoot);
    law_settings_follow_presence(attrs, OnceKind::SourceFrom);
    assert forall|p: Vec<WherePredicate>| #[trigger] attrs.contains(Attribute::DisplayBounds(p)) implies bounds_of(the_one(attrs, OnceKind::DisplayBounds)) == Some(p) by {
        let i = choose|i: int| 0 <= i < attrs.len() && attrs[i] == Attribute::DisplayBounds(p);
        assert(once_kind(attrs[i]) == Some(OnceKind::DisplayBounds));
    }
    assert forall|p: Vec<WherePredicate>| #[trigger] attrs.contains(Attribute::ErrorBounds(p)) implies bounds_of(the_one(attrs, OnceKind::ErrorBounds)) == Some(p) by {
        let i = choose|i: int| 0 <= i < attrs.len() && attrs[i] == Attribute::ErrorBounds(p);
        assert(once_kind(attrs[i]) == Some(OnceKind::ErrorBounds));
    }
    assert forall|p: Vec<WherePredicate>| #[trigger] attrs.contains(Attribute::ErrorCompatBounds(p)) implies bounds_of(the_one(attrs, OnceKind::ErrorCompatBounds)) == Some(p) by {
        let i = choose|i: int| 0 <= i < attrs.len() && attrs[i] == Attribute::ErrorCompatBounds(p);
        assert(once_kind(attrs[i]) == Some(OnceKind::ErrorCompatBounds));
    }
    assert forall|r: Vec<TokenTree>| #[trigger] attrs.contains(Attribute::CrateRoot(r)) implies (
    match the_one(attrs, OnceKind::CrateRoot) {
        Some(Attribute::CrateRoot(x)) => Some(x),
        _ => None,
    }) == Some(r) by {
        let i = choose|i: int| 0 <= i < attrs.len() && attrs[i] == Attribute::CrateRoot(r);
        assert(once_kind(attrs[i]) == Some(OnceKind::CrateRoot));
    }
    assert forall|f: SourceFrom| #[trigger] attrs.contains(Attribute::SourceFrom(f)) implies (
    match the_one(attrs, OnceKind::SourceFrom) {
        Some(Attribute::SourceFrom(x)) => Some(x),
        _ => None,
    }) == Some(f) by {
        let i = choose|i: int| 0 <= i < attrs.len() && attrs[i] == Attribute::SourceFrom(f);
        assert(once_kind(attrs[i]) == Some(OnceKind::SourceFrom));
    }
}

/// What the derive reads from a tuple struct (an opaque error): its
/// attributes' settings, its name and generics, and the type of its one field.
#[derive(Debug)]
pub struct TupleStructInfo<'a> {
    pub display_bounds: Option<&'a Vec<WherePredicate>>,
    pub error_bounds: Option<&'a Vec<WherePredicate>>,
    pub error_compat_bounds: Option<&'a Vec<WherePredicate>>,
    /// The crate root given by `crate_root(...)`; `None` for the default.
    pub crate_root: Option<&'a Vec<TokenTree>>,
    pub generics: &'a Vec<GenericParam>,
    pub name: &'a String,
    pub provides: Vec<&'a Vec<TokenTree>>,
    /// The type of the single field.
    pub field_ty: &'a Ty,
    /// How the source converts into the field, if `source(from(...))` says.
    pub source_from: Option<&'a SourceFrom>,
}

impl<'a> TupleStructInfo<'a> {
    /// What the attributes set, read as `from_syn` reads them.
    pub open spec fn matches_attrs(self, attrs: Seq<Attribute>) -> bool {
        &&& opt_view(self.display_bounds) == bounds_of(the_one(attrs, OnceKind::DisplayBounds))
        &&& opt_view(self.error_bounds) == bounds_of(the_one(attrs, OnceKind::ErrorBounds))
        &&& opt_view(self.error_compat_bounds) == bounds_of(
            the_one(attrs, OnceKind::ErrorCompatBounds),
        )
        &&& opt_view(self.crate_root) == match the_one(attrs, OnceKind::CrateRoot) {
            Some(Attribute::CrateRoot(r)) => Some(r),
            _ => None,
        }
        &&& deref_payloads(self.provides@) == provided(attrs)
        &&& opt_view(self.source_from) == match the_one(attrs, OnceKind::SourceFrom) {
            Some(Attribute::SourceFrom(s)) => Some(s),
            _ => None,
        }
    }
}

/// With no errors, what `parse_tuple_struct` reads is set exactly when its
/// attribute is present, to that attribute's value; the provided
/// expressions are those of `provide(...)`, in order.
pub proof fn law_tuple_struct_settings_follow_presence(attrs: Seq<Attribute>, info: TupleStructInfo)
    requires
        attrs.len() <= usize::MAX,
        attribute_errors(attrs).len() == 0,
        info.matches_attrs(attrs),
    ensures
        forall|p: Vec<WherePredicate>|
            opt_view(info.display_bounds) == Some(p) <==> #[trigger] attrs.contains(
                Attribute::DisplayBounds(p),
            ),
        forall|p: Vec<WherePredicate>|
            opt_view(info.error_bounds) == Some(p) <==> #[trigger] attrs.contains(
                Attribute::ErrorBounds(p),
            ),
        forall|p: Vec<WherePredicate>|
            opt_view(info.error_compat_bounds) == Some(p) <==> #[trigger] attrs.contains(
                Attribute::ErrorCompatBounds(p),
            ),
        forall|r: Vec<TokenTree>|
            opt_view(info.crate_root) == Some(r) <==> #[trigger] attrs.contains(
                Attribute::CrateRoot(r),
            ),
        forall|f: SourceFrom|
            opt_view(info.source_from) == Some(f) <==> #[trigger] attrs.contains(
                Attribute::SourceFrom(f),
            ),
        info.display_bounds is None <==> !present(attrs, OnceKind::DisplayBounds),
        info.error_bounds is None <==> !present(attrs, OnceKind::ErrorBounds),
        info.error_compat_bounds is None <==> !present(attrs, OnceKind::ErrorCompatBounds),
        info.crate_root is None <==> !present(attrs, OnceKind::CrateRoot),
        info.source_from is None <==> !present(attrs, OnceKind::SourceFrom),
        deref_payloads(info.provides@) == provided(attrs),
{
    lemma_settings_of_one_present(attrs);
}

/// Every error of a tuple struct: its attributes' errors, then a field count
/// other than one.
pub open spec fn tuple_struct_errors(fields: Seq<Ty>, attrs: Seq<Attribute>) -> Seq<AttrError> {
    attribute_errors(attrs) + if fields.len() == 1 {
        Seq::empty()
    } else {
        seq![AttrError::FieldCount(fields.len() as usize)]
    }
}

/// Reads a tuple struct for the derive: all errors of the attributes and of
/// the field are reported together.
pub fn parse_tuple_struct<'a>(
    fields: &'a Vec<Ty>,
    name: &'a String,
    generics: &'a Vec<GenericParam>,
    attrs: &'a Vec<Attribute>,
) -> (r: Result<TupleStructInfo<'a>, Vec<AttrError>>)
    ensures
        tuple_struct_errors(fields@, attrs@).len() > 0 ==> r is Err && r->Err_0@
            == tuple_struct_errors(fields@, attrs@),
        tuple_struct_errors(fields@, attrs@).len() == 0 ==> r is Ok && ({
            let info = r->Ok_0;
            &&& info.matches_attrs(attrs@)
            &&& *info.generics == *generics
            &&& info.name == name
            &&& *info.field_ty == fields@[0]
        }),
{
    let attributes = Attributes::from_syn(attrs);
    let field_ty: Result<&'a Ty, AttrError> = if fields.len() == 1 {
        Ok(&fields[0])
    } else {
        Err(AttrError::FieldCount(fields.len()))
    };
    match (attributes, field_ty) {
        (Ok(a), Ok(ty)) => {
            assert(tuple_struct_errors(fields@, attrs@) =~= Seq::<AttrError>::empty());
            Ok(TupleStructInfo {
                display_bounds: a.display_bounds,
                error_bounds: a.error_bounds,
                error_compat_bounds: a.error_compat_bounds,
                crate_root: a.crate_root,
                generics,
                name,
                provides: a.provide_expressions,
                field_ty: ty,
                source_from: a.source_from,
            })
        },
        (Err(mut errors), Err(e)) => {
            errors.push(e);
            Err(errors)
        },
        (Err(errors), Ok(_)) => {
            assert(errors@ =~= tuple_struct_errors(fields@, attrs@));
            Err(errors)
        },
        (Ok(_), Err(e)) => {
            let mut errors = Vec::new();
            errors.push(e);
            assert(errors@ =~= tuple_struct_errors(fields@, attrs@));
            Err(errors)
        },
    }
}

/// The attribute at the first listed index, if any.
fn first_of<'a>(indices: &Vec<usize>, attrs: &'a Vec<Attribute>) -> (r: Option<&'a Attribute>)
    requires
        forall|j: int| 0 <= j < indices@.len() ==> indices@[j] < attrs@.len(),
    ensures
        indices@.len() > 0 ==> r is Some && *r->Some_0 == attrs@[indices@[0] as int],
        indices@.len() == 0 ==> r is None,
{
    if indices.len() > 0 {
        Some(&attrs[indices[0]])
    } else {
        None
    }
}

/// Adds one error for each index after the first.
fn push_duplicates(errors: &mut Vec<AttrError>, indices: &Vec<usize>)
    ensures
        final(errors)@ == old(errors)@ + repeats(indices@),
{
    let ghost start = errors@;
    if indices.len() == 0 {
        assert(errors@ =~= start + repeats(indices@));
        return;
    }
    let mut k: usize = 1;
    assert(indices@.subrange(1, 1).map_values(|i: usize| AttrError::Duplicate(i))
        =~= Seq::<AttrError>::empty());
    assert(errors@ =~= start + indices@.subrange(1, 1).map_values(
        |i: usize| AttrError::Duplicate(i),
    ));
    while k < indices.len()
        invariant
            1 <= k <= indices@.len(),
            errors@ == start + indices@.subrange(1, k as int).map_values(
                |i: usize| AttrError::Duplicate(i),
            ),
        decreases indices@.len() - k,
    {
        let ghost before = errors@;
        errors.push(AttrError::Duplicate(indices[k]));
        assert(indices@.subrange(1, k + 1).map_values(|i: usize| AttrError::Duplicate(i))
            =~= indices@.subrange(1, k as int).map_values(|i: usize| AttrError::Duplicate(i)).push(
            AttrError::Duplicate(indices@[k as int]),
        ));
        k += 1;
    }
    assert(indices@.subrange(1, indices@.len() as int) =~= indices@.drop_first());
}

} // verus!
