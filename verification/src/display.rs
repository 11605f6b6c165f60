//! `Display` bounds: a field's type needs the formatting trait of each
//! placeholder that formats it, when that type depends on the generics.
use crate::bounds::{bounds_view, Bound, BoundModel, Capability};
use crate::chars::same_chars;
use crate::container::{Expr, Field, FieldContainer, Lit, SelectorKind, WherePredicate};
use crate::format::{parse_format, spec_parse_format, Argument, ArgumentModel, FormatTrait};
use crate::keyed::{
    fmt_bound_key, fmt_predicate, fmt_predicate_text, keyed, keys_view, lemma_lt_distinct,
    listing_keys, lists_in_key_order, order_by_keys,
};
use crate::ty::{depends_on_generics, spec_depends_on_generics, GenericParam, Ty};
use vstd::prelude::*;

verus! {

/// Why display bounds could not be inferred.
#[derive(Debug, Clone, Copy, PartialEq, Eq)]
pub enum BoundsError {
    /// The display format of the container at this index is not a literal.
    NonLiteralFormat(usize),
    /// The format text of the container at this index cannot be read; the
    /// text is the literal's when `at_literal`, else the doc comment's.
    UnsupportedFormat { container: usize, at_literal: bool },
}

/// Names with the types they denote in a format, in the order in which a
/// later entry for a name replaces an earlier one.
pub open spec fn field_entries(fs: Seq<Field>) -> Seq<(Seq<char>, Ty)> {
    fs.map_values(|f: Field| (f.name@, f.ty))
}

pub open spec fn optional_entry(f: Option<Field>) -> Seq<(Seq<char>, Ty)> {
    match f {
        Some(f) => seq![(f.name@, f.ty)],
        None => Seq::empty(),
    }
}

/// The fields a display format can name: user fields, implicit fields, the
/// backtrace field, the message field, then the source (by its stored type).
pub open spec fn named_types(c: FieldContainer) -> Seq<(Seq<char>, Ty)> {
    field_entries(c.selector_kind.spec_user_fields()) + field_entries(c.implicit_fields@)
        + optional_entry(c.backtrace_field) + optional_entry(c.selector_kind.spec_message_field())
        + match c.selector_kind.spec_source_field() {
        Some(s) => seq![(s.name@, s.target_ty)],
        None => Seq::empty(),
    }
}

/// The type that `name` denotes: that of its last entry.
pub open spec fn lookup_type(fs: Seq<(Seq<char>, Ty)>, name: Seq<char>) -> Option<Ty>
    decreases fs.len(),
{
    if fs.len() == 0 {
        None
    } else if fs.last().0 == name {
        Some(fs.last().1)
    } else {
        lookup_type(fs.drop_last(), name)
    }
}

/// Whether the type that the `i`th entry's name denotes depends on the generics.
pub open spec fn entry_depends(fs: Seq<(Seq<char>, Ty)>, i: int, generics: Seq<GenericParam>) -> bool {
    lookup_type(fs, fs[i].0) matches Some(t) && spec_depends_on_generics(t, generics)
}

pub open spec fn any_field_depends(fs: Seq<(Seq<char>, Ty)>, generics: Seq<GenericParam>) -> bool {
    exists|i: int| 0 <= i < fs.len() && #[trigger] entry_depends(fs, i, generics)
}

/// The field that a format argument expression names directly (through
/// parentheses and invisible groups).
pub open spec fn spec_direct_field(e: Expr) -> Option<Seq<char>>
    decreases e,
{
    match e {
        Expr::Path(Some(id)) => Some(id@),
        Expr::Paren(inner) => spec_direct_field(*inner),
        Expr::Group(inner) => spec_direct_field(*inner),
        _ => None,
    }
}

/// The positional arguments among format arguments (those that are not
/// assignments).
pub open spec fn positional_args(args: Seq<Expr>) -> Seq<Expr>
    decreases args.len(),
{
    if args.len() == 0 {
        Seq::empty()
    } else if args.last() is Assign {
        positional_args(args.drop_last())
    } else {
        positional_args(args.drop_last()).push(args.last())
    }
}

/// The value of the last `name = value` argument.
pub open spec fn named_arg(args: Seq<Expr>, name: Seq<char>) -> Option<Expr>
    decreases args.len(),
{
    if args.len() == 0 {
        None
    } else {
        match args.last() {
            Expr::Assign(l, r) => if *l matches Expr::Path(Some(id)) && id@ == name {
                Some(*r)
            } else {
                named_arg(args.drop_last(), name)
            },
            _ => named_arg(args.drop_last(), name),
        }
    }
}

/// The field that a use formats, if it formats a field directly.
pub open spec fn use_field(a: ArgumentModel, args: Seq<Expr>) -> Option<Seq<char>> {
    match a {
        ArgumentModel::Position(i) => if i < positional_args(args).len() {
            spec_direct_field(positional_args(args)[i as int])
        } else {
            None
        },
        ArgumentModel::Name(n) => match named_arg(args, n) {
            Some(e) => spec_direct_field(e),
            None => Some(n),
        },
    }
}

/// The bound one use requires: its trait on the type of the field it
/// formats, when that type depends on the generics. `{:p}` formats the
/// reference that a match arm binds, so it requires nothing of the field.
pub open spec fn use_bound(
    u: (ArgumentModel, FormatTrait),
    args: Seq<Expr>,
    fs: Seq<(Seq<char>, Ty)>,
    generics: Seq<GenericParam>,
) -> Option<BoundModel> {
    match use_field(u.0, args) {
        None => None,
        Some(n) => match lookup_type(fs, n) {
            None => None,
            Some(ty) => if spec_depends_on_generics(ty, generics) && u.1 != FormatTrait::Pointer {
                Some(BoundModel::Inferred(ty, Capability::Fmt(u.1)))
            } else {
                None
            },
        },
    }
}

/// The bounds of all uses, in order.
pub open spec fn uses_bounds(
    us: Seq<(ArgumentModel, FormatTrait)>,
    args: Seq<Expr>,
    fs: Seq<(Seq<char>, Ty)>,
    generics: Seq<GenericParam>,
) -> Seq<BoundModel>
    decreases us.len(),
{
    if us.len() == 0 {
        Seq::empty()
    } else {
        let r = uses_bounds(us.drop_last(), args, fs, generics);
        match use_bound(us.last(), args, fs, generics) {
            Some(b) => r.push(b),
            None => r,
        }
    }
}

/// Where a container's format text comes from.
pub enum FormatSourceModel {
    /// Nothing to infer from.
    Skip,
    NonLiteral,
    /// The text, and whether it is a string literal's value.
    Text(Seq<char>, bool),
}

pub open spec fn format_source(c: FieldContainer) -> FormatSourceModel {
    match c.display_format {
        Some(d) => if d.exprs@.len() == 0 {
            FormatSourceModel::NonLiteral
        } else {
            match d.exprs@[0] {
                Expr::Lit(Lit::Str(s)) => FormatSourceModel::Text(s@, true),
                Expr::Lit(Lit::Other) => FormatSourceModel::Skip,
                _ => FormatSourceModel::NonLiteral,
            }
        },
        None => match c.doc_comment {
            Some(d) => FormatSourceModel::Text(d.content@, false),
            None => FormatSourceModel::Skip,
        },
    }
}

/// The format arguments after the format text.
pub open spec fn format_args(c: FieldContainer) -> Seq<Expr> {
    match c.display_format {
        Some(d) => d.exprs@.skip(1),
        None => Seq::empty(),
    }
}

/// The display bounds of the container at index `idx`, in the order the
/// uses occur.
pub open spec fn container_display_bounds(
    c: FieldContainer,
    generics: Seq<GenericParam>,
    idx: usize,
) -> Result<Seq<BoundModel>, BoundsError> {
    if c.is_transparent {
        let ty = c.selector_kind.spec_source_field()->Some_0.target_ty;
        if spec_depends_on_generics(ty, generics) {
            Ok(seq![BoundModel::Inferred(ty, Capability::Fmt(FormatTrait::Display))])
        } else {
            Ok(Seq::empty())
        }
    } else if !any_field_depends(named_types(c), generics) {
        Ok(Seq::empty())
    } else {
        match format_source(c) {
            FormatSourceModel::Skip => Ok(Seq::empty()),
            FormatSourceModel::NonLiteral => Err(BoundsError::NonLiteralFormat(idx)),
            FormatSourceModel::Text(t, at_literal) => match spec_parse_format(t) {
                None => Err(BoundsError::UnsupportedFormat { container: idx, at_literal }),
                Some(us) => Ok(uses_bounds(us, format_args(c), named_types(c), generics)),
            },
        }
    }
}

/// The bounds of all containers in order, or the first container's error.
pub open spec fn inferred_display_bounds(
    cs: Seq<FieldContainer>,
    generics: Seq<GenericParam>,
) -> Result<Seq<BoundModel>, BoundsError>
    decreases cs.len(),
{
    if cs.len() == 0 {
        Ok(Seq::empty())
    } else {
        match inferred_display_bounds(cs.drop_last(), generics) {
            Err(e) => Err(e),
            Ok(prev) => match container_display_bounds(
                cs.last(),
                generics,
                (cs.len() - 1) as usize,
            ) {
                Err(e) => Err(e),
                Ok(b) => Ok(prev + b),
            },
        }
    }
}

/// `r` lists `all` by some keying of its bounds, one key per bound: one
/// bound per key, the last one keyed so, in increasing key order.
pub open spec fn lists_under_some_keys(r: Seq<BoundModel>, all: Seq<BoundModel>) -> bool {
    exists|ks: Seq<Seq<char>>|
        ks.len() == all.len() && lists_in_key_order(r, #[trigger] keyed(all, ks))
}

/// Given predicates, as bounds.
pub open spec fn given_bounds(p: Seq<WherePredicate>) -> Seq<BoundModel>
    decreases p.len(),
{
    if p.len() == 0 {
        Seq::empty()
    } else {
        given_bounds(p.drop_last()).push(BoundModel::Given(p.last()))
    }
}

pub open spec fn entries_view<'a>(v: Seq<(&'a String, &'a Ty)>) -> Seq<(Seq<char>, Ty)> {
    v.map_values(|p: (&'a String, &'a Ty)| (p.0@, *p.1))
}

pub open spec fn exprs_view<'a>(v: Seq<&'a Expr>) -> Seq<Expr> {
    v.map_values(|e: &'a Expr| *e)
}

fn push_fields<'a>(r: &mut Vec<(&'a String, &'a Ty)>, fs: &'a Vec<Field>)
    ensures
        entries_view(final(r)@) == entries_view(old(r)@) + field_entries(fs@),
{
    let ghost start = entries_view(r@);
    let mut k: usize = 0;
    while k < fs.len()
        invariant
            k <= fs@.len(),
            entries_view(r@) == start + field_entries(fs@.take(k as int)),
        decreases fs@.len() - k,
    {
        let ghost before = entries_view(r@);
        r.push((&fs[k].name, &fs[k].ty));
        assert(field_entries(fs@.take(k + 1)) =~= field_entries(fs@.take(k as int)).push(
            (fs@[k as int].name@, fs@[k as int].ty),
        ));
        assert(entries_view(r@) =~= before.push((fs@[k as int].name@, fs@[k as int].ty)));
        k += 1;
    }
    assert(fs@.take(fs@.len() as int) =~= fs@);
}

fn push_optional<'a>(r: &mut Vec<(&'a String, &'a Ty)>, f: Option<&'a Field>)
    ensures
        entries_view(final(r)@) == entries_view(old(r)@) + match f {
            Some(f) => seq![(f.name@, f.ty)],
            None => Seq::<(Seq<char>, Ty)>::empty(),
        },
{
    let ghost before = entries_view(r@);
    if let Some(f) = f {
        r.push((&f.name, &f.ty));
        assert(entries_view(r@) =~= before + seq![(f.name@, f.ty)]);
    } else {
        assert(entries_view(r@) =~= before + Seq::<(Seq<char>, Ty)>::empty());
    }
}

/// The fields a display format can name, with their types.
fn field_types<'a>(c: &'a FieldContainer) -> (r: Vec<(&'a String, &'a Ty)>)
    ensures
        entries_view(r@) == named_types(*c),
{
    let mut r: Vec<(&'a String, &'a Ty)> = Vec::new();
    assert(entries_view(r@) =~= Seq::<(Seq<char>, Ty)>::empty());
    match &c.selector_kind {
        SelectorKind::Context { user_fields, .. } => push_fields(&mut r, user_fields),
        _ => {},
    }
    assert(entries_view(r@) =~= field_entries(c.selector_kind.spec_user_fields()));
    push_fields(&mut r, &c.implicit_fields);
    push_optional(&mut r, c.backtrace_field.as_ref());
    push_optional(&mut r, c.selector_kind.message_field());
    let ghost before = entries_view(r@);
    match c.selector_kind.source_field() {
        Some(s) => {
            r.push((&s.name, &s.target_ty));
            assert(entries_view(r@) =~= before + seq![(s.name@, s.target_ty)]);
        },
        None => {
            assert(entries_view(r@) =~= before + Seq::<(Seq<char>, Ty)>::empty());
        },
    }
    r
}

/// The type that `name` denotes among the entries.
fn lookup<'a>(fs: &Vec<(&'a String, &'a Ty)>, name: &String) -> (r: Option<&'a Ty>)
    ensures
        match lookup_type(entries_view(fs@), name@) {
            Some(t) => r is Some && *r->Some_0 == t,
            None => r is None,
        },
{
    let ghost all = entries_view(fs@);
    let mut k: usize = fs.len();
    assert(all.take(k as int) =~= all);
    while k > 0
        invariant
            k <= fs@.len(),
            all == entries_view(fs@),
            lookup_type(all, name@) == lookup_type(all.take(k as int), name@),
        decreases k,
    {
        let (n, t) = fs[k - 1];
        assert(all.take(k as int).last() == (n@, *t));
        if same_chars(n.as_str(), name.as_str()) {
            return Some(t);
        }
        assert(all.take(k as int).drop_last() =~= all.take(k - 1));
        k -= 1;
    }
    None
}

/// Whether some name denotes a type that depends on the generics.
fn some_field_depends<'a>(fs: &Vec<(&'a String, &'a Ty)>, generics: &Vec<GenericParam>) -> (r: bool)
    ensures
        r == any_field_depends(entries_view(fs@), generics@),
{
    let ghost all = entries_view(fs@);
    let mut k: usize = 0;
    while k < fs.len()
        invariant
            k <= fs@.len(),
            all == entries_view(fs@),
            forall|j: int| 0 <= j < k ==> !#[trigger] entry_depends(all, j, generics@),
        decreases fs@.len() - k,
    {
        let (n, _) = fs[k];
        assert(all[k as int].0 == n@);
        match lookup(fs, n) {
            Some(t) => {
                if depends_on_generics(t, generics) {
                    assert(entry_depends(all, k as int, generics@));
                    return true;
                }
            },
            None => {},
        }
        k += 1;
    }
    false
}

/// The field that a format argument expression names directly.
pub fn direct_field<'a>(e: &'a Expr) -> (r: Option<&'a String>)
    ensures
        match spec_direct_field(*e) {
            Some(n) => r is Some && r->Some_0@ == n,
            None => r is None,
        },
    decreases e,
{
    match e {
        Expr::Path(p) => p.as_ref(),
        Expr::Paren(inner) => direct_field(inner),
        Expr::Group(inner) => direct_field(inner),
        _ => None,
    }
}

/// The positional arguments among `exprs[1..]`.
fn positional<'a>(exprs: &'a Vec<Expr>) -> (r: Vec<&'a Expr>)
    requires
        exprs@.len() > 0,
    ensures
        exprs_view(r@) == positional_args(exprs@.skip(1)),
{
    let mut r: Vec<&'a Expr> = Vec::new();
    let mut k: usize = 1;
    assert(exprs@.subrange(1, 1) =~= Seq::<Expr>::empty());
    assert(exprs_view(r@) =~= Seq::<Expr>::empty());
    while k < exprs.len()
        invariant
            1 <= k <= exprs@.len(),
            exprs_view(r@) == positional_args(exprs@.subrange(1, k as int)),
        decreases exprs@.len() - k,
    {
        assert(exprs@.subrange(1, k + 1).drop_last() =~= exprs@.subrange(1, k as int));
        let ghost before = r@;
        match &exprs[k] {
            Expr::Assign(_, _) => {},
            e => {
                r.push(e);
                assert(exprs_view(r@) =~= exprs_view(before).push(exprs@[k as int]));
            },
        }
        k += 1;
    }
    assert(exprs@.subrange(1, exprs@.len() as int) =~= exprs@.skip(1));
    r
}

/// The value of the last `name = value` among `exprs[1..]`.
fn named<'a>(exprs: &'a Vec<Expr>, name: &String) -> (r: Option<&'a Expr>)
    requires
        exprs@.len() > 0,
    ensures
        match named_arg(exprs@.skip(1), name@) {
            Some(e) => r is Some && *r->Some_0 == e,
            None => r is None,
        },
{
    let mut k: usize = exprs.len();
    assert(exprs@.subrange(1, k as int) =~= exprs@.skip(1));
    while k > 1
        invariant
            1 <= k <= exprs@.len(),
            named_arg(exprs@.skip(1), name@) == named_arg(exprs@.subrange(1, k as int), name@),
        decreases k,
    {
        let ghost sub = exprs@.subrange(1, k as int);
        assert(sub.last() == exprs@[k - 1]);
        assert(sub.drop_last() =~= exprs@.subrange(1, k - 1));
        if let Expr::Assign(l, r) = &exprs[k - 1] {
            if let Expr::Path(Some(id)) = &**l {
                if same_chars(id.as_str(), name.as_str()) {
                    return Some(&**r);
                }
            }
        }
        k -= 1;
    }
    None
}

/// The field that one use formats.
fn field_of_use<'a, 'b>(
    arg: &'b Argument,
    exprs: Option<&'a Vec<Expr>>,
    positional: &Vec<&'a Expr>,
) -> (r: Option<&'b String>)
    where 'a: 'b,
    requires
        exprs matches Some(es) ==> es@.len() > 0,
        exprs_view(positional@) == positional_args(
            match exprs {
                Some(es) => es@.skip(1),
                None => Seq::empty(),
            },
        ),
    ensures
        match use_field(
            arg@,
            match exprs {
                Some(es) => es@.skip(1),
                None => Seq::empty(),
            },
        ) {
            Some(n) => r is Some && r->Some_0@ == n,
            None => r is None,
        },
{
    match arg {
        Argument::Position(i) => {
            if *i < positional.len() {
                assert(exprs_view(positional@)[*i as int] == *positional@[*i as int]);
                direct_field(positional[*i])
            } else {
                None
            }
        },
        Argument::Name(n) => {
            let found = match exprs {
                Some(es) => named(es, n),
                None => None,
            };
            match found {
                Some(e) => direct_field(e),
                None => Some(n),
            }
        },
    }
}

/// The display bounds of one container, in use order.
fn container_bounds<'a>(c: &'a FieldContainer, generics: &Vec<GenericParam>, idx: usize) -> (r: Result<
    Vec<Bound<'a>>,
    BoundsError,
>)
    requires
        c.is_transparent ==> c.selector_kind.spec_source_field() is Some,
    ensures
        match container_display_bounds(*c, generics@, idx) {
            Ok(b) => r is Ok && bounds_view(r->Ok_0@) == b,
            Err(e) => r == Err::<Vec<Bound<'a>>, BoundsError>(e),
        },
{
    let mut out: Vec<Bound<'a>> = Vec::new();
    if c.is_transparent {
        let s = match c.selector_kind.source_field() {
            Some(s) => s,
            None => {
                return Ok(out);
            },
        };
        if depends_on_generics(&s.target_ty, generics) {
            out.push(
                Bound::Inferred {
                    ty: &s.target_ty,
                    capability: Capability::Fmt(FormatTrait::Display),
                },
            );
        }
        assert(bounds_view(out@) =~= container_display_bounds(*c, generics@, idx)->Ok_0);
        return Ok(out);
    }
    let fields = field_types(c);
    // Concrete errors need no new inference, and keep their existing diagnostics.
    if !some_field_depends(&fields, generics) {
        assert(bounds_view(out@) =~= Seq::<BoundModel>::empty());
        return Ok(out);
    }
    let (text, exprs, at_literal): (&'a String, Option<&'a Vec<Expr>>, bool) =
        match &c.display_format {
        Some(d) => {
            if d.exprs.len() == 0 {
                return Err(BoundsError::NonLiteralFormat(idx));
            }
            match &d.exprs[0] {
                Expr::Lit(Lit::Str(s)) => (s, Some(&d.exprs), true),
                Expr::Lit(Lit::Other) => {
                    assert(bounds_view(out@) =~= Seq::<BoundModel>::empty());
                    return Ok(out);
                },
                _ => {
                    return Err(BoundsError::NonLiteralFormat(idx));
                },
            }
        },
        None => match &c.doc_comment {
            Some(d) => (&d.content, None, false),
            None => {
                assert(bounds_view(out@) =~= Seq::<BoundModel>::empty());
                return Ok(out);
            },
        },
    };
    let ghost args = format_args(*c);
    assert(args == match exprs {
        Some(es) => es@.skip(1),
        None => Seq::<Expr>::empty(),
    });
    let positional: Vec<&'a Expr> = match exprs {
        Some(es) => positional(es),
        None => {
            let v: Vec<&'a Expr> = Vec::new();
            assert(exprs_view(v@) =~= Seq::<Expr>::empty());
            assert(positional_args(Seq::<Expr>::empty()) =~= Seq::<Expr>::empty());
            v
        },
    };
    let uses = match parse_format(text.as_str()) {
        Ok(u) => u,
        Err(_) => {
            return Err(BoundsError::UnsupportedFormat { container: idx, at_literal });
        },
    };
    let ghost us = crate::format::uses_view(uses@);
    let ghost fs = named_types(*c);
    let mut k: usize = 0;
    assert(us.take(0) =~= Seq::<(ArgumentModel, FormatTrait)>::empty());
    assert(bounds_view(out@) =~= Seq::<BoundModel>::empty());
    while k < uses.len()
        invariant
            k <= uses@.len(),
            us == crate::format::uses_view(uses@),
            fs == entries_view(fields@),
            exprs matches Some(es) ==> es@.len() > 0,
            exprs_view(positional@) == positional_args(args),
            args == match exprs {
                Some(es) => es@.skip(1),
                None => Seq::<Expr>::empty(),
            },
            bounds_view(out@) == uses_bounds(us.take(k as int), args, fs, generics@),
        decreases uses@.len() - k,
    {
        let (arg, t) = (&uses[k].0, uses[k].1);
        assert(us[k as int] == (arg@, t));
        assert(us.take(k + 1).drop_last() =~= us.take(k as int));
        assert(us.take(k + 1).last() == us[k as int]);
        let ghost before = out@;
        match field_of_use(arg, exprs, &positional) {
            Some(name) => match lookup(&fields, name) {
                Some(ty) => {
                    if depends_on_generics(ty, generics) {
                        // Match arms bind fields by reference; `{:p}` formats that
                        // reference and needs nothing of the referent.
                        match t {
                            FormatTrait::Pointer => {},
                            _ => {
                                out.push(Bound::Inferred { ty, capability: Capability::Fmt(t) });
                                assert(bounds_view(out@) =~= bounds_view(before).push(
                                    BoundModel::Inferred(*ty, Capability::Fmt(t)),
                                ));
                            },
                        }
                    }
                },
                None => {},
            },
            None => {},
        }
        k += 1;
    }
    assert(us.take(uses@.len() as int) =~= us);
    Ok(out)
}

/// The text of a formatting bound's predicate; other bounds have none.
pub open spec fn predicate_text(b: BoundModel) -> Seq<char> {
    match b {
        BoundModel::Inferred(ty, Capability::Fmt(t)) => fmt_predicate_text(ty.text@, t),
        _ => Seq::empty(),
    }
}

/// A later bound of `all` has the same predicate text as the one at `i`.
pub open spec fn repeated_later(all: Seq<BoundModel>, i: int) -> bool {
    exists|j: int| i < j < all.len() && predicate_text(#[trigger] all[j]) == predicate_text(all[i])
}

/// The bounds before index `n` whose predicate text does not come again
/// later in `all`, in order.
pub open spec fn last_by_text_upto(all: Seq<BoundModel>, n: nat) -> Seq<BoundModel>
    decreases n,
{
    if n == 0 {
        Seq::empty()
    } else {
        let prev = last_by_text_upto(all, (n - 1) as nat);
        if repeated_later(all, n - 1) {
            prev
        } else {
            prev.push(all[n - 1])
        }
    }
}

/// The last bound of each predicate text, in order.
pub open spec fn last_by_text(all: Seq<BoundModel>) -> Seq<BoundModel> {
    last_by_text_upto(all, all.len())
}

/// No two bounds have the same predicate text.
pub open spec fn distinct_texts(r: Seq<BoundModel>) -> bool {
    forall|a: int, b: int|
        0 <= a < b < r.len() ==> predicate_text(#[trigger] r[a]) != predicate_text(#[trigger] r[b])
}

/// Whether two bounds have the same predicate text.
fn same_predicate(a: &Bound, b: &Bound) -> (r: bool)
    ensures
        r == (predicate_text(a@) == predicate_text(b@)),
{
    proof {
        reveal_strlit(" : ::core::fmt::");
    }
    match (a, b) {
        (
            Bound::Inferred { ty: ta, capability: Capability::Fmt(fa) },
            Bound::Inferred { ty: tb, capability: Capability::Fmt(fb) },
        ) => {
            let pa = fmt_predicate(ta, *fa);
            let pb = fmt_predicate(tb, *fb);
            same_chars(pa.as_str(), pb.as_str())
        },
        (Bound::Inferred { capability: Capability::Fmt(fa), ty: ta }, _) => {
            assert(predicate_text(a@).len() > 0);
            false
        },
        (_, Bound::Inferred { capability: Capability::Fmt(fb), ty: tb }) => {
            assert(predicate_text(b@).len() > 0);
            false
        },
        _ => true,
    }
}

/// Keeps the last bound of each predicate text, in order.
fn keep_last_by_text<'a>(all: Vec<Bound<'a>>) -> (r: Vec<Bound<'a>>)
    ensures
        bounds_view(r@) == last_by_text(bounds_view(all@)),
{
    let ghost av = bounds_view(all@);
    let n = all.len();
    let mut r: Vec<Bound<'a>> = Vec::new();
    let mut i: usize = 0;
    while i < n
        invariant
            n == all@.len(),
            av == bounds_view(all@),
            i <= n,
            bounds_view(r@) == last_by_text_upto(av, i as nat),
        decreases n - i,
    {
        let mut later = false;
        let mut j: usize = i + 1;
        while j < n
            invariant
                n == all@.len(),
                av == bounds_view(all@),
                i < n,
                i < j <= n,
                later == exists|m: int| i < m < j && predicate_text(#[trigger] av[m]) == predicate_text(
                    av[i as int],
                ),
            decreases n - j,
        {
            let same = same_predicate(&all[j], &all[i]);
            assert(av[j as int] == all@[j as int]@);
            assert(av[i as int] == all@[i as int]@);
            if same {
                later = true;
            }
            j += 1;
        }
        let ghost before = r@;
        assert(later == repeated_later(av, i as int));
        if !later {
            r.push(all[i]);
            assert(bounds_view(r@) =~= bounds_view(before).push(av[i as int]));
        }
        i += 1;
    }
    r
}

/// The bounds of the generated `Display` impl. Explicit bounds replace
/// inference (an empty list too); otherwise each container's inferred
/// bounds are collected, one per predicate text and then one per key, in
/// the order of the keys rendered for them.
pub fn display<'a>(
    containers: &'a Vec<FieldContainer>,
    generics: &Vec<GenericParam>,
    explicit: Option<&'a Vec<WherePredicate>>,
) -> (r: Result<Vec<Bound<'a>>, BoundsError>)
    requires
        explicit is None ==> forall|i: int|
            0 <= i < containers@.len() ==> (#[trigger] containers@[i]).is_transparent
                ==> containers@[i].selector_kind.spec_source_field() is Some,
    ensures
        explicit matches Some(p) ==> r is Ok && bounds_view(r->Ok_0@) == given_bounds(p@),
        explicit is None ==> match inferred_display_bounds(containers@, generics@) {
            Err(e) => r == Err::<Vec<Bound<'a>>, BoundsError>(e),
            Ok(all) => r is Ok && lists_under_some_keys(bounds_view(r->Ok_0@), last_by_text(all))
                && distinct_texts(bounds_view(r->Ok_0@)),
        },
{
    if let Some(explicit) = explicit {
        let mut r: Vec<Bound<'a>> = Vec::new();
        let mut k: usize = 0;
        while k < explicit.len()
            invariant
                k <= explicit@.len(),
                bounds_view(r@) == given_bounds(explicit@.take(k as int)),
            decreases explicit@.len() - k,
        {
            let ghost before = r@;
            r.push(Bound::Given(&explicit[k]));
            assert(explicit@.take(k + 1).drop_last() =~= explicit@.take(k as int));
            assert(bounds_view(r@) =~= given_bounds(explicit@.take(k + 1)));
            k += 1;
        }
        assert(explicit@.take(explicit@.len() as int) =~= explicit@);
        return Ok(r);
    }
    let mut found_all: Vec<Bound<'a>> = Vec::new();
    let mut ci: usize = 0;
    assert(containers@.take(0) =~= Seq::<FieldContainer>::empty());
    assert(bounds_view(found_all@) =~= Seq::<BoundModel>::empty());
    while ci < containers.len()
        invariant
            explicit is None,
            ci <= containers@.len(),
            forall|i: int|
                0 <= i < containers@.len() ==> (#[trigger] containers@[i]).is_transparent
                    ==> containers@[i].selector_kind.spec_source_field() is Some,
            inferred_display_bounds(containers@.take(ci as int), generics@) == Ok::<
                Seq<BoundModel>,
                BoundsError,
            >(bounds_view(found_all@)),
        decreases containers@.len() - ci,
    {
        let c = &containers[ci];
        assert(containers@.take(ci + 1).drop_last() =~= containers@.take(ci as int));
        assert(containers@.take(ci + 1).last() == *c);
        let mut found = match container_bounds(c, generics, ci) {
            Ok(b) => b,
            Err(e) => {
                proof {
                    lemma_inference_stops(containers@, generics@, (ci + 1) as nat);
                }
                return Err(e);
            },
        };
        let ghost before = bounds_view(found_all@);
        let ghost more = bounds_view(found@);
        found_all.append(&mut found);
        assert(bounds_view(found_all@) =~= before + more);
        ci += 1;
    }
    assert(containers@.take(containers@.len() as int) =~= containers@);
    let ghost found_view = bounds_view(found_all@);
    let merged = keep_last_by_text(found_all);
    proof {
        lemma_last_by_text_upto(found_view, found_view.len());
    }
    // The key of each bound is the rendering of its predicate, made here.
    let mut keys: Vec<Vec<char>> = Vec::new();
    let mut k: usize = 0;
    while k < merged.len()
        invariant
            k <= merged@.len(),
            keys@.len() == k,
        decreases merged@.len() - k,
    {
        keys.push(fmt_bound_key(&merged[k]));
        k += 1;
    }
    let ghost all = bounds_view(merged@);
    let ghost ks = keys_view(keys@);
    let r = order_by_keys(merged, keys);
    assert(ks.len() == all.len());
    assert(lists_in_key_order(bounds_view(r@), keyed(all, ks)));
    proof {
        lemma_listing_keeps_texts_distinct(bounds_view(r@), all, ks);
    }
    Ok(r)
}

/// A bound of `Display`: a formatting trait other than `Pointer` on a type
/// that depends on the generics.
pub open spec fn is_display_bound(b: BoundModel, generics: Seq<GenericParam>) -> bool {
    b matches BoundModel::Inferred(ty, Capability::Fmt(t)) && t != FormatTrait::Pointer
        && spec_depends_on_generics(ty, generics)
}

proof fn lemma_uses_bounds_are_display_bounds(
    us: Seq<(ArgumentModel, FormatTrait)>,
    args: Seq<Expr>,
    fs: Seq<(Seq<char>, Ty)>,
    generics: Seq<GenericParam>,
)
    ensures
        forall|i: int|
            0 <= i < uses_bounds(us, args, fs, generics).len() ==> is_display_bound(
                #[trigger] uses_bounds(us, args, fs, generics)[i],
                generics,
            ),
    decreases us.len(),
{
    if us.len() > 0 {
        lemma_uses_bounds_are_display_bounds(us.drop_last(), args, fs, generics);
        let prev = uses_bounds(us.drop_last(), args, fs, generics);
        let all = uses_bounds(us, args, fs, generics);
        assert forall|i: int| 0 <= i < all.len() implies is_display_bound(
            #[trigger] all[i],
            generics,
        ) by {
            if i < prev.len() {
                assert(all[i] == prev[i]);
            }
        }
    }
}

proof fn lemma_container_bounds_are_display_bounds(
    c: FieldContainer,
    generics: Seq<GenericParam>,
    idx: usize,
)
    ensures
        container_display_bounds(c, generics, idx) matches Ok(b) ==> forall|i: int|
            0 <= i < b.len() ==> is_display_bound(#[trigger] b[i], generics),
{
    if let FormatSourceModel::Text(t, _) = format_source(c) {
        if let Some(us) = spec_parse_format(t) {
            lemma_uses_bounds_are_display_bounds(us, format_args(c), named_types(c), generics);
        }
    }
}

/// Every inferred `Display` bound asks a formatting trait other than
/// `Pointer` of a type that depends on the generics: `{:p}` formats the
/// reference a match arm binds, and concrete types need no bound.
pub proof fn law_display_bounds_follow_generic_uses(
    cs: Seq<FieldContainer>,
    generics: Seq<GenericParam>,
)
    ensures
        inferred_display_bounds(cs, generics) matches Ok(all) ==> forall|i: int|
            0 <= i < all.len() ==> is_display_bound(#[trigger] all[i], generics),
    decreases cs.len(),
{
    if cs.len() > 0 {
        law_display_bounds_follow_generic_uses(cs.drop_last(), generics);
        lemma_container_bounds_are_display_bounds(cs.last(), generics, (cs.len() - 1) as usize);
        if let Ok(all) = inferred_display_bounds(cs, generics) {
            let prev = inferred_display_bounds(cs.drop_last(), generics)->Ok_0;
            let b = container_display_bounds(cs.last(), generics, (cs.len() - 1) as usize)->Ok_0;
            assert forall|i: int| 0 <= i < all.len() implies is_display_bound(
                #[trigger] all[i],
                generics,
            ) by {
                if i < prev.len() {
                    assert(all[i] == prev[i]);
                } else {
                    assert(all[i] == b[i - prev.len()]);
                }
            }
        }
    }
}

/// Errors whose fields all have concrete types need no `Display` bound, and
/// inference never fails for them, whatever their format.
pub proof fn law_concrete_errors_need_no_display_bounds(
    cs: Seq<FieldContainer>,
    generics: Seq<GenericParam>,
)
    requires
        forall|i: int|
            0 <= i < cs.len() ==> !(#[trigger] cs[i]).is_transparent && !any_field_depends(
                named_types(cs[i]),
                generics,
            ),
    ensures
        inferred_display_bounds(cs, generics) == Ok::<Seq<BoundModel>, BoundsError>(Seq::empty()),
    decreases cs.len(),
{
    if cs.len() > 0 {
        assert forall|i: int| 0 <= i < cs.drop_last().len() implies !(
        #[trigger] cs.drop_last()[i]).is_transparent && !any_field_depends(
            named_types(cs.drop_last()[i]),
            generics,
        ) by {
            assert(cs.drop_last()[i] == cs[i]);
        }
        law_concrete_errors_need_no_display_bounds(cs.drop_last(), generics);
        assert(cs.last() == cs[cs.len() - 1]);
        assert(Seq::<BoundModel>::empty() + Seq::<BoundModel>::empty() =~= Seq::<BoundModel>::empty());
    }
}

/// A listing in key order names each key once.
pub proof fn law_listed_bounds_are_distinct(
    r: Seq<BoundModel>,
    m: Map<Seq<char>, BoundModel>,
    rk: Seq<Seq<char>>,
)
    requires
        listing_keys(r, m, rk),
    ensures
        forall|i: int, j: int| 0 <= i < j < rk.len() ==> #[trigger] rk[i] != #[trigger] rk[j],
{
    assert forall|i: int, j: int| 0 <= i < j < rk.len() implies #[trigger] rk[i] != #[trigger] rk[j] by {
        lemma_lt_distinct(rk[i], rk[j]);
    }
}

/// The container at `i` is the first whose display bounds cannot be inferred.
pub open spec fn fails_first(cs: Seq<FieldContainer>, generics: Seq<GenericParam>, i: int) -> bool {
    &&& 0 <= i < cs.len()
    &&& container_display_bounds(cs[i], generics, i as usize) is Err
    &&& forall|j: int|
        0 <= j < i ==> (#[trigger] container_display_bounds(cs[j], generics, j as usize)) is Ok
}

/// Inference over many containers fails exactly when one of them fails, and
/// then with the first failing container's error.
pub proof fn law_display_error_is_the_first_failure(
    cs: Seq<FieldContainer>,
    generics: Seq<GenericParam>,
)
    requires
        cs.len() <= usize::MAX,
    ensures
        inferred_display_bounds(cs, generics) is Ok <==> forall|i: int|
            0 <= i < cs.len() ==> (#[trigger] container_display_bounds(
                cs[i],
                generics,
                i as usize,
            )) is Ok,
        forall|i: int|
            #[trigger] fails_first(cs, generics, i) ==> inferred_display_bounds(cs, generics)
                == Err::<Seq<BoundModel>, BoundsError>(
                container_display_bounds(cs[i], generics, i as usize)->Err_0,
            ),
    decreases cs.len(),
{
    if cs.len() > 0 {
        let pre = cs.drop_last();
        let n = cs.len() - 1;
        law_display_error_is_the_first_failure(pre, generics);
        assert forall|i: int| 0 <= i < pre.len() implies pre[i] == cs[i] by {}
        if inferred_display_bounds(cs, generics) is Ok {
            assert forall|i: int| 0 <= i < cs.len() implies (#[trigger] container_display_bounds(
                cs[i],
                generics,
                i as usize,
            )) is Ok by {
                if i < n {
                    assert(pre[i] == cs[i]);
                    assert(container_display_bounds(pre[i], generics, i as usize) is Ok);
                }
            }
        } else {
            if inferred_display_bounds(pre, generics) is Ok {
                assert(container_display_bounds(cs[n], generics, n as usize) is Err);
            } else {
                let i = choose|i: int|
                    0 <= i < pre.len() && (#[trigger] container_display_bounds(
                        pre[i],
                        generics,
                        i as usize,
                    )) is Err;
                assert(pre[i] == cs[i]);
            }
        }
        assert forall|i: int| #[trigger] fails_first(cs, generics, i) implies inferred_display_bounds(
            cs,
            generics,
        ) == Err::<Seq<BoundModel>, BoundsError>(
            container_display_bounds(cs[i], generics, i as usize)->Err_0,
        ) by {
            if i < n {
                assert forall|j: int| 0 <= j < i implies (#[trigger] container_display_bounds(
                    pre[j],
                    generics,
                    j as usize,
                )) is Ok by {
                    assert(pre[j] == cs[j]);
                    assert(container_display_bounds(cs[j], generics, j as usize) is Ok);
                }
                assert(pre[i] == cs[i]);
                assert(fails_first(pre, generics, i));
            } else {
                assert forall|j: int| 0 <= j < pre.len() implies (#[trigger] container_display_bounds(
                    pre[j],
                    generics,
                    j as usize,
                )) is Ok by {
                    assert(pre[j] == cs[j]);
                    assert(container_display_bounds(cs[j], generics, j as usize) is Ok);
                }
            }
        }
    }
}

/// A container's bounds do not depend on where it stands; only its error
/// names its position.
pub proof fn lemma_container_bounds_position(
    c: FieldContainer,
    generics: Seq<GenericParam>,
    i: usize,
    j: usize,
)
    ensures
        container_display_bounds(c, generics, i) is Ok <==> container_display_bounds(
            c,
            generics,
            j,
        ) is Ok,
        container_display_bounds(c, generics, i) is Ok ==> container_display_bounds(c, generics, i)
            == container_display_bounds(c, generics, j),
{
}

/// The bounds of each container inferred on its own, in order.
pub open spec fn union_of_alone(cs: Seq<FieldContainer>, generics: Seq<GenericParam>) -> Seq<
    BoundModel,
>
    decreases cs.len(),
{
    if cs.len() == 0 {
        Seq::empty()
    } else {
        union_of_alone(cs.drop_last(), generics) + match inferred_display_bounds(
            seq![cs.last()],
            generics,
        ) {
            Ok(b) => b,
            Err(_) => Seq::empty(),
        }
    }
}

/// Inference over many containers succeeds when it succeeds on each alone,
/// and then its bounds are those of each container inferred on its own,
/// together.
pub proof fn law_display_is_the_union_of_containers(
    cs: Seq<FieldContainer>,
    generics: Seq<GenericParam>,
)
    requires
        cs.len() <= usize::MAX,
    ensures
        (forall|i: int|
            0 <= i < cs.len() ==> (#[trigger] inferred_display_bounds(seq![cs[i]], generics)) is Ok)
            ==> inferred_display_bounds(cs, generics) is Ok,
        inferred_display_bounds(cs, generics) matches Ok(all) ==> all == union_of_alone(
            cs,
            generics,
        ),
    decreases cs.len(),
{
    if cs.len() > 0 {
        let pre = cs.drop_last();
        law_display_is_the_union_of_containers(pre, generics);
        if forall|i: int|
            0 <= i < cs.len() ==> (#[trigger] inferred_display_bounds(seq![cs[i]], generics)) is Ok {
            assert forall|i: int| 0 <= i < pre.len() implies (#[trigger] inferred_display_bounds(
                seq![pre[i]],
                generics,
            )) is Ok by {
                assert(pre[i] == cs[i]);
            }
            let last = cs.last();
            let n: usize = (cs.len() - 1) as usize;
            assert(inferred_display_bounds(seq![cs[n as int]], generics) is Ok);
            assert(seq![last].drop_last() =~= Seq::<FieldContainer>::empty());
            assert(seq![last].last() == last);
            lemma_container_bounds_position(last, generics, n, 0);
        }
        let c = cs.last();
        let n: usize = (cs.len() - 1) as usize;
        lemma_container_bounds_position(c, generics, n, 0);
        let one = seq![c];
        assert(one.drop_last() =~= Seq::<FieldContainer>::empty());
        assert(one.last() == c);
        assert(inferred_display_bounds(one.drop_last(), generics) == Ok::<
            Seq<BoundModel>,
            BoundsError,
        >(Seq::empty()));
        if let Ok(all) = inferred_display_bounds(cs, generics) {
            let prev = inferred_display_bounds(pre, generics)->Ok_0;
            let b = container_display_bounds(c, generics, n)->Ok_0;
            assert(all == prev + b);
            assert(container_display_bounds(c, generics, 0) == Ok::<Seq<BoundModel>, BoundsError>(
                b,
            ));
            assert(Seq::<BoundModel>::empty() + b =~= b);
            assert(inferred_display_bounds(one, generics) == Ok::<Seq<BoundModel>, BoundsError>(b));
            assert(prev == union_of_alone(pre, generics));
        }
    }
}

proof fn lemma_keyed_values_come_from(all: Seq<BoundModel>, ks: Seq<Seq<char>>)
    requires
        ks.len() == all.len(),
    ensures
        forall|k: Seq<char>| #[trigger]
            keyed(all, ks).contains_key(k) ==> exists|i: int|
                0 <= i < all.len() && all[i] == keyed(all, ks)[k] && ks[i] == k,
    decreases all.len(),
{
    if all.len() > 0 {
        lemma_keyed_values_come_from(all.drop_last(), ks.drop_last());
        let m = keyed(all, ks);
        assert forall|k: Seq<char>| #[trigger] m.contains_key(k) implies exists|i: int|
            0 <= i < all.len() && all[i] == m[k] && ks[i] == k by {
            if k == ks.last() {
                assert(all[all.len() - 1] == m[k]);
                assert(ks[all.len() - 1] == k);
            } else {
                let i = choose|i: int|
                    0 <= i < all.drop_last().len() && all.drop_last()[i] == keyed(
                        all.drop_last(),
                        ks.drop_last(),
                    )[k] && ks.drop_last()[i] == k;
                assert(all[i] == m[k]);
                assert(ks[i] == k);
            }
        }
    }
}

proof fn lemma_last_by_text_upto(all: Seq<BoundModel>, n: nat)
    requires
        n <= all.len(),
    ensures
        forall|a: int|
            0 <= a < last_by_text_upto(all, n).len() ==> exists|k: int|
                0 <= k < n && #[trigger] last_by_text_upto(all, n)[a] == all[k] && !repeated_later(
                    all,
                    k,
                ),
        distinct_texts(last_by_text_upto(all, n)),
    decreases n,
{
    if n > 0 {
        let m = (n - 1) as nat;
        lemma_last_by_text_upto(all, m);
        let prev = last_by_text_upto(all, m);
        let cur = last_by_text_upto(all, n);
        if !repeated_later(all, m as int) {
            assert forall|a: int| 0 <= a < prev.len() implies predicate_text(#[trigger] prev[a])
                != predicate_text(all[m as int]) by {
                let k = choose|k: int| 0 <= k < m && prev[a] == all[k] && !repeated_later(all, k);
                if predicate_text(prev[a]) == predicate_text(all[m as int]) {
                    assert(predicate_text(all[m as int]) == predicate_text(all[k]));
                    assert(repeated_later(all, k));
                }
            }
            assert forall|a: int, b: int| 0 <= a < b < cur.len() implies predicate_text(
                #[trigger] cur[a],
            ) != predicate_text(#[trigger] cur[b]) by {
                assert(cur[a] == prev[a]);
                if b < prev.len() {
                    assert(cur[b] == prev[b]);
                } else {
                    assert(cur[b] == all[m as int]);
                }
            }
            assert forall|a: int| 0 <= a < cur.len() implies exists|k: int|
                0 <= k < n && #[trigger] cur[a] == all[k] && !repeated_later(all, k) by {
                if a < prev.len() {
                    assert(cur[a] == prev[a]);
                    let k = choose|k: int| 0 <= k < m && prev[a] == all[k] && !repeated_later(all, k);
                    assert(cur[a] == all[k]);
                } else {
                    assert(cur[a] == all[m as int]);
                }
            }
        }
    }
}

/// A listing under keys of bounds whose predicate texts differ repeats no
/// predicate text.
proof fn lemma_listing_keeps_texts_distinct(
    r: Seq<BoundModel>,
    all: Seq<BoundModel>,
    ks: Seq<Seq<char>>,
)
    requires
        ks.len() == all.len(),
        distinct_texts(all),
        lists_in_key_order(r, keyed(all, ks)),
    ensures
        distinct_texts(r),
{
    let m = keyed(all, ks);
    lemma_keyed_values_come_from(all, ks);
    let rk = choose|rk: Seq<Seq<char>>| #[trigger] listing_keys(r, m, rk);
    assert forall|a: int, b: int| 0 <= a < b < r.len() implies predicate_text(#[trigger] r[a])
        != predicate_text(#[trigger] r[b]) by {
        lemma_lt_distinct(rk[a], rk[b]);
        assert(m.contains_key(rk[a]));
        assert(m.contains_key(rk[b]));
        let i = choose|i: int| 0 <= i < all.len() && all[i] == m[rk[a]] && ks[i] == rk[a];
        let j = choose|j: int| 0 <= j < all.len() && all[j] == m[rk[b]] && ks[j] == rk[b];
        assert(i != j);
        if i < j {
            assert(predicate_text(all[i]) != predicate_text(all[j]));
        } else {
            assert(predicate_text(all[j]) != predicate_text(all[i]));
        }
    }
}

/// What `display` lists when inference succeeds are inferred bounds, each a
/// formatting trait other than `Pointer` on a type that depends on the
/// generics.
pub proof fn law_display_lists_display_bounds(
    cs: Seq<FieldContainer>,
    generics: Seq<GenericParam>,
    r: Seq<BoundModel>,
)
    requires
        inferred_display_bounds(cs, generics) is Ok,
        lists_under_some_keys(r, last_by_text(inferred_display_bounds(cs, generics)->Ok_0)),
    ensures
        forall|i: int| 0 <= i < r.len() ==> is_display_bound(#[trigger] r[i], generics),
        forall|i: int|
            0 <= i < r.len() ==> inferred_display_bounds(cs, generics)->Ok_0.contains(
                #[trigger] r[i],
            ),
{
    let all = inferred_display_bounds(cs, generics)->Ok_0;
    let merged = last_by_text(all);
    law_display_bounds_follow_generic_uses(cs, generics);
    lemma_last_by_text_upto(all, all.len());
    let ks = choose|ks: Seq<Seq<char>>|
        ks.len() == merged.len() && lists_in_key_order(r, #[trigger] keyed(merged, ks));
    let m = keyed(merged, ks);
    lemma_keyed_values_come_from(merged, ks);
    let rk = choose|rk: Seq<Seq<char>>| #[trigger] listing_keys(r, m, rk);
    assert forall|i: int| 0 <= i < r.len() implies all.contains(#[trigger] r[i]) && is_display_bound(
        r[i],
        generics,
    ) by {
        assert(m.contains_key(rk[i]));
        let j = choose|j: int| 0 <= j < merged.len() && merged[j] == m[rk[i]] && ks[j] == rk[i];
        let k = choose|k: int| 0 <= k < all.len() && merged[j] == all[k] && !repeated_later(all, k);
        assert(all[k] == r[i]);
    }
}

/// Once a container fails, inference over any longer prefix fails with the
/// same error.
proof fn lemma_inference_stops(cs: Seq<FieldContainer>, generics: Seq<GenericParam>, n: nat)
    requires
        0 < n <= cs.len(),
        inferred_display_bounds(cs.take(n - 1), generics) is Ok,
        container_display_bounds(cs[n - 1], generics, (n - 1) as usize) is Err,
    ensures
        inferred_display_bounds(cs, generics) == Err::<Seq<BoundModel>, BoundsError>(
            container_display_bounds(cs[n - 1], generics, (n - 1) as usize)->Err_0,
        ),
    decreases cs.len() - n,
{
    assert(cs.take(n as int).drop_last() =~= cs.take(n - 1));
    assert(cs.take(n as int).last() == cs[n - 1]);
    lemma_errors_persist(cs, generics, n);
}

proof fn lemma_errors_persist(cs: Seq<FieldContainer>, generics: Seq<GenericParam>, n: nat)
    requires
        n <= cs.len(),
        inferred_display_bounds(cs.take(n as int), generics) is Err,
    ensures
        inferred_display_bounds(cs, generics) == inferred_display_bounds(cs.take(n as int), generics),
    decreases cs.len() - n,
{
    if n < cs.len() {
        assert(cs.take((n + 1) as int).drop_last() =~= cs.take(n as int));
        lemma_errors_persist(cs, generics, n + 1);
    } else {
        assert(cs.take(n as int) =~= cs);
    }
}

proof fn lemma_lookup_found(fs: Seq<(Seq<char>, Ty)>, n: Seq<char>)
    ensures
        lookup_type(fs, n) is Some ==> exists|i: int| 0 <= i < fs.len() && (#[trigger] fs[i]).0 == n,
    decreases fs.len(),
{
    if fs.len() > 0 && fs.last().0 != n {
        lemma_lookup_found(fs.drop_last(), n);
        if lookup_type(fs, n) is Some {
            let i = choose|i: int| 0 <= i < fs.drop_last().len() && (#[trigger] fs.drop_last()[i]).0 == n;
            assert(fs[i] == fs.drop_last()[i]);
        }
    } else if fs.len() > 0 {
        assert(fs[fs.len() - 1].0 == n);
    }
}

proof fn lemma_uses_bounds_cover(
    us: Seq<(ArgumentModel, FormatTrait)>,
    args: Seq<Expr>,
    fs: Seq<(Seq<char>, Ty)>,
    generics: Seq<GenericParam>,
    k: int,
)
    requires
        0 <= k < us.len(),
        use_bound(us[k], args, fs, generics) is Some,
    ensures
        uses_bounds(us, args, fs, generics).contains(use_bound(us[k], args, fs, generics)->Some_0),
    decreases us.len(),
{
    let all = uses_bounds(us, args, fs, generics);
    let b = use_bound(us[k], args, fs, generics)->Some_0;
    if k == us.len() - 1 {
        assert(all[all.len() - 1] == b);
    } else {
        assert(us.drop_last()[k] == us[k]);
        lemma_uses_bounds_cover(us.drop_last(), args, fs, generics, k);
        let prev = uses_bounds(us.drop_last(), args, fs, generics);
        let j = choose|j: int| 0 <= j < prev.len() && prev[j] == b;
        assert(all[j] == b);
    }
}

/// Every use of a readable format that formats a field whose type depends
/// on the generics, through a trait other than `Pointer`, bounds that type
/// by that trait; the source field counts as a field that a format can name.
pub proof fn law_dependent_uses_are_bounded(
    c: FieldContainer,
    generics: Seq<GenericParam>,
    idx: usize,
    t: Seq<char>,
    at_literal: bool,
    us: Seq<(ArgumentModel, FormatTrait)>,
    k: int,
    n: Seq<char>,
    ty: Ty,
)
    requires
        !c.is_transparent,
        format_source(c) == FormatSourceModel::Text(t, at_literal),
        spec_parse_format(t) == Some(us),
        0 <= k < us.len(),
        use_field(us[k].0, format_args(c)) == Some(n),
        lookup_type(named_types(c), n) == Some(ty),
        spec_depends_on_generics(ty, generics),
        us[k].1 != FormatTrait::Pointer,
    ensures
        container_display_bounds(c, generics, idx) is Ok,
        container_display_bounds(c, generics, idx)->Ok_0.contains(
            BoundModel::Inferred(ty, Capability::Fmt(us[k].1)),
        ),
{
    let fs = named_types(c);
    lemma_lookup_found(fs, n);
    let i = choose|i: int| 0 <= i < fs.len() && (#[trigger] fs[i]).0 == n;
    assert(entry_depends(fs, i, generics));
    assert(any_field_depends(fs, generics));
    assert(use_bound(us[k], format_args(c), fs, generics) == Some(
        BoundModel::Inferred(ty, Capability::Fmt(us[k].1)),
    ));
    lemma_uses_bounds_cover(us, format_args(c), fs, generics, k);
}

proof fn lemma_name_not_suffix(t1: FormatTrait, t2: FormatTrait)
    requires
        t1 != t2,
        t1.spec_name().len() <= t2.spec_name().len(),
    ensures
        t2.spec_name().skip(t2.spec_name().len() - t1.spec_name().len()) != t1.spec_name(),
{
    reveal_strlit("Display");
    reveal_strlit("Debug");
    reveal_strlit("LowerHex");
    reveal_strlit("UpperHex");
    reveal_strlit("Octal");
    reveal_strlit("Binary");
    reveal_strlit("Pointer");
    reveal_strlit("LowerExp");
    reveal_strlit("UpperExp");
    let n1 = t1.spec_name();
    let n2 = t2.spec_name();
    let k = n2.len() - n1.len();
    let tail = n2.skip(k);
    if n1.last() != n2.last() {
        assert(tail[n1.len() - 1] == n2[n2.len() - 1]);
    } else {
        assert(tail[0] == n2[k]);
        assert(tail[0] != n1[0]);
    }
}

/// Different types or traits give different predicate texts.
pub proof fn lemma_fmt_predicate_injective(a: Seq<char>, b: Seq<char>, t1: FormatTrait, t2: FormatTrait)
    requires
        fmt_predicate_text(a, t1) == fmt_predicate_text(b, t2),
    ensures
        a == b,
        t1 == t2,
{
    let sep = " : ::core::fmt::"@;
    let n1 = t1.spec_name();
    let n2 = t2.spec_name();
    let s = fmt_predicate_text(a, t1);
    assert(s =~= a + sep + n1);
    assert(s =~= b + sep + n2);
    if t1 != t2 {
        if n1.len() <= n2.len() {
            lemma_name_not_suffix(t1, t2);
            assert(s.skip(s.len() - n1.len()) =~= n1);
            assert(s.skip(s.len() - n1.len()) =~= n2.skip(n2.len() - n1.len()));
        } else {
            lemma_name_not_suffix(t2, t1);
            assert(s.skip(s.len() - n2.len()) =~= n2);
            assert(s.skip(s.len() - n2.len()) =~= n1.skip(n1.len() - n2.len()));
        }
    }
    assert(a.len() == b.len());
    assert(s.take(a.len() as int) =~= a);
    assert(s.take(b.len() as int) =~= b);
}

proof fn lemma_kept_upto(all: Seq<BoundModel>, n: nat, i: int)
    requires
        n <= all.len(),
        0 <= i < n,
        !repeated_later(all, i),
    ensures
        last_by_text_upto(all, n).contains(all[i]),
    decreases n,
{
    let cur = last_by_text_upto(all, n);
    if i == n - 1 {
        assert(cur[cur.len() - 1] == all[i]);
    } else {
        lemma_kept_upto(all, (n - 1) as nat, i);
        let prev = last_by_text_upto(all, (n - 1) as nat);
        let k = choose|k: int| 0 <= k < prev.len() && prev[k] == all[i];
        assert(cur[k] == all[i]);
    }
}

proof fn lemma_last_of_text(all: Seq<BoundModel>, i: int) -> (j: int)
    requires
        0 <= i < all.len(),
    ensures
        i <= j < all.len(),
        predicate_text(all[j]) == predicate_text(all[i]),
        !repeated_later(all, j),
    decreases all.len() - i,
{
    if repeated_later(all, i) {
        let j1 = choose|j: int| i < j < all.len() && predicate_text(#[trigger] all[j]) == predicate_text(
            all[i],
        );
        lemma_last_of_text(all, j1)
    } else {
        i
    }
}

/// Merging by predicate text loses no type and trait: every formatting
/// bound has one with the same type text and trait among those kept.
pub proof fn law_merging_keeps_every_type_and_trait(all: Seq<BoundModel>)
    ensures
        forall|i: int|
            #![trigger all[i]]
            0 <= i < all.len() ==> (all[i] matches BoundModel::Inferred(ty, Capability::Fmt(t))
                ==> exists|j: int|
                #![trigger last_by_text(all)[j]]
                0 <= j < last_by_text(all).len() && (last_by_text(all)[j] matches BoundModel::Inferred(
                    ty2,
                    Capability::Fmt(t2),
                ) && ty2.text@ == ty.text@ && t2 == t)),
{
    let kept = last_by_text(all);
    assert forall|i: int|
        #![trigger all[i]]
        0 <= i < all.len() implies (all[i] matches BoundModel::Inferred(ty, Capability::Fmt(t))
            ==> exists|j: int|
            #![trigger kept[j]]
            0 <= j < kept.len() && (kept[j] matches BoundModel::Inferred(ty2, Capability::Fmt(t2))
                && ty2.text@ == ty.text@ && t2 == t)) by {
        if let BoundModel::Inferred(ty, Capability::Fmt(t)) = all[i] {
            let j = lemma_last_of_text(all, i);
            lemma_kept_upto(all, all.len(), j);
            let k = choose|k: int| 0 <= k < kept.len() && kept[k] == all[j];
            reveal_strlit(" : ::core::fmt::");
            assert(predicate_text(all[i]).len() > 0);
            if let BoundModel::Inferred(ty2, Capability::Fmt(t2)) = all[j] {
                lemma_fmt_predicate_injective(ty2.text@, ty.text@, t2, t);
                assert(ty2.text@ == ty.text@);
            } else {
                assert(predicate_text(all[j]).len() == 0);
            }
        }
    }
}

} // verus!
