//! Bounds belong to the generated capability, not to the error type or its
//! constructors: each capability (source exposure, `ErrorCompat`,
//! construction with implicit data, `Display`) infers its own.
use crate::container::{Field, FieldContainer, SourceField, WherePredicate};
use crate::format::FormatTrait;
use crate::ty::{depends_on_generics, inner_type, spec_depends_on_generics, spec_inner_type, GenericParam, Ty, TyShape};
use vstd::prelude::*;

verus! {

/// The trait that a bound requires. All but `Fmt` are traits of the crate
/// root (`AsErrorSource`, `ErrorCompat`, `AsBacktrace`,
/// `GenerateImplicitData`); `Fmt` is a `core::fmt` trait.
#[derive(Debug, Clone, Copy, PartialEq, Eq)]
pub enum Capability {
    AsErrorSource,
    ErrorCompat,
    AsBacktrace,
    GenerateImplicitData,
    Fmt(FormatTrait),
}

/// One `where` predicate of a generated impl.
#[derive(Debug, Clone, Copy, PartialEq, Eq)]
pub enum Bound<'a> {
    /// `ty: capability`, inferred.
    Inferred { ty: &'a Ty, capability: Capability },
    /// A predicate that the user gave.
    Given(&'a WherePredicate),
}

/// What a [`Bound`] states.
pub enum BoundModel {
    Inferred(Ty, Capability),
    Given(WherePredicate),
}

impl<'a> View for Bound<'a> {
    type V = BoundModel;

    open spec fn view(&self) -> BoundModel {
        match self {
            Bound::Inferred { ty, capability } => BoundModel::Inferred(**ty, *capability),
            Bound::Given(p) => BoundModel::Given(**p),
        }
    }
}

pub open spec fn bounds_view<'a>(v: Seq<Bound<'a>>) -> Seq<BoundModel> {
    v.map_values(|b: Bound<'a>| b@)
}

/// The type that a pointer-like type points to: the referent of a
/// reference, or the argument of a `Box`, `Arc` or `Rc` spelling.
pub open spec fn pointee(ty: Ty) -> Option<Ty> {
    match ty.shape {
        TyShape::Reference(b) => Some(*b),
        _ => match spec_inner_type(ty, "Box"@) {
            Some(t) => Some(t),
            None => match spec_inner_type(ty, "Arc"@) {
                Some(t) => Some(t),
                None => spec_inner_type(ty, "Rc"@),
            },
        },
    }
}

pub proof fn lemma_first_type_arg_smaller(args: Seq<crate::ty::GenericArgument>)
    ensures
        first_type_arg_decreases(args),
    decreases args.len(),
{
    if args.len() > 0 {
        if let crate::ty::GenericArgument::Type(t) = args[0] {
            assert(decreases_to!(args => args[0]));
        } else {
            lemma_first_type_arg_smaller(args.drop_first());
            assert(decreases_to!(args => args.drop_first()));
        }
    }
}

pub open spec fn first_type_arg_decreases(args: Seq<crate::ty::GenericArgument>) -> bool {
    crate::ty::first_type_arg(args) matches Some(t) ==> decreases_to!(args => t)
}

pub proof fn lemma_inner_type_smaller(ty: Ty, name: Seq<char>)
    ensures
        spec_inner_type(ty, name) matches Some(t) ==> decreases_to!(ty => t),
{
    if let TyShape::Path(segs) = ty.shape {
        if segs@.len() > 0 {
            let last = segs@.last();
            if let crate::ty::PathArguments::AngleBracketed(args) = last.arguments {
                lemma_first_type_arg_smaller(args@);
                assert(decreases_to!(ty => ty.shape));
                assert(decreases_to!(segs => segs@));
                assert(decreases_to!(segs@ => segs@[segs@.len() - 1]));
                assert(decreases_to!(args => args@));
            }
        }
    }
}

pub proof fn lemma_pointee_smaller(ty: Ty)
    ensures
        pointee(ty) matches Some(t) ==> decreases_to!(ty => t),
{
    lemma_inner_type_smaller(ty, "Box"@);
    lemma_inner_type_smaller(ty, "Arc"@);
    lemma_inner_type_smaller(ty, "Rc"@);
}

/// The type reached by following references and standard pointer
/// spellings, where method calls autoderef to.
pub open spec fn peel_pointers(ty: Ty) -> Ty
    decreases ty,
{
    match pointee(ty) {
        Some(t) => {
            proof {
                lemma_pointee_smaller(ty);
            }
            peel_pointers(t)
        },
        None => ty,
    }
}

/// The type whose source capability is required: the transformed source
/// type, seen through the `Option` that `whatever` stores.
pub open spec fn source_subject(c: FieldContainer, s: SourceField) -> Ty {
    if c.selector_kind is Whatever {
        match spec_inner_type(s.target_ty, "Option"@) {
            Some(t) => t,
            None => s.target_ty,
        }
    } else {
        s.target_ty
    }
}

/// The bounds of exposing the source: one `AsErrorSource` bound on the
/// pointed-to source type, when the source type depends on the generics.
pub open spec fn spec_source(c: FieldContainer, generics: Seq<GenericParam>) -> Seq<BoundModel> {
    match c.selector_kind.spec_source_field() {
        None => Seq::empty(),
        Some(s) => {
            let ty = source_subject(c, s);
            if spec_depends_on_generics(ty, generics) {
                seq![BoundModel::Inferred(peel_pointers(ty), Capability::AsErrorSource)]
            } else {
                Seq::empty()
            }
        },
    }
}

/// The bounds of `ErrorCompat`: a delegated source must implement
/// `ErrorCompat`, a local backtrace field `AsBacktrace`, each only when its
/// type depends on the generics.
pub open spec fn spec_compat(c: FieldContainer, generics: Seq<GenericParam>) -> Seq<BoundModel> {
    let from_source = match c.selector_kind.spec_source_field() {
        Some(s) => if s.backtrace_delegate && spec_depends_on_generics(s.target_ty, generics) {
            seq![BoundModel::Inferred(s.target_ty, Capability::ErrorCompat)]
        } else {
            Seq::empty()
        },
        None => Seq::empty(),
    };
    let from_backtrace = match c.backtrace_field {
        Some(f) => if spec_depends_on_generics(f.ty, generics) {
            seq![BoundModel::Inferred(f.ty, Capability::AsBacktrace)]
        } else {
            Seq::empty()
        },
        None => Seq::empty(),
    };
    from_source + from_backtrace
}

/// The fields whose values constructors generate: implicit fields, then the
/// backtrace field.
pub open spec fn generated_fields(c: FieldContainer) -> Seq<Field> {
    c.implicit_fields@ + match c.backtrace_field {
        Some(f) => seq![f],
        None => Seq::empty(),
    }
}

/// `GenerateImplicitData` bounds on the generated fields whose types depend
/// on the generics.
pub open spec fn implicit_data_bounds(fs: Seq<Field>, generics: Seq<GenericParam>) -> Seq<BoundModel>
    decreases fs.len(),
{
    if fs.len() == 0 {
        Seq::empty()
    } else {
        let rest = implicit_data_bounds(fs.drop_last(), generics);
        if spec_depends_on_generics(fs.last().ty, generics) {
            rest.push(BoundModel::Inferred(fs.last().ty, Capability::GenerateImplicitData))
        } else {
            rest
        }
    }
}

/// The bounds of constructors: generating implicit data, and, when any data
/// is generated, exposing the source (generation sees the source).
pub open spec fn spec_construction(c: FieldContainer, generics: Seq<GenericParam>) -> Seq<BoundModel> {
    let g = implicit_data_bounds(generated_fields(c), generics);
    if c.implicit_fields@.len() > 0 || c.backtrace_field is Some {
        g + spec_source(c, generics)
    } else {
        g
    }
}

fn pointee_of<'a>(ty: &'a Ty) -> (r: Option<&'a Ty>)
    ensures
        match pointee(*ty) {
            Some(t) => r is Some && *r->Some_0 == t,
            None => r is None,
        },
{
    match &ty.shape {
        TyShape::Reference(b) => {
            return Some(&**b);
        },
        _ => {},
    }
    match inner_type(ty, "Box") {
        Some(t) => Some(t),
        None => match inner_type(ty, "Arc") {
            Some(t) => Some(t),
            None => inner_type(ty, "Rc"),
        },
    }
}

fn peel<'a>(ty: &'a Ty) -> (r: &'a Ty)
    ensures
        *r == peel_pointers(*ty),
    decreases *ty,
{
    proof {
        lemma_pointee_smaller(*ty);
    }
    match pointee_of(ty) {
        Some(t) => peel(t),
        None => ty,
    }
}

/// The bound for exposing the source through `AsErrorSource`.
pub fn source<'a>(container: &'a FieldContainer, generics: &Vec<GenericParam>) -> (r: Vec<Bound<'a>>)
    ensures
        bounds_view(r@) == spec_source(*container, generics@),
{
    let s = match container.selector_kind.source_field() {
        Some(s) => s,
        None => {
            return Vec::new();
        },
    };
    let mut ty = &s.target_ty;
    if container.selector_kind.is_whatever() {
        // `whatever` stores `Option<S>`; the source is the contained `S`.
        ty = match inner_type(ty, "Option") {
            Some(t) => t,
            None => ty,
        };
    }
    if !depends_on_generics(ty, generics) {
        return Vec::new();
    }
    // Method calls autoderef through references and standard pointers.
    let subject = peel(ty);
    let mut r = Vec::new();
    r.push(Bound::Inferred { ty: subject, capability: Capability::AsErrorSource });
    assert(bounds_view(r@) =~= spec_source(*container, generics@));
    r
}

/// The bounds of `ErrorCompat`.
pub fn compat<'a>(container: &'a FieldContainer, generics: &Vec<GenericParam>) -> (r: Vec<Bound<'a>>)
    ensures
        bounds_view(r@) == spec_compat(*container, generics@),
{
    let mut result = Vec::new();
    if let Some(s) = container.selector_kind.source_field() {
        if s.backtrace_delegate && depends_on_generics(&s.target_ty, generics) {
            result.push(Bound::Inferred { ty: &s.target_ty, capability: Capability::ErrorCompat });
        }
    }
    let ghost first = bounds_view(result@);
    if let Some(f) = &container.backtrace_field {
        if depends_on_generics(&f.ty, generics) {
            result.push(Bound::Inferred { ty: &f.ty, capability: Capability::AsBacktrace });
        }
    }
    assert(bounds_view(result@) =~= spec_compat(*container, generics@));
    result
}

/// The bounds of constructors.
pub fn construction<'a>(container: &'a FieldContainer, generics: &Vec<GenericParam>) -> (r: Vec<
    Bound<'a>,
>)
    ensures
        bounds_view(r@) == spec_construction(*container, generics@),
{
    let mut result: Vec<Bound<'a>> = Vec::new();
    let ghost fields = container.implicit_fields@;
    let n = container.implicit_fields.len();
    let mut k: usize = 0;
    assert(bounds_view(result@) =~= implicit_data_bounds(fields.take(0), generics@));
    while k < n
        invariant
            fields == container.implicit_fields@,
            n == fields.len(),
            k <= n,
            bounds_view(result@) == implicit_data_bounds(fields.take(k as int), generics@),
        decreases n - k,
    {
        let f: &'a Field = &container.implicit_fields[k];
        assert(fields.take(k + 1).drop_last() =~= fields.take(k as int));
        let ghost before = result@;
        if depends_on_generics(&f.ty, generics) {
            result.push(Bound::Inferred { ty: &f.ty, capability: Capability::GenerateImplicitData });
            assert(bounds_view(result@) =~= bounds_view(before).push(
                BoundModel::Inferred(f.ty, Capability::GenerateImplicitData),
            ));
        }
        k += 1;
    }
    assert(fields.take(n as int) =~= fields);
    if let Some(f) = &container.backtrace_field {
        assert(generated_fields(*container).drop_last() =~= fields);
        let ghost before = result@;
        if depends_on_generics(&f.ty, generics) {
            result.push(Bound::Inferred { ty: &f.ty, capability: Capability::GenerateImplicitData });
            assert(bounds_view(result@) =~= bounds_view(before).push(
                BoundModel::Inferred(f.ty, Capability::GenerateImplicitData),
            ));
        }
    } else {
        assert(generated_fields(*container) =~= fields);
    }
    // Generating implicit data sees the source: keep what exposing it requires.
    if n > 0 || container.backtrace_field.is_some() {
        let ghost before = result@;
        let mut extra = source(container, generics);
        result.append(&mut extra);
        assert(bounds_view(result@) =~= bounds_view(before) + spec_source(*container, generics@));
    }
    result
}

/// Following pointers ends at a type that is no reference and no standard
/// pointer spelling.
pub proof fn law_peeled_type_points_nowhere(ty: Ty)
    ensures
        pointee(peel_pointers(ty)) is None,
    decreases ty,
{
    lemma_pointee_smaller(ty);
    if let Some(t) = pointee(ty) {
        law_peeled_type_points_nowhere(t);
    }
}

/// Exposing the source needs at most one bound: `AsErrorSource` on the
/// pointed-to source type, which depends on the generics.
pub proof fn law_source_bound_is_single_and_peeled(c: FieldContainer, generics: Seq<GenericParam>)
    ensures
        spec_source(c, generics).len() <= 1,
        forall|i: int|
            0 <= i < spec_source(c, generics).len() ==> ((#[trigger] spec_source(c, generics)[i])
                matches BoundModel::Inferred(t, cap) && cap == Capability::AsErrorSource
                && pointee(t) is None),
        spec_source(c, generics).len() == 1 <==> (c.selector_kind.spec_source_field() matches Some(
            s,
        ) && spec_depends_on_generics(source_subject(c, s), generics)),
{
    if let Some(s) = c.selector_kind.spec_source_field() {
        law_peeled_type_points_nowhere(source_subject(c, s));
    }
}

/// `ErrorCompat` asks nothing of a source it does not delegate backtraces
/// to, and never asks for `AsErrorSource` or a formatting trait.
pub proof fn law_compat_is_independent_of_error(c: FieldContainer, generics: Seq<GenericParam>)
    ensures
        forall|i: int|
            0 <= i < spec_compat(c, generics).len() ==> ((#[trigger] spec_compat(c, generics)[i])
                matches BoundModel::Inferred(_, cap) && (cap == Capability::ErrorCompat || cap
                == Capability::AsBacktrace)),
        (c.selector_kind.spec_source_field() matches Some(s) && !s.backtrace_delegate)
            ==> forall|i: int|
            0 <= i < spec_compat(c, generics).len() ==> ((#[trigger] spec_compat(c, generics)[i])
                matches BoundModel::Inferred(_, cap) && cap == Capability::AsBacktrace),
{
}

proof fn lemma_implicit_data_bounds_capability(fs: Seq<Field>, generics: Seq<GenericParam>)
    ensures
        forall|i: int|
            0 <= i < implicit_data_bounds(fs, generics).len() ==> ((#[trigger] implicit_data_bounds(
                fs,
                generics,
            )[i]) matches BoundModel::Inferred(_, cap) && cap == Capability::GenerateImplicitData),
    decreases fs.len(),
{
    if fs.len() > 0 {
        lemma_implicit_data_bounds_capability(fs.drop_last(), generics);
        let prev = implicit_data_bounds(fs.drop_last(), generics);
        let all = implicit_data_bounds(fs, generics);
        assert forall|i: int| 0 <= i < all.len() implies ((#[trigger] all[i]) matches BoundModel::Inferred(
            _,
            cap,
        ) && cap == Capability::GenerateImplicitData) by {
            if i < prev.len() {
                assert(all[i] == prev[i]);
            }
        }
    }
}

/// Constructors ask only for generating implicit data and, when they
/// generate some, for exposing the source; never for a formatting trait or
/// `ErrorCompat`.
pub proof fn law_construction_asks_only_for_generation(
    c: FieldContainer,
    generics: Seq<GenericParam>,
)
    ensures
        forall|i: int|
            0 <= i < spec_construction(c, generics).len() ==> ((#[trigger] spec_construction(
                c,
                generics,
            )[i]) matches BoundModel::Inferred(_, cap) && (cap == Capability::GenerateImplicitData
                || cap == Capability::AsErrorSource)),
{
    let g = implicit_data_bounds(generated_fields(c), generics);
    lemma_implicit_data_bounds_capability(generated_fields(c), generics);
    law_source_bound_is_single_and_peeled(c, generics);
    let all = spec_construction(c, generics);
    assert forall|i: int| 0 <= i < all.len() implies ((#[trigger] all[i]) matches BoundModel::Inferred(
        _,
        cap,
    ) && (cap == Capability::GenerateImplicitData || cap == Capability::AsErrorSource)) by {
        if i < g.len() {
            assert(all[i] == g[i]);
        } else {
            assert(all[i] == spec_source(c, generics)[i - g.len()]);
        }
    }
}

/// Constructors that generate no data require nothing.
pub proof fn law_plain_construction_is_unconstrained(c: FieldContainer, generics: Seq<GenericParam>)
    requires
        c.implicit_fields@.len() == 0,
        c.backtrace_field is None,
    ensures
        spec_construction(c, generics) == Seq::<BoundModel>::empty(),
{
    assert(generated_fields(c) =~= Seq::<Field>::empty());
}

/// Constructors that generate data keep every bound of exposing the source.
pub proof fn law_generating_construction_keeps_source_bounds(
    c: FieldContainer,
    generics: Seq<GenericParam>,
)
    requires
        c.implicit_fields@.len() > 0 || c.backtrace_field is Some,
    ensures
        forall|i: int|
            0 <= i < spec_source(c, generics).len() ==> spec_construction(c, generics).contains(
                #[trigger] spec_source(c, generics)[i],
            ),
{
    let g = implicit_data_bounds(generated_fields(c), generics);
    let s = spec_source(c, generics);
    assert forall|i: int| 0 <= i < s.len() implies spec_construction(c, generics).contains(
        #[trigger] s[i],
    ) by {
        assert((g + s)[g.len() + i] == s[i]);
    }
}

proof fn lemma_implicit_data_bounds_cover(fs: Seq<Field>, generics: Seq<GenericParam>, i: int)
    requires
        0 <= i < fs.len(),
        spec_depends_on_generics(fs[i].ty, generics),
    ensures
        implicit_data_bounds(fs, generics).contains(
            BoundModel::Inferred(fs[i].ty, Capability::GenerateImplicitData),
        ),
    decreases fs.len(),
{
    let b = BoundModel::Inferred(fs[i].ty, Capability::GenerateImplicitData);
    let all = implicit_data_bounds(fs, generics);
    if i == fs.len() - 1 {
        assert(all[all.len() - 1] == b);
    } else {
        assert(fs.drop_last()[i] == fs[i]);
        lemma_implicit_data_bounds_cover(fs.drop_last(), generics, i);
        let prev = implicit_data_bounds(fs.drop_last(), generics);
        let k = choose|k: int| 0 <= k < prev.len() && prev[k] == b;
        assert(all[k] == b);
    }
}

/// Constructing an error generates every implicit field and the backtrace
/// field, so each of them whose type depends on the generics is bounded by
/// `GenerateImplicitData`.
pub proof fn law_generated_fields_are_bounded(c: FieldContainer, generics: Seq<GenericParam>)
    ensures
        forall|i: int|
            0 <= i < c.implicit_fields@.len() && spec_depends_on_generics(
                #[trigger] c.implicit_fields@[i].ty,
                generics,
            ) ==> spec_construction(c, generics).contains(
                BoundModel::Inferred(c.implicit_fields@[i].ty, Capability::GenerateImplicitData),
            ),
        match c.backtrace_field {
            Some(f) => spec_depends_on_generics(f.ty, generics) ==> spec_construction(
                c,
                generics,
            ).contains(BoundModel::Inferred(f.ty, Capability::GenerateImplicitData)),
            None => true,
        },
{
    let gf = generated_fields(c);
    let g = implicit_data_bounds(gf, generics);
    let all = spec_construction(c, generics);
    assert forall|i: int|
        0 <= i < c.implicit_fields@.len() && spec_depends_on_generics(
            #[trigger] c.implicit_fields@[i].ty,
            generics,
        ) implies all.contains(
        BoundModel::Inferred(c.implicit_fields@[i].ty, Capability::GenerateImplicitData),
    ) by {
        assert(gf[i] == c.implicit_fields@[i]);
        lemma_implicit_data_bounds_cover(gf, generics, i);
        let b = BoundModel::Inferred(c.implicit_fields@[i].ty, Capability::GenerateImplicitData);
        let k = choose|k: int| 0 <= k < g.len() && g[k] == b;
        assert(all[k] == b);
    }
    if let Some(f) = c.backtrace_field {
        if spec_depends_on_generics(f.ty, generics) {
            let i = c.implicit_fields@.len() as int;
            assert(gf[i] == f);
            lemma_implicit_data_bounds_cover(gf, generics, i);
            let b = BoundModel::Inferred(f.ty, Capability::GenerateImplicitData);
            let k = choose|k: int| 0 <= k < g.len() && g[k] == b;
            assert(all[k] == b);
        }
    }
}

} // verus!
