use quote::ToTokens;
use snafu_bounds::bounds::{compat, construction, source, Bound, Capability};
use snafu_bounds::container::{
    DisplayFormat, DocComment, Expr, Field, FieldContainer, Lit, SelectorKind, SourceField,
    WherePredicate,
};
use snafu_bounds::display::{direct_field, display, BoundsError};
use snafu_bounds::format::FormatTrait;
use snafu_bounds::keyed::{fmt_bound_key, fmt_predicate, key_from_rendering, order_by_keys};
use snafu_bounds::ty::{
    Spacing,
    depends_on_generics, inner_type, Delimiter, GenericArgument, GenericParam, PathArguments,
    PathSegment, TokenTree, Ty, TyShape,
};

fn token_trees(ts: proc_macro2::TokenStream) -> Vec<TokenTree> {
    ts.into_iter()
        .map(|t| match t {
            proc_macro2::TokenTree::Ident(i) => TokenTree::Ident(i.to_string()),
            proc_macro2::TokenTree::Punct(p) => TokenTree::Punct(
                p.as_char(),
                match p.spacing() {
                    proc_macro2::Spacing::Alone => Spacing::Alone,
                    proc_macro2::Spacing::Joint => Spacing::Joint,
                },
            ),
            proc_macro2::TokenTree::Literal(l) => TokenTree::Literal(l.to_string()),
            proc_macro2::TokenTree::Group(g) => {
                let d = match g.delimiter() {
                    proc_macro2::Delimiter::Parenthesis => Delimiter::Parenthesis,
                    proc_macro2::Delimiter::Brace => Delimiter::Brace,
                    proc_macro2::Delimiter::Bracket => Delimiter::Bracket,
                    proc_macro2::Delimiter::None => Delimiter::Invisible,
                };
                TokenTree::Group(d, token_trees(g.stream()))
            }
        })
        .collect()
}

fn model(t: &syn::Type) -> Ty {
    let shape = match t {
        syn::Type::Reference(r) => TyShape::Reference(Box::new(model(&r.elem))),
        syn::Type::Path(p) => TyShape::Path(
            p.path
                .segments
                .iter()
                .map(|s| PathSegment {
                    ident: s.ident.to_string(),
                    arguments: match &s.arguments {
                        syn::PathArguments::None => PathArguments::Bare,
                        syn::PathArguments::Parenthesized(_) => PathArguments::Parenthesized,
                        syn::PathArguments::AngleBracketed(a) => PathArguments::AngleBracketed(
                            a.args
                                .iter()
                                .map(|g| match g {
                                    syn::GenericArgument::Type(t) => GenericArgument::Type(model(t)),
                                    _ => GenericArgument::Other,
                                })
                                .collect(),
                        ),
                    },
                })
                .collect(),
        ),
        _ => TyShape::Other,
    };
    Ty {
        text: t.to_token_stream().to_string(),
        tokens: token_trees(t.to_token_stream()),
        shape,
    }
}

fn ty(src: &str) -> Ty {
    model(&syn::parse_str::<syn::Type>(src).unwrap())
}

fn params(names: &[&str]) -> Vec<GenericParam> {
    names.iter().map(|n| GenericParam::Type(n.to_string())).collect()
}

fn field(name: &str, t: &str) -> Field {
    Field { name: name.into(), ty: ty(t) }
}

fn lit(s: &str) -> Expr {
    Expr::Lit(Lit::Str(s.into()))
}

fn path(s: &str) -> Expr {
    Expr::Path(Some(s.into()))
}

fn assign(name: &str, value: Expr) -> Expr {
    Expr::Assign(Box::new(path(name)), Box::new(value))
}

fn predicate(src: &str) -> WherePredicate {
    let p: syn::WherePredicate = syn::parse_str(src).unwrap();
    WherePredicate { tokens: token_trees(p.to_token_stream()) }
}

/// A struct error or variant with context fields, an optional source and a display format.
fn context(
    name: &str,
    fields: &[(&str, &str)],
    source: Option<(&str, &str)>,
    format: Option<Vec<Expr>>,
) -> FieldContainer {
    FieldContainer {
        name: name.into(),
        is_transparent: false,
        selector_kind: SelectorKind::Context {
            source_field: source.map(|(n, t)| SourceField {
                name: n.into(),
                target_ty: ty(t),
                backtrace_delegate: false,
            }),
            user_fields: fields.iter().map(|(n, t)| field(n, t)).collect(),
        },
        implicit_fields: vec![],
        backtrace_field: None,
        display_format: format.map(|exprs| DisplayFormat { exprs }),
        doc_comment: None,
    }
}

fn cap_name(c: Capability) -> &'static str {
    match c {
        Capability::AsErrorSource => "AsErrorSource",
        Capability::ErrorCompat => "ErrorCompat",
        Capability::AsBacktrace => "AsBacktrace",
        Capability::GenerateImplicitData => "GenerateImplicitData",
        Capability::Fmt(t) => t.name(),
    }
}

fn summary(bounds: &[Bound<'_>]) -> Vec<(String, &'static str)> {
    bounds
        .iter()
        .map(|b| match b {
            Bound::Inferred { ty, capability } => (ty.text.clone(), cap_name(*capability)),
            Bound::Given(p) => (format!("{:?}", p.tokens), "given"),
        })
        .collect()
}

fn pairs(expected: &[(&str, &'static str)]) -> Vec<(String, &'static str)> {
    expected
        .iter()
        .map(|(t, c)| (ty(t).text, *c))
        .collect()
}

#[test]
fn explicit_bounds_replace_inference_including_an_empty_list() {
    let generics = params(&["T"]);
    // #[snafu(display("{}", value.describe()), display_bounds(T: Describe, T::Description: fmt::Display))]
    let description = vec![context(
        "Description",
        &[("value", "T")],
        None,
        Some(vec![lit("{}"), Expr::Other]),
    )];
    let given = vec![
        predicate("T: Describe"),
        predicate("T::Description: fmt::Display"),
    ];
    let bounds = display(&description, &generics, Some(&given)).unwrap();
    assert_eq!(bounds, vec![Bound::Given(&given[0]), Bound::Given(&given[1])]);
    // Inference alone finds no field formatted directly.
    assert_eq!(display(&description, &generics, None).unwrap(), vec![]);

    // #[snafu(display(concat!("constant", " message")), display_bounds())]
    let explicit_empty = vec![context(
        "ExplicitEmpty",
        &[("value", "T")],
        None,
        Some(vec![Expr::Other]),
    )];
    let none: Vec<WherePredicate> = vec![];
    assert_eq!(display(&explicit_empty, &generics, Some(&none)).unwrap(), vec![]);
    // Without the empty list, the non-literal format could not be inferred from.
    assert_eq!(
        display(&explicit_empty, &generics, None),
        Err(BoundsError::NonLiteralFormat(0))
    );
}

#[test]
fn enum_bounds_apply_to_the_whole_display_impl() {
    let generics = params(&["T"]);
    let variants = vec![
        context("Value", &[("value", "T")], None, Some(vec![lit("{value}")])),
        context("Empty", &[], None, Some(vec![lit("empty")])),
    ];
    let given = vec![predicate("T: fmt::Display")];
    let bounds = display(&variants, &generics, Some(&given)).unwrap();
    assert_eq!(bounds, vec![Bound::Given(&given[0])]);
    assert_eq!(
        summary(&display(&variants, &generics, None).unwrap()),
        pairs(&[("T", "Display")])
    );
}

#[test]
fn format_parameter_mapping_and_borrowed_pointer_semantics() {
    let generics = params(&["T"]);
    // #[snafu(display("{{{1:.*}}} {value:x?} {value:#X?}", precision, value))]
    let cursor = vec![context(
        "FormatCursor",
        &[("value", "T"), ("precision", "usize")],
        None,
        Some(vec![
            lit("{{{1:.*}}} {value:x?} {value:#X?}"),
            path("precision"),
            path("value"),
        ]),
    )];
    assert_eq!(
        summary(&display(&cursor, &generics, None).unwrap()),
        pairs(&[("T", "Debug"), ("T", "Display")])
    );

    // #[snafu(display("{value:width$.precision$}", width = width, precision = precision))]
    let dynamic = vec![context(
        "DynamicWidth",
        &[("value", "T"), ("width", "usize"), ("precision", "usize")],
        None,
        Some(vec![
            lit("{value:width$.precision$}"),
            assign("width", path("width")),
            assign("precision", path("precision")),
        ]),
    )];
    assert_eq!(
        summary(&display(&dynamic, &generics, None).unwrap()),
        pairs(&[("T", "Display")])
    );

    // #[snafu(display("{value:0$}", width))]
    let zero = vec![context(
        "WidthZero",
        &[("value", "T"), ("width", "usize")],
        None,
        Some(vec![lit("{value:0$}"), path("width")]),
    )];
    assert_eq!(
        summary(&display(&zero, &generics, None).unwrap()),
        pairs(&[("T", "Display")])
    );

    // #[snafu(display("{value:p}"))]
    let pointer = vec![context(
        "Pointer",
        &[("value", "T")],
        None,
        Some(vec![lit("{value:p}")]),
    )];
    assert_eq!(display(&pointer, &generics, None).unwrap(), vec![]);
}

/// The read failure of a host: a source of any type and a byte count.
fn read_failure() -> Vec<FieldContainer> {
    vec![
        context(
            "Host",
            &[("completed", "usize")],
            Some(("source", "E")),
            Some(vec![lit("read failed after {completed} bytes")]),
        ),
        context(
            "Eof",
            &[("completed", "usize")],
            None,
            Some(vec![lit("unexpected EOF after {completed} bytes")]),
        ),
    ]
}

#[test]
fn future_and_stream_context_accept_non_debug_borrowed_sources() {
    let generics = params(&["E"]);
    let variants = read_failure();
    // Attaching context constructs the error: nothing is asked of the source.
    for v in &variants {
        assert_eq!(construction(v, &generics), vec![]);
    }
    // Displaying formats only the byte count.
    assert_eq!(display(&variants, &generics, None).unwrap(), vec![]);
    // Only exposing the source as an error asks something of it.
    assert_eq!(summary(&source(&variants[0], &generics)), pairs(&[("E", "AsErrorSource")]));
    assert_eq!(source(&variants[1], &generics), vec![]);
}

#[test]
fn arbitrary_borrowed_source_can_be_constructed_and_displayed() {
    let generics = params(&["E"]);
    let variants = read_failure();
    assert_eq!(display(&variants, &generics, None).unwrap(), vec![]);
    assert_eq!(compat(&variants[0], &generics), vec![]);
    assert_eq!(construction(&variants[0], &generics), vec![]);
    assert_eq!(construction(&variants[1], &generics), vec![]);
}

#[test]
fn formatting_bounds_do_not_restrict_construction() {
    let generics = params(&["T", "H"]);
    // #[snafu(display("{value} {value:#?} {hex:#x}"))]
    let values = vec![context(
        "Values",
        &[("value", "T"), ("hex", "H")],
        None,
        Some(vec![lit("{value} {value:#?} {hex:#x}")]),
    )];
    assert_eq!(
        summary(&display(&values, &generics, None).unwrap()),
        pairs(&[("H", "LowerHex"), ("T", "Debug"), ("T", "Display")])
    );
    assert_eq!(construction(&values[0], &generics), vec![]);
}

#[test]
fn display_constraints_follow_used_field_types() {
    let generics = params(&["E", "O"]);
    // #[snafu(display("source: {source:?}; operation: {operation}"))]
    let source_display = vec![context(
        "SourceDisplay",
        &[("operation", "O")],
        Some(("source", "E")),
        Some(vec![lit("source: {source:?}; operation: {operation}")]),
    )];
    assert_eq!(
        summary(&display(&source_display, &generics, None).unwrap()),
        pairs(&[("E", "Debug"), ("O", "Display")])
    );
    // Only the source needs to be exposed as an error, not the context.
    assert_eq!(
        summary(&source(&source_display[0], &generics)),
        pairs(&[("E", "AsErrorSource")])
    );

    // The bound is on the field's type, not on the parameter inside it.
    let generics = params(&["T"]);
    let whole = vec![context(
        "WholeField",
        &[("value", "Constant<T>")],
        None,
        Some(vec![lit("{value}")]),
    )];
    assert_eq!(
        summary(&display(&whole, &generics, None).unwrap()),
        pairs(&[("Constant<T>", "Display")])
    );
}

#[test]
fn associated_and_boxed_dyn_sources_remain_supported() {
    let generics = params(&["H"]);
    let associated = context(
        "Associated",
        &[],
        Some(("source", "H::Failure")),
        Some(vec![lit("host failed")]),
    );
    assert_eq!(
        summary(&source(&associated, &generics)),
        pairs(&[("H::Failure", "AsErrorSource")])
    );
    let generics = params(&["E"]);
    let boxed = context(
        "Boxed",
        &[],
        Some(("source", "Box<E>")),
        Some(vec![lit("boxed source")]),
    );
    // Method calls autoderef through the box: the bound is on `E`.
    assert_eq!(summary(&source(&boxed, &generics)), pairs(&[("E", "AsErrorSource")]));
}

#[test]
fn transparent_opaque_and_transformed_construction_is_unconstrained() {
    let generics = params(&["E"]);
    let transparent = FieldContainer {
        name: "Transparent".into(),
        is_transparent: true,
        selector_kind: SelectorKind::NoContext {
            source_field: SourceField {
                name: "source".into(),
                target_ty: ty("E"),
                backtrace_delegate: false,
            },
        },
        implicit_fields: vec![],
        backtrace_field: None,
        display_format: None,
        doc_comment: None,
    };
    assert_eq!(construction(&transparent, &generics), vec![]);
    let all = vec![transparent];
    // A transparent error displays as its source.
    assert_eq!(
        summary(&display(&all, &generics, None).unwrap()),
        pairs(&[("E", "Display")])
    );
    // #[snafu(source(from(E, Box::new)))] source: Box<E>
    let converted = context(
        "Converted",
        &[],
        Some(("source", "Box<E>")),
        Some(vec![lit("converted")]),
    );
    assert_eq!(construction(&converted, &generics), vec![]);
    assert_eq!(summary(&source(&converted, &generics)), pairs(&[("E", "AsErrorSource")]));
}

#[test]
fn backtrace_compatibility_is_independent_of_error() {
    let generics = params(&["E"]);
    let mut delegated = context(
        "Delegated",
        &[],
        Some(("source", "E")),
        Some(vec![lit("delegated")]),
    );
    if let SelectorKind::Context { source_field: Some(s), .. } = &mut delegated.selector_kind {
        s.backtrace_delegate = true;
    }
    assert_eq!(summary(&compat(&delegated, &generics)), pairs(&[("E", "ErrorCompat")]));
    assert_eq!(construction(&delegated, &generics), vec![]);
    let all = vec![delegated];
    assert_eq!(display(&all, &generics, None).unwrap(), vec![]);
}

#[test]
fn implicit_data_keeps_source_aware_generation() {
    let generics = params(&["E"]);
    let mut implicit = context(
        "Implicit",
        &[],
        Some(("source", "E")),
        Some(vec![lit("implicit context")]),
    );
    implicit.implicit_fields = vec![field("marker", "SourceMarker")];
    // The marker is concrete; generating it with the source keeps the source capability.
    assert_eq!(
        summary(&construction(&implicit, &generics)),
        pairs(&[("E", "AsErrorSource")])
    );
}

#[test]
fn generic_implicit_data_and_backtrace_fields_are_bounded() {
    let generics = params(&["B", "M"]);
    let mut c = context("Traced", &[], None, None);
    c.implicit_fields = vec![field("marker", "M"), field("count", "u8")];
    c.backtrace_field = Some(field("backtrace", "B"));
    assert_eq!(
        summary(&construction(&c, &generics)),
        pairs(&[("M", "GenerateImplicitData"), ("B", "GenerateImplicitData")])
    );
    assert_eq!(summary(&compat(&c, &generics)), pairs(&[("B", "AsBacktrace")]));
}

#[test]
fn whatever_sources_are_seen_through_their_option() {
    let generics = params(&["S"]);
    let c = FieldContainer {
        name: "Whatever".into(),
        is_transparent: false,
        selector_kind: SelectorKind::Whatever {
            source_field: Some(SourceField {
                name: "source".into(),
                target_ty: ty("Option<Box<S>>"),
                backtrace_delegate: false,
            }),
            message_field: field("message", "String"),
        },
        implicit_fields: vec![],
        backtrace_field: None,
        display_format: None,
        doc_comment: None,
    };
    assert_eq!(summary(&source(&c, &generics)), pairs(&[("S", "AsErrorSource")]));
}

#[test]
fn references_and_standard_pointers_are_followed() {
    let generics = params(&["E", "a"]);
    for (t, expected) in [
        ("&'a E", "E"),
        ("std::sync::Arc<E>", "E"),
        ("Rc<&'a Box<E>>", "E"),
        ("Box<dyn Fn(E)>", "dyn Fn(E)"),
        ("MyBox<E>", "MyBox<E>"),
    ] {
        let c = context("C", &[], Some(("source", t)), None);
        assert_eq!(summary(&source(&c, &generics)), pairs(&[(expected, "AsErrorSource")]), "{t}");
    }
    // A lifetime parameter counts as a generic as well.
    let c = context("C", &[], Some(("source", "&'a str")), None);
    assert_eq!(summary(&source(&c, &generics)), pairs(&[("str", "AsErrorSource")]));
    let c = context("C", &[], Some(("source", "std::io::Error")), None);
    assert_eq!(source(&c, &generics), vec![]);
}

#[test]
fn dependence_looks_inside_every_token_group() {
    let generics = vec![
        GenericParam::Type("T".into()),
        GenericParam::Lifetime("a".into()),
        GenericParam::Const("N".into()),
    ];
    assert!(depends_on_generics(&ty("Vec<(u8, [T; 2])>"), &generics));
    assert!(depends_on_generics(&ty("[u8; N]"), &generics));
    assert!(depends_on_generics(&ty("&'a str"), &generics));
    assert!(depends_on_generics(&ty("<X as Tr<T>>::Out"), &generics));
    assert!(!depends_on_generics(&ty("Vec<(u8, [U; 2])>"), &generics));
    assert!(!depends_on_generics(&ty("std::io::Error"), &generics));
    assert!(!depends_on_generics(&ty("T2"), &generics));
    assert!(!depends_on_generics(&ty("T"), &vec![]));
}

#[test]
fn inner_type_reads_the_last_segment() {
    let t = ty("std::boxed::Box<'static, E>");
    assert_eq!(inner_type(&t, "Box").map(|t| t.text.clone()), Some("E".to_string()));
    assert_eq!(inner_type(&t, "Rc"), None);
    assert_eq!(inner_type(&ty("Box"), "Box"), None);
    assert_eq!(inner_type(&ty("Box<'a>"), "Box"), None);
    assert_eq!(inner_type(&ty("Box::<E>::X"), "Box"), None);
}

#[test]
fn direct_fields_see_through_parentheses() {
    let e = Expr::Paren(Box::new(Expr::Group(Box::new(path("value")))));
    assert_eq!(direct_field(&e), Some(&"value".to_string()));
    assert_eq!(direct_field(&Expr::Path(None)), None);
    assert_eq!(direct_field(&Expr::Other), None);
    assert_eq!(direct_field(&assign("a", path("b"))), None);
}

#[test]
fn named_arguments_map_to_fields() {
    let generics = params(&["T", "U"]);
    // {x} names the field given by x = value; a later assignment wins.
    let c = vec![context(
        "Named",
        &[("value", "T"), ("other", "U")],
        None,
        Some(vec![
            lit("{x} {y:?} {0:o}"),
            assign("x", path("other")),
            assign("x", Expr::Paren(Box::new(path("value")))),
            assign("y", Expr::Other),
            path("other"),
        ]),
    )];
    assert_eq!(
        summary(&display(&c, &generics, None).unwrap()),
        pairs(&[("T", "Display"), ("U", "Octal")])
    );
}

#[test]
fn later_fields_shadow_earlier_ones() {
    let generics = params(&["T"]);
    // The source field named like a context field replaces it.
    let c = vec![context(
        "Shadow",
        &[("inner", "T")],
        Some(("inner", "u8")),
        Some(vec![lit("{inner}")]),
    )];
    assert_eq!(display(&c, &generics, None).unwrap(), vec![]);
}

#[test]
fn doc_comments_are_formats_too() {
    let generics = params(&["T"]);
    let mut c = context("Documented", &[("value", "T")], None, None);
    c.doc_comment = Some(DocComment { content: "value was {value:?}".into() });
    let all = vec![c];
    assert_eq!(
        summary(&display(&all, &generics, None).unwrap()),
        pairs(&[("T", "Debug")])
    );
    let mut bad = context("Bad", &[("value", "T")], None, None);
    bad.doc_comment = Some(DocComment { content: "broken {".into() });
    let all = vec![context("Fine", &[], None, None), bad];
    assert_eq!(
        display(&all, &generics, None),
        Err(BoundsError::UnsupportedFormat { container: 1, at_literal: false })
    );
}

#[test]
fn unreadable_literal_formats_are_reported() {
    let generics = params(&["T"]);
    let c = vec![context("Bad", &[("value", "T")], None, Some(vec![lit("{value:y}")]))];
    assert_eq!(
        display(&c, &generics, None),
        Err(BoundsError::UnsupportedFormat { container: 0, at_literal: true })
    );
    // A non-string literal gives nothing to infer from.
    let c = vec![context("Num", &[("value", "T")], None, Some(vec![Expr::Lit(Lit::Other)]))];
    assert_eq!(display(&c, &generics, None).unwrap(), vec![]);
    // Concrete errors keep their own diagnostics: nothing is read.
    let c = vec![context("Concrete", &[("value", "u8")], None, Some(vec![lit("{")]))];
    assert_eq!(display(&c, &generics, None).unwrap(), vec![]);
}

#[test]
fn repeated_display_bounds_appear_once() {
    let generics = params(&["T"]);
    let variants = vec![
        context("A", &[("value", "T")], None, Some(vec![lit("{value} {value}")])),
        context("B", &[("value", "T")], None, Some(vec![lit("{value:?} {value}")])),
    ];
    assert_eq!(
        summary(&display(&variants, &generics, None).unwrap()),
        pairs(&[("T", "Debug"), ("T", "Display")])
    );
}

#[test]
fn display_bound_keys_are_token_renderings() {
    let t = ty("Vec<T>");
    let b = Bound::Inferred { ty: &t, capability: Capability::Fmt(FormatTrait::Display) };
    let key: String = fmt_bound_key(&b).into_iter().collect();
    assert_eq!(fmt_predicate(&t, FormatTrait::Display), "Vec < T > : ::core::fmt::Display");
    // The key is the rendering of the predicate as the derive quotes it.
    let parsed: syn::Type = syn::parse_str("Vec<T>").unwrap();
    let mut expected = parsed.to_token_stream();
    expected.extend(": ::core::fmt::Display".parse::<proc_macro2::TokenStream>().unwrap());
    let expected = expected.to_string();
    assert_eq!(key, expected);
}

#[test]
fn keys_prefer_the_rendering() {
    let k: String = key_from_rendering("a: b".into(), Some("a : b".into())).into_iter().collect();
    assert_eq!(k, "a : b");
    let k: String = key_from_rendering("'".into(), None).into_iter().collect();
    assert_eq!(k, "'");
}

#[test]
fn dependence_survives_more_generics() {
    let t = ty("Vec<T>");
    assert!(depends_on_generics(&t, &params(&["T"])));
    assert!(depends_on_generics(&t, &params(&["U", "T"])));
    assert!(!depends_on_generics(&t, &params(&["U"])));
}

#[test]
fn standard_pointer_sources_support_unsized_error_objects() {
    let generics = vec![GenericParam::Lifetime("ctx".into()), GenericParam::Type("E".into())];
    for (name, source_ty, message) in [
        ("Shared", "std::sync::Arc<E>", "shared source"),
        ("Local", "std::rc::Rc<E>", "local source"),
        ("Borrowed", "&'ctx E", "borrowed source"),
    ] {
        let c = context(name, &[], Some(("source", source_ty)), Some(vec![lit(message)]));
        assert_eq!(summary(&source(&c, &generics)), pairs(&[("E", "AsErrorSource")]), "{name}");
        assert_eq!(construction(&c, &generics), vec![]);
        let all = vec![c];
        assert_eq!(display(&all, &generics, None).unwrap(), vec![]);
    }
}

#[test]
fn recursion_retains_leaf_and_source_aware_construction_bounds() {
    let generics = params(&["E"]);
    let base = context("Base", &[], Some(("source", "E")), Some(vec![lit("base failure")]));
    // #[snafu(source(from(Recursive<E>, Box::new)))] source: Box<Recursive<E>>, backtrace: snafu::Backtrace
    let mut nested = context(
        "Nested",
        &[],
        Some(("source", "Box<Recursive<E>>")),
        Some(vec![lit("nested failure")]),
    );
    nested.backtrace_field = Some(field("backtrace", "snafu::Backtrace"));
    assert_eq!(construction(&base, &generics), vec![]);
    // Generating the backtrace sees the source, so the source capability stays.
    assert_eq!(
        summary(&construction(&nested, &generics)),
        pairs(&[("Recursive<E>", "AsErrorSource")])
    );
    assert_eq!(summary(&source(&base, &generics)), pairs(&[("E", "AsErrorSource")]));
    assert_eq!(compat(&nested, &generics), vec![]);
    let all = vec![base, nested];
    assert_eq!(display(&all, &generics, None).unwrap(), vec![]);
}

#[test]
fn bounds_are_ordered_by_their_keys() {
    let (a, b, c) = (ty("A"), ty("B"), ty("C"));
    let ba = Bound::Inferred { ty: &a, capability: Capability::Fmt(FormatTrait::Display) };
    let bb = Bound::Inferred { ty: &b, capability: Capability::Fmt(FormatTrait::Display) };
    let bc = Bound::Inferred { ty: &c, capability: Capability::Fmt(FormatTrait::Debug) };
    let keys: Vec<Vec<char>> = ["y", "x", "y"].iter().map(|k| k.chars().collect()).collect();
    // One bound per key, the last one keyed so, in increasing key order.
    assert_eq!(order_by_keys(vec![ba, bb, bc], keys), vec![bb, bc]);
    let keys: Vec<Vec<char>> = ["b", "ab", "a"].iter().map(|k| k.chars().collect()).collect();
    assert_eq!(order_by_keys(vec![ba, bb, bc], keys), vec![bc, bb, ba]);
    assert_eq!(order_by_keys(vec![], vec![]), vec![]);
}

#[test]
fn the_first_failing_container_decides_the_error() {
    let generics = params(&["T"]);
    let fine = || context("Fine", &[("value", "T")], None, Some(vec![lit("{value}")]));
    let non_literal = || context("Dynamic", &[("value", "T")], None, Some(vec![path("value")]));
    let unreadable = || context("Bad", &[("value", "T")], None, Some(vec![lit("{value:y}")]));
    let all = vec![fine(), non_literal(), unreadable()];
    assert_eq!(display(&all, &generics, None), Err(BoundsError::NonLiteralFormat(1)));
    let all = vec![fine(), unreadable(), non_literal()];
    assert_eq!(
        display(&all, &generics, None),
        Err(BoundsError::UnsupportedFormat { container: 1, at_literal: true })
    );
    // A container whose fields do not depend on the generics never fails.
    let concrete = context("Concrete", &[("value", "u8")], None, Some(vec![path("value")]));
    let all = vec![concrete, fine()];
    assert_eq!(summary(&display(&all, &generics, None).unwrap()), pairs(&[("T", "Display")]));
}

#[test]
fn many_containers_need_the_union_of_each_alone() {
    let generics = params(&["T", "U"]);
    let first = || context("First", &[("t", "T")], None, Some(vec![lit("{t} {t:?}")]));
    let second =
        || context("Second", &[("t", "T"), ("u", "U")], None, Some(vec![lit("{t} {u:x}")]));
    let alone_first = vec![first()];
    let alone_second = vec![second()];
    let mut union = summary(&display(&alone_first, &generics, None).unwrap());
    for b in summary(&display(&alone_second, &generics, None).unwrap()) {
        if !union.contains(&b) {
            union.push(b);
        }
    }
    union.sort();
    let together = vec![first(), second()];
    let mut both = summary(&display(&together, &generics, None).unwrap());
    both.sort();
    assert_eq!(both, union);
    assert_eq!(display(&vec![], &generics, None).unwrap(), vec![]);
}

#[test]
fn pointer_formatting_needs_no_bound() {
    let generics = params(&["T"]);
    let c = vec![context("Ptr", &[("value", "T")], None, Some(vec![lit("{value:p} {value:e}")]))];
    assert_eq!(summary(&display(&c, &generics, None).unwrap()), pairs(&[("T", "LowerExp")]));
}

#[test]
fn explicit_bounds_need_no_transparent_source() {
    let generics = params(&["T"]);
    let mut c = context("Opaque", &[], None, None);
    c.is_transparent = true;
    let given = vec![predicate("T: Clone")];
    let containers = vec![c];
    let r = display(&containers, &generics, Some(&given)).unwrap();
    assert_eq!(r, vec![Bound::Given(&given[0])]);
}
