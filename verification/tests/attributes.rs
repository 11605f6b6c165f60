use snafu_bounds::attrs::{parse_tuple_struct, AttrError, Attribute, Attributes, SourceFrom};
use snafu_bounds::container::WherePredicate;
use snafu_bounds::ty::{GenericParam, Spacing, PathArguments, PathSegment, TokenTree, Ty, TyShape};

fn simple_ty(name: &str) -> Ty {
    Ty {
        text: name.into(),
        tokens: vec![TokenTree::Ident(name.into())],
        shape: TyShape::Path(vec![PathSegment { ident: name.into(), arguments: PathArguments::Bare }]),
    }
}

fn pred(name: &str) -> WherePredicate {
    WherePredicate {
        tokens: vec![
            TokenTree::Ident(name.into()),
            TokenTree::Punct(':', Spacing::Alone),
            TokenTree::Ident("Clone".into()),
        ],
    }
}

#[test]
fn accepted_attributes_are_read() {
    let attrs = vec![
        Attribute::DocComment,
        Attribute::DisplayBounds(vec![pred("T")]),
        Attribute::ErrorBounds(vec![]),
        Attribute::ProvideExpression(vec![TokenTree::Ident("a".into())]),
        Attribute::SourceFrom(SourceFrom::Exact),
        Attribute::ProvideExpression(vec![TokenTree::Ident("b".into())]),
        Attribute::CrateRoot(vec![TokenTree::Ident("my_snafu".into())]),
    ];
    let a = Attributes::from_syn(&attrs).unwrap();
    assert_eq!(a.display_bounds, Some(&vec![pred("T")]));
    assert_eq!(a.error_bounds, Some(&vec![]));
    assert_eq!(a.error_compat_bounds, None);
    assert_eq!(a.crate_root, Some(&vec![TokenTree::Ident("my_snafu".into())]));
    assert_eq!(a.source_from, Some(&SourceFrom::Exact));
    assert_eq!(
        a.provide_expressions,
        vec![&vec![TokenTree::Ident("a".into())], &vec![TokenTree::Ident("b".into())]]
    );
}

#[test]
fn misplaced_attributes_are_refused() {
    let attrs = vec![
        Attribute::Display,
        Attribute::Transparent,
        Attribute::DocComment,
        Attribute::Whatever,
        Attribute::Backtrace,
    ];
    assert_eq!(
        Attributes::from_syn(&attrs).unwrap_err(),
        vec![
            AttrError::Invalid(0),
            AttrError::InvalidFlag(1),
            AttrError::Invalid(3),
            AttrError::InvalidFlag(4),
        ]
    );
}

#[test]
fn display_bounds_may_appear_once() {
    let attrs = vec![
        Attribute::DisplayBounds(vec![]),
        Attribute::DisplayBounds(vec![]),
        Attribute::ErrorCompatBounds(vec![]),
        Attribute::ErrorCompatBounds(vec![]),
        Attribute::DisplayBounds(vec![]),
    ];
    assert_eq!(
        Attributes::from_syn(&attrs).unwrap_err(),
        vec![
            AttrError::Duplicate(1),
            AttrError::Duplicate(4),
            AttrError::Duplicate(3),
        ]
    );
}

#[test]
fn tuple_structs_report_all_errors_together() {
    let fields = vec![simple_ty("A"), simple_ty("B")];
    let name = String::from("Opaque");
    let generics = vec![GenericParam::Type("E".into())];
    let attrs = vec![Attribute::Module, Attribute::SourceFrom(SourceFrom::Exact)];
    assert_eq!(
        parse_tuple_struct(&fields, &name, &generics, &attrs).unwrap_err(),
        vec![AttrError::Invalid(0), AttrError::FieldCount(2)]
    );
    let none: Vec<Ty> = vec![];
    assert_eq!(
        parse_tuple_struct(&none, &name, &generics, &vec![]).unwrap_err(),
        vec![AttrError::FieldCount(0)]
    );
}

#[test]
fn opaque_tuple_struct_is_read() {
    let fields = vec![simple_ty("E")];
    let name = String::from("Opaque");
    let generics = vec![GenericParam::Type("E".into())];
    let attrs = vec![
        Attribute::SourceFrom(SourceFrom::Exact),
        Attribute::DisplayBounds(vec![pred("E")]),
    ];
    let info = parse_tuple_struct(&fields, &name, &generics, &attrs).unwrap();
    assert_eq!(info.name, &name);
    assert_eq!(info.generics, &generics);
    assert_eq!(info.field_ty, &fields[0]);
    assert_eq!(info.source_from, Some(&SourceFrom::Exact));
    assert_eq!(info.display_bounds, Some(&vec![pred("E")]));
    assert_eq!(info.error_bounds, None);
    assert_eq!(info.crate_root, None);
    assert!(info.provides.is_empty());
}

#[test]
fn absent_attributes_set_nothing() {
    let attrs = vec![Attribute::DocComment, Attribute::DocComment];
    let a = Attributes::from_syn(&attrs).unwrap();
    assert_eq!(a.display_bounds, None);
    assert_eq!(a.error_bounds, None);
    assert_eq!(a.error_compat_bounds, None);
    assert_eq!(a.crate_root, None);
    assert_eq!(a.source_from, None);
    assert!(a.provide_expressions.is_empty());
}

#[test]
fn each_present_attribute_sets_its_value() {
    let attrs = vec![
        Attribute::ErrorCompatBounds(vec![pred("U")]),
        Attribute::SourceFrom(SourceFrom::Transform {
            ty: simple_ty("io::Error"),
            expr: vec![TokenTree::Ident("convert".into())],
        }),
    ];
    let a = Attributes::from_syn(&attrs).unwrap();
    assert_eq!(a.display_bounds, None);
    assert_eq!(a.error_compat_bounds, Some(&vec![pred("U")]));
    assert_eq!(
        a.source_from,
        Some(&SourceFrom::Transform {
            ty: simple_ty("io::Error"),
            expr: vec![TokenTree::Ident("convert".into())],
        })
    );
}
