//! The model of one error type (a struct) or one enum variant, as bound
//! inference reads it: its fields, its source, and its display format.
use crate::ty::{TokenTree, Ty};
use vstd::prelude::*;

verus! {

/// A named field with its declared type.
#[derive(Debug, PartialEq, Eq)]
pub struct Field {
    pub name: String,
    pub ty: Ty,
}

/// The source field, by the type it holds once transformed.
#[derive(Debug, PartialEq, Eq)]
pub struct SourceField {
    pub name: String,
    /// The type stored in the error after any `source(from(...))` transformation.
    pub target_ty: Ty,
    /// Whether backtraces are delegated to the source (`#[snafu(backtrace)]`
    /// on the source field).
    pub backtrace_delegate: bool,
}

/// How the error is selected and what its selector carries.
#[allow(inconsistent_fields)]
#[derive(Debug, PartialEq, Eq)]
pub enum SelectorKind {
    /// A context selector with user fields.
    Context { source_field: Option<SourceField>, user_fields: Vec<Field> },
    /// A `whatever` error: a message and an optional boxed source.
    Whatever { source_field: Option<SourceField>, message_field: Field },
    /// No context selector: the source alone (opaque and transparent errors).
    NoContext { source_field: SourceField },
}

/// A display format argument, as far as inference reads it.
#[derive(Debug, PartialEq, Eq)]
pub enum Expr {
    /// A path; `Some` with the identifier when the path is a single identifier.
    Path(Option<String>),
    Paren(Box<Expr>),
    Group(Box<Expr>),
    /// `left = right`.
    Assign(Box<Expr>, Box<Expr>),
    Lit(Lit),
    Other,
}

#[derive(Debug, PartialEq, Eq)]
pub enum Lit {
    /// A string literal, by its value.
    Str(String),
    Other,
}

/// The arguments of `#[snafu(display(...))]`.
#[derive(Debug, PartialEq, Eq)]
pub struct DisplayFormat {
    pub exprs: Vec<Expr>,
}

/// A doc comment used as the display format.
#[derive(Debug, PartialEq, Eq)]
pub struct DocComment {
    pub content: String,
}

/// A struct error or one enum variant.
#[derive(Debug, PartialEq, Eq)]
pub struct FieldContainer {
    pub name: String,
    pub is_transparent: bool,
    pub selector_kind: SelectorKind,
    pub implicit_fields: Vec<Field>,
    pub backtrace_field: Option<Field>,
    pub display_format: Option<DisplayFormat>,
    pub doc_comment: Option<DocComment>,
}

/// A `where` predicate as written by the user.
#[derive(Debug, PartialEq, Eq)]
pub struct WherePredicate {
    pub tokens: Vec<TokenTree>,
}

impl SelectorKind {
    pub open spec fn spec_source_field(self) -> Option<SourceField> {
        match self {
            SelectorKind::Context { source_field, .. } => source_field,
            SelectorKind::Whatever { source_field, .. } => source_field,
            SelectorKind::NoContext { source_field } => Some(source_field),
        }
    }

    pub open spec fn spec_user_fields(self) -> Seq<Field> {
        match self {
            SelectorKind::Context { user_fields, .. } => user_fields@,
            _ => Seq::empty(),
        }
    }

    pub open spec fn spec_message_field(self) -> Option<Field> {
        match self {
            SelectorKind::Whatever { message_field, .. } => Some(message_field),
            _ => None,
        }
    }

    pub fn source_field(&self) -> (r: Option<&SourceField>)
        ensures
            match self.spec_source_field() {
                Some(f) => r is Some && *r->Some_0 == f,
                None => r is None,
            },
    {
        match self {
            SelectorKind::Context { source_field, .. } => source_field.as_ref(),
            SelectorKind::Whatever { source_field, .. } => source_field.as_ref(),
            SelectorKind::NoContext { source_field } => Some(source_field),
        }
    }

    pub fn is_whatever(&self) -> (r: bool)
        ensures
            r == (self is Whatever),
    {
        match self {
            SelectorKind::Whatever { .. } => true,
            _ => false,
        }
    }

    pub fn message_field(&self) -> (r: Option<&Field>)
        ensures
            match self.spec_message_field() {
                Some(f) => r is Some && *r->Some_0 == f,
                None => r is None,
            },
    {
        match self {
            SelectorKind::Whatever { message_field, .. } => Some(message_field),
            _ => None,
        }
    }
}

} // verus!
