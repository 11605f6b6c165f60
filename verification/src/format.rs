//! Reading a display format string: which argument each placeholder uses,
//! and through which formatting trait.
//!
//! Only the uses are extracted, keeping the implicit positional cursor as
//! `format_args!` advances it; rendering and the remaining validation stay
//! with the formatting macros.
use crate::chars::{
    lemma_first_pos, all_digits, char_at, decimal, decimal_value, first_pos, is_digit, is_digit_char,
    lemma_first_pos_is, skip_chars, trim_end_whitespace, trim_end_ws, trim_start_digit_chars,
    trim_start_digits, chars_of, is_whitespace,
};
use syn::ext::IdentExt;
use syn::parse::Parser;
use vstd::prelude::*;

verus! {

/// The argument that a placeholder or a count refers to.
#[derive(Debug, PartialEq, Eq)]
pub enum Argument {
    Position(usize),
    Name(String),
}

/// What an [`Argument`] denotes.
pub enum ArgumentModel {
    Position(nat),
    Name(Seq<char>),
}

impl View for Argument {
    type V = ArgumentModel;

    open spec fn view(&self) -> ArgumentModel {
        match self {
            Argument::Position(i) => ArgumentModel::Position(*i as nat),
            Argument::Name(n) => ArgumentModel::Name(n@),
        }
    }
}

/// The `core::fmt` trait through which a placeholder formats its argument.
#[derive(Debug, Clone, Copy, PartialEq, Eq)]
pub enum FormatTrait {
    Display,
    Debug,
    LowerHex,
    UpperHex,
    Octal,
    Binary,
    Pointer,
    LowerExp,
    UpperExp,
}

impl FormatTrait {
    /// The trait's name in `core::fmt`.
    pub open spec fn spec_name(self) -> Seq<char> {
        match self {
            FormatTrait::Display => "Display"@,
            FormatTrait::Debug => "Debug"@,
            FormatTrait::LowerHex => "LowerHex"@,
            FormatTrait::UpperHex => "UpperHex"@,
            FormatTrait::Octal => "Octal"@,
            FormatTrait::Binary => "Binary"@,
            FormatTrait::Pointer => "Pointer"@,
            FormatTrait::LowerExp => "LowerExp"@,
            FormatTrait::UpperExp => "UpperExp"@,
        }
    }

    /// The trait's name in `core::fmt`.
    pub fn name(&self) -> (r: &'static str)
        ensures
            r@ == self.spec_name(),
    {
        match self {
            FormatTrait::Display => "Display",
            FormatTrait::Debug => "Debug",
            FormatTrait::LowerHex => "LowerHex",
            FormatTrait::UpperHex => "UpperHex",
            FormatTrait::Octal => "Octal",
            FormatTrait::Binary => "Binary",
            FormatTrait::Pointer => "Pointer",
            FormatTrait::LowerExp => "LowerExp",
            FormatTrait::UpperExp => "UpperExp",
        }
    }
}

/// Whether `syn::Ident::parse_any`, run by `Parser::parse_str` over the
/// whole of `text`, accepts it.
pub uninterp spec fn ident_any_accepts(text: Seq<char>) -> bool;

/// Calls `syn::Ident::parse_any` through `syn::parse::Parser::parse_str`.
/// The contract claims that the answer is a function of the text (the text
/// lexes to exactly one identifier token, keywords and raw identifiers
/// included), and that empty text, which holds no token, is refused; which
/// other texts are accepted is left to syn.
#[verifier::external_body]
fn parses_as_any_ident(text: &str) -> (accepted: bool)
    ensures
        accepted == ident_any_accepts(text@),
        text@.len() == 0 ==> !accepted,
{
    syn::Ident::parse_any.parse_str(text).is_ok()
}

/// What a placeholder's argument text denotes: a decimal position, or a
/// name that a format capture accepts (an identifier or keyword, but not
/// `_` and not a raw identifier).
pub open spec fn spec_argument(s: Seq<char>) -> Option<ArgumentModel> {
    if s.len() > 0 && all_digits(s) {
        if decimal_value(s) <= usize::MAX {
            Some(ArgumentModel::Position(decimal_value(s)))
        } else {
            None
        }
    } else {
        spec_name_argument(s, ident_any_accepts(s))
    }
}

/// What a non-numeric argument text denotes, given whether it lexes as one
/// identifier or keyword: a name, unless it is `_` or a raw identifier.
pub open spec fn spec_name_argument(s: Seq<char>, is_ident: bool) -> Option<ArgumentModel> {
    if is_ident && s != seq!['_'] && !(s.len() >= 2 && s[0] == 'r' && s[1] == '#') {
        Some(ArgumentModel::Name(s))
    } else {
        None
    }
}

/// Reads a non-numeric argument text, given whether it lexes as one
/// identifier or keyword.
pub fn name_argument(s: &str, is_ident: bool) -> (r: Result<Argument, ()>)
    ensures
        match spec_name_argument(s@, is_ident) {
            Some(a) => r is Ok && r->Ok_0@ == a,
            None => r is Err,
        },
{
    if !is_ident {
        return Err(());
    }
    let n = s.unicode_len();
    let is_underscore = n == 1 && s.get_char(0) == '_';
    let is_raw = n >= 2 && s.get_char(0) == 'r' && s.get_char(1) == '#';
    assert(is_underscore == (s@ =~= seq!['_']));
    if is_underscore || is_raw {
        return Err(());
    }
    Ok(Argument::Name(s.to_owned()))
}

/// Reads an argument reference, as it stands before `:` or `$`.
pub fn argument(s: &str) -> (r: Result<Argument, ()>)
    ensures
        match spec_argument(s@) {
            Some(a) => r is Ok && r->Ok_0@ == a,
            None => r is Err,
        },
        r is Ok ==> s@.len() > 0,
{
    let n = s.unicode_len();
    let mut i: usize = 0;
    while i < n && is_digit_char(s.get_char(i))
        invariant
            n == s@.len(),
            i <= n,
            forall|j: int| 0 <= j < i ==> is_digit(#[trigger] s@[j]),
        decreases n - i,
    {
        i += 1;
    }
    if n > 0 && i == n {
        return match decimal(s) {
            Some(v) => Ok(Argument::Position(v)),
            None => Err(()),
        };
    }
    assert(!(s@.len() > 0 && all_digits(s@))) by {
        if n > 0 {
            assert(!is_digit(s@[i as int]));
        }
    }
    let is_ident = parses_as_any_ident(s);
    name_argument(s, is_ident)
}

/// Where a count (`N$` or `name$`) ends: the first `$` that comes before
/// any `.`.
pub open spec fn dollar_stop(c: char) -> bool {
    c == '.' || c == '$'
}

/// What a width or precision count leaves over: after `arg$` (the argument
/// must be valid), or after the leading digits.
pub open spec fn spec_consume_count(s: Seq<char>) -> Option<Seq<char>> {
    let i = first_pos(s, |c: char| dollar_stop(c));
    if i < s.len() && s[i as int] == '$' {
        if spec_argument(s.take(i as int)) is Some {
            Some(s.skip(i + 1int))
        } else {
            None
        }
    } else {
        Some(trim_start_digits(s))
    }
}

/// Skips a width count (`N$`, `name$` or digits) at the start of `s`.
pub fn consume_count(s: &str) -> (r: Result<&str, ()>)
    ensures
        match spec_consume_count(s@) {
            Some(rest) => r is Ok && r->Ok_0@ == rest,
            None => r is Err,
        },
{
    let n = s.unicode_len();
    let mut i: usize = 0;
    while i < n && s.get_char(i) != '.' && s.get_char(i) != '$'
        invariant
            n == s@.len(),
            i <= n,
            forall|j: int| 0 <= j < i ==> !dollar_stop(#[trigger] s@[j]),
        decreases n - i,
    {
        i += 1;
    }
    proof {
        lemma_first_pos_is(s@, |c: char| dollar_stop(c), i as int);
    }
    if i < n && s.get_char(i) == '$' {
        let head = s.substring_char(0, i);
        match argument(head) {
            Ok(_) => Ok(skip_chars(s, i + 1)),
            Err(_) => Err(()),
        }
    } else {
        Ok(trim_start_digit_chars(s))
    }
}

pub open spec fn is_align(c: char) -> bool {
    c == '<' || c == '^' || c == '>'
}

/// The spec after an optional fill character and alignment.
pub open spec fn after_align(s: Seq<char>) -> Seq<char> {
    if s.len() >= 2 && is_align(s[1]) {
        s.skip(2)
    } else if s.len() >= 1 && is_align(s[0]) {
        s.skip(1)
    } else {
        s
    }
}

/// The spec after the `+`/`-` sign, `#` and `0` flags (in that order); a `0`
/// that starts `0$` is a count, not a flag.
pub open spec fn after_flags(s: Seq<char>) -> Seq<char> {
    let s1 = if s.len() >= 1 && (s[0] == '+' || s[0] == '-') {
        s.skip(1)
    } else {
        s
    };
    let s2 = if s1.len() >= 1 && s1[0] == '#' {
        s1.skip(1)
    } else {
        s1
    };
    if s2.len() >= 1 && s2[0] == '0' && !(s2.len() >= 2 && s2[1] == '$') {
        s2.skip(1)
    } else {
        s2
    }
}

/// After an optional precision: `.*` takes the next implicit position;
/// `.N`, `.N$` or `.name$` must consume something.
pub open spec fn after_precision(s: Seq<char>, next: nat) -> Option<(Seq<char>, nat)> {
    if s.len() >= 1 && s[0] == '.' {
        let p = s.skip(1);
        if p.len() >= 1 && p[0] == '*' {
            Some((p.skip(1), next + 1))
        } else {
            match spec_consume_count(p) {
                Some(r) => if r.len() != p.len() {
                    Some((r, next))
                } else {
                    None
                },
                None => None,
            }
        }
    } else {
        Some((s, next))
    }
}

/// The trait that a format type selects.
pub open spec fn trait_of(t: Seq<char>) -> Option<FormatTrait> {
    if t == Seq::<char>::empty() {
        Some(FormatTrait::Display)
    } else if t == seq!['?'] || t == seq!['x', '?'] || t == seq!['X', '?'] {
        Some(FormatTrait::Debug)
    } else if t == seq!['x'] {
        Some(FormatTrait::LowerHex)
    } else if t == seq!['X'] {
        Some(FormatTrait::UpperHex)
    } else if t == seq!['o'] {
        Some(FormatTrait::Octal)
    } else if t == seq!['b'] {
        Some(FormatTrait::Binary)
    } else if t == seq!['p'] {
        Some(FormatTrait::Pointer)
    } else if t == seq!['e'] {
        Some(FormatTrait::LowerExp)
    } else if t == seq!['E'] {
        Some(FormatTrait::UpperExp)
    } else {
        None
    }
}

/// The argument text of a placeholder's contents (before the first `:`).
pub open spec fn arg_part(c: Seq<char>) -> Seq<char> {
    c.take(first_pos(c, |x: char| x == ':') as int)
}

/// The format spec of a placeholder's contents (after the first `:`).
pub open spec fn spec_part(c: Seq<char>) -> Seq<char> {
    let i = first_pos(c, |x: char| x == ':');
    if i < c.len() {
        c.skip(i + 1int)
    } else {
        Seq::<char>::empty()
    }
}

/// The use that one placeholder's contents make, and the implicit position
/// that the next placeholder would take.
pub open spec fn placeholder_use(c: Seq<char>, next: nat) -> Option<
    (ArgumentModel, FormatTrait, nat),
> {
    let flags_done = after_flags(after_align(trim_end_ws(spec_part(c))));
    match spec_consume_count(flags_done) {
        None => None,
        Some(rest) => match after_precision(rest, next) {
            None => None,
            Some((ty, next2)) => match trait_of(ty) {
                None => None,
                Some(t) => {
                    let a = trim_end_ws(arg_part(c));
                    if a.len() == 0 {
                        Some((ArgumentModel::Position(next2), t, next2 + 1))
                    } else {
                        match spec_argument(a) {
                            Some(m) => Some((m, t, next2)),
                            None => None,
                        }
                    }
                },
            },
        },
    }
}

/// Every use in `s`, read from the start with `next` as the implicit
/// position; `None` when `s` is not a format string that can be read.
#[verifier::opaque]
pub open spec fn format_uses(s: Seq<char>, next: nat) -> Option<Seq<(ArgumentModel, FormatTrait)>>
    decreases s.len(),
{
    if s.len() == 0 {
        Some(Seq::empty())
    } else if s[0] != '{' && s[0] != '}' {
        format_uses(s.drop_first(), next)
    } else if s.len() >= 2 && s[1] == s[0] {
        format_uses(s.skip(2), next)
    } else if s[0] == '}' {
        None
    } else {
        let j = first_pos(s.drop_first(), |x: char| x == '}');
        if j < s.len() - 1 {
            match placeholder_use(s.subrange(1, j + 1int), next) {
                None => None,
                Some((a, t, next2)) => match format_uses(s.skip(j + 2int), next2) {
                    None => None,
                    Some(rest) => Some(seq![(a, t)] + rest),
                },
            }
        } else {
            None
        }
    }
}

/// The uses of a whole format string.
pub open spec fn spec_parse_format(s: Seq<char>) -> Option<Seq<(ArgumentModel, FormatTrait)>> {
    format_uses(s, 0)
}

pub open spec fn uses_view(v: Seq<(Argument, FormatTrait)>) -> Seq<(ArgumentModel, FormatTrait)> {
    v.map_values(|u: (Argument, FormatTrait)| (u.0@, u.1))
}

/// Reads one placeholder's contents.
fn placeholder(contents: &str, next: usize) -> (r: Result<(Argument, FormatTrait, usize), ()>)
    requires
        next + 2 <= usize::MAX,
    ensures
        match placeholder_use(contents@, next as nat) {
            Some((a, t, n2)) => r is Ok && r->Ok_0.0@ == a && r->Ok_0.1 == t && r->Ok_0.2 == n2
                && n2 <= next + 2,
            None => r is Err,
        },
{
    let c = contents;
    let n = c.unicode_len();
    let mut i: usize = 0;
    while i < n && c.get_char(i) != ':'
        invariant
            n == c@.len(),
            i <= n,
            forall|j: int| 0 <= j < i ==> (#[trigger] c@[j]) != ':',
        decreases n - i,
    {
        i += 1;
    }
    proof {
        lemma_first_pos_is(c@, |x: char| x == ':', i as int);
    }
    let arg = c.substring_char(0, i);
    let spec = if i < n {
        skip_chars(c, i + 1)
    } else {
        c.substring_char(n, n)
    };
    assert(spec@ == spec_part(c@));
    let spec = trim_end_whitespace(spec);
    // fill and alignment
    let rest = match (char_at(spec, 0), char_at(spec, 1)) {
        (Some(_), Some(b)) if b == '<' || b == '^' || b == '>' => skip_chars(spec, 2),
        (Some(a), _) if a == '<' || a == '^' || a == '>' => skip_chars(spec, 1),
        _ => spec,
    };
    assert(rest@ == after_align(spec@));
    // flags
    let r1 = match char_at(rest, 0) {
        Some(x) if x == '+' || x == '-' => skip_chars(rest, 1),
        _ => rest,
    };
    let r2 = match char_at(r1, 0) {
        Some(x) if x == '#' => skip_chars(r1, 1),
        _ => r1,
    };
    let zero = match (char_at(r2, 0), char_at(r2, 1)) {
        (Some(x), Some(y)) => x == '0' && y != '$',
        (Some(x), None) => x == '0',
        _ => false,
    };
    let r3 = if zero {
        skip_chars(r2, 1)
    } else {
        r2
    };
    assert(r3@ == after_flags(rest@));
    let rest = match consume_count(r3) {
        Ok(x) => x,
        Err(_) => {
            return Err(());
        },
    };
    let mut next = next;
    let ghost next0 = next;
    let ty = match char_at(rest, 0) {
        Some(d) if d == '.' => {
            let precision = skip_chars(rest, 1);
            match char_at(precision, 0) {
                Some(s) if s == '*' => {
                    next = next + 1;
                    skip_chars(precision, 1)
                },
                _ => {
                    let after = match consume_count(precision) {
                        Ok(x) => x,
                        Err(_) => {
                            return Err(());
                        },
                    };
                    if after.unicode_len() == precision.unicode_len() {
                        return Err(());
                    }
                    after
                },
            }
        },
        _ => rest,
    };
    assert(after_precision(rest@, next0 as nat) == Some((ty@, next as nat)));
    let t = match trait_name(ty) {
        Some(t) => t,
        None => {
            return Err(());
        },
    };
    let a = trim_end_whitespace(arg);
    if a.unicode_len() == 0 {
        Ok((Argument::Position(next), t, next + 1))
    } else {
        match argument(a) {
            Ok(m) => Ok((m, t, next)),
            Err(_) => Err(()),
        }
    }
}

/// The trait that a format type selects.
fn trait_name(t: &str) -> (r: Option<FormatTrait>)
    ensures
        r == trait_of(t@),
{
    let n = t.unicode_len();
    if n == 0 {
        assert(t@ =~= Seq::<char>::empty());
        return Some(FormatTrait::Display);
    }
    let a = t.get_char(0);
    if n == 1 {
        assert(t@ =~= seq![a]);
        if a == '?' {
            Some(FormatTrait::Debug)
        } else if a == 'x' {
            Some(FormatTrait::LowerHex)
        } else if a == 'X' {
            Some(FormatTrait::UpperHex)
        } else if a == 'o' {
            Some(FormatTrait::Octal)
        } else if a == 'b' {
            Some(FormatTrait::Binary)
        } else if a == 'p' {
            Some(FormatTrait::Pointer)
        } else if a == 'e' {
            Some(FormatTrait::LowerExp)
        } else if a == 'E' {
            Some(FormatTrait::UpperExp)
        } else {
            None
        }
    } else if n == 2 {
        let b = t.get_char(1);
        assert(t@ =~= seq![a, b]);
        if (a == 'x' || a == 'X') && b == '?' {
            Some(FormatTrait::Debug)
        } else {
            None
        }
    } else {
        assert(t@.len() > 2);
        None
    }
}

/// `prefix` followed by the uses in `rest`, if `rest` could be read.
pub open spec fn prepend_uses(
    prefix: Seq<(ArgumentModel, FormatTrait)>,
    rest: Option<Seq<(ArgumentModel, FormatTrait)>>,
) -> Option<Seq<(ArgumentModel, FormatTrait)>> {
    match rest {
        Some(r) => Some(prefix + r),
        None => None,
    }
}

proof fn lemma_uses_empty(next: nat)
    ensures
        format_uses(Seq::empty(), next) == Some(Seq::<(ArgumentModel, FormatTrait)>::empty()),
{
    reveal(format_uses);
}

proof fn lemma_uses_plain(s: Seq<char>, next: nat)
    requires
        s.len() > 0,
        s[0] != '{' && s[0] != '}',
    ensures
        format_uses(s, next) == format_uses(s.drop_first(), next),
{
    reveal(format_uses);
}

proof fn lemma_uses_escaped(s: Seq<char>, next: nat)
    requires
        s.len() >= 2,
        s[0] == '{' || s[0] == '}',
        s[1] == s[0],
    ensures
        format_uses(s, next) == format_uses(s.skip(2), next),
{
    reveal(format_uses);
}

proof fn lemma_uses_stray_close(s: Seq<char>, next: nat)
    requires
        s.len() > 0,
        s[0] == '}',
        !(s.len() >= 2 && s[1] == '}'),
    ensures
        format_uses(s, next) is None,
{
    reveal(format_uses);
}

proof fn lemma_uses_placeholder(s: Seq<char>, next: nat)
    requires
        s.len() > 0,
        s[0] == '{',
        !(s.len() >= 2 && s[1] == '{'),
    ensures
        ({
            let j = first_pos(s.drop_first(), |x: char| x == '}');
            format_uses(s, next) == if j < s.len() - 1 {
                match placeholder_use(s.subrange(1, j + 1int), next) {
                    None => None,
                    Some((a, t, next2)) => prepend_uses(
                        seq![(a, t)],
                        format_uses(s.skip(j + 2int), next2),
                    ),
                }
            } else {
                None
            }
        }),
{
    reveal(format_uses);
}

proof fn lemma_prepend_assoc(
    a: Seq<(ArgumentModel, FormatTrait)>,
    b: Seq<(ArgumentModel, FormatTrait)>,
    rest: Option<Seq<(ArgumentModel, FormatTrait)>>,
)
    ensures
        prepend_uses(a, prepend_uses(b, rest)) == prepend_uses(a + b, rest),
{
    if let Some(r) = rest {
        assert(a + (b + r) =~= (a + b) + r);
    }
}

/// Reads the placeholder that opens at `i` (a `{` that does not escape),
/// returning its use, the next implicit position and where reading goes on.
fn scan_placeholder(s: &str, cs: &Vec<char>, i: usize, next: usize) -> (r: Result<
    (Argument, FormatTrait, usize, usize),
    (),
>)
    requires
        cs@ == s@,
        i < cs@.len(),
        cs@[i as int] == '{',
        !(i + 1 < cs@.len() && cs@[i + 1] == '{'),
        next <= i,
    ensures
        match r {
            Ok((a, t, next2, i2)) => {
                &&& i < i2 <= cs@.len()
                &&& next2 <= i2
                &&& format_uses(s@.skip(i as int), next as nat) == prepend_uses(
                    seq![(a@, t)],
                    format_uses(s@.skip(i2 as int), next2 as nat),
                )
            },
            Err(_) => format_uses(s@.skip(i as int), next as nat) is None,
        },
{
    let n = cs.len();
    let ghost tail = s@.skip(i as int);
    proof {
        lemma_uses_placeholder(tail, next as nat);
    }
    let mut j: usize = i + 1;
    while j < n && cs[j] != '}'
        invariant
            cs@ == s@,
            n == cs.len(),
            i < j <= n,
            tail == s@.skip(i as int),
            forall|k: int| 0 <= k < j - i - 1 ==> (#[trigger] tail.drop_first()[k]) != '}',
        decreases n - j,
    {
        j += 1;
    }
    proof {
        lemma_first_pos_is(tail.drop_first(), |x: char| x == '}', j - i - 1);
    }
    if j == n {
        return Err(());
    }
    let contents = s.substring_char(i + 1, j);
    assert(contents@ =~= tail.subrange(1, j - i));
    match placeholder(contents, next) {
        Ok((arg, t, next2)) => {
            assert(tail.skip(j - i + 1) =~= s@.skip(j + 1));
            Ok((arg, t, next2, j + 1))
        },
        Err(_) => Err(()),
    }
}

/// Extracts the formatting-trait uses of a format string, numbering
/// implicit positions as `format_args!` does.
pub fn parse_format(s: &str) -> (r: Result<Vec<(Argument, FormatTrait)>, ()>)
    ensures
        match spec_parse_format(s@) {
            Some(u) => r is Ok && uses_view(r->Ok_0@) == u,
            None => r is Err,
        },
{
    let cs = chars_of(s);
    let n = cs.len();
    let mut i: usize = 0;
    let mut next: usize = 0;
    let mut result: Vec<(Argument, FormatTrait)> = Vec::new();
    assert(s@.skip(0) =~= s@);
    assert(uses_view(result@) =~= Seq::<(ArgumentModel, FormatTrait)>::empty());
    proof {
        if let Some(r) = format_uses(s@, 0) {
            assert(Seq::<(ArgumentModel, FormatTrait)>::empty() + r =~= r);
        }
    }
    while i < n
        invariant
            cs@ == s@,
            n == cs.len(),
            i <= n,
            next <= i,
            format_uses(s@, 0) == prepend_uses(
                uses_view(result@),
                format_uses(s@.skip(i as int), next as nat),
            ),
        decreases n - i,
    {
        let ghost tail = s@.skip(i as int);
        let c = cs[i];
        if c != '{' && c != '}' {
            proof {
                lemma_uses_plain(tail, next as nat);
                assert(tail.drop_first() =~= s@.skip(i + 1));
            }
            i += 1;
        } else if i + 1 < n && cs[i + 1] == c {
            proof {
                lemma_uses_escaped(tail, next as nat);
                assert(tail.skip(2) =~= s@.skip(i + 2));
            }
            i += 2;
        } else if c == '}' {
            proof {
                lemma_uses_stray_close(tail, next as nat);
            }
            return Err(());
        } else {
            let (arg, t, next2, i2) = match scan_placeholder(s, &cs, i, next) {
                Ok(u) => u,
                Err(_) => {
                    return Err(());
                },
            };
            let ghost before = result@;
            result.push((arg, t));
            proof {
                assert(uses_view(result@) =~= uses_view(before) + seq![(arg@, t)]);
                lemma_prepend_assoc(
                    uses_view(before),
                    seq![(arg@, t)],
                    format_uses(s@.skip(i2 as int), next2 as nat),
                );
            }
            next = next2;
            i = i2;
        }
    }
    proof {
        assert(s@.skip(n as int) =~= Seq::<char>::empty());
        lemma_uses_empty(next as nat);
        assert(uses_view(result@) + Seq::<(ArgumentModel, FormatTrait)>::empty() =~= uses_view(
            result@,
        ));
    }
    Ok(result)
}

/// A format string with no braces uses no argument.
pub proof fn law_text_without_braces_has_no_uses(s: Seq<char>)
    requires
        forall|i: int| 0 <= i < s.len() ==> #[trigger] s[i] != '{' && s[i] != '}',
    ensures
        spec_parse_format(s) == Some(Seq::<(ArgumentModel, FormatTrait)>::empty()),
{
    lemma_no_braces(s, 0);
}

proof fn lemma_no_braces(s: Seq<char>, next: nat)
    requires
        forall|i: int| 0 <= i < s.len() ==> #[trigger] s[i] != '{' && s[i] != '}',
    ensures
        format_uses(s, next) == Some(Seq::<(ArgumentModel, FormatTrait)>::empty()),
    decreases s.len(),
{
    if s.len() == 0 {
        lemma_uses_empty(next);
        assert(s =~= Seq::<char>::empty());
    } else {
        assert(s[0] != '{' && s[0] != '}');
        lemma_uses_plain(s, next);
        assert forall|i: int| 0 <= i < s.drop_first().len() implies #[trigger] s.drop_first()[i]
            != '{' && s.drop_first()[i] != '}' by {
            assert(s.drop_first()[i] == s[i + 1]);
        }
        lemma_no_braces(s.drop_first(), next);
    }
}

/// `{{` and `}}` are escapes: they use nothing and leave the implicit
/// position where it was.
pub proof fn law_escaped_braces_use_nothing(s: Seq<char>, next: nat)
    ensures
        format_uses(seq!['{', '{'] + s, next) == format_uses(s, next),
        format_uses(seq!['}', '}'] + s, next) == format_uses(s, next),
{
    lemma_uses_escaped(seq!['{', '{'] + s, next);
    assert((seq!['{', '{'] + s).skip(2) =~= s);
    lemma_uses_escaped(seq!['}', '}'] + s, next);
    assert((seq!['}', '}'] + s).skip(2) =~= s);
}

/// `k` empty placeholders, `{}{}...{}`.
pub open spec fn empty_placeholders(k: nat) -> Seq<char>
    decreases k,
{
    if k == 0 {
        Seq::empty()
    } else {
        seq!['{', '}'] + empty_placeholders((k - 1) as nat)
    }
}

/// Displays of the implicit positions `next`, `next + 1`, ... (`k` of them).
pub open spec fn implicit_displays(next: nat, k: nat) -> Seq<(ArgumentModel, FormatTrait)>
    decreases k,
{
    if k == 0 {
        Seq::empty()
    } else {
        seq![(ArgumentModel::Position(next), FormatTrait::Display)] + implicit_displays(
            next + 1,
            (k - 1) as nat,
        )
    }
}

/// Empty placeholders take consecutive implicit positions and display them.
pub proof fn law_empty_placeholders_take_consecutive_positions(k: nat, next: nat)
    ensures
        format_uses(empty_placeholders(k), next) == Some(implicit_displays(next, k)),
    decreases k,
{
    if k == 0 {
        lemma_uses_empty(next);
    } else {
        let s = empty_placeholders(k);
        let rest = empty_placeholders((k - 1) as nat);
        assert(s[0] == '{' && s[1] == '}');
        lemma_uses_placeholder(s, next);
        lemma_first_pos_is(s.drop_first(), |x: char| x == '}', 0);
        assert(s.subrange(1, 1) =~= Seq::<char>::empty());
        assert(s.skip(2) =~= rest);
        assert(trim_end_ws(Seq::<char>::empty()) == Seq::<char>::empty());
        assert(first_pos(Seq::<char>::empty(), |x: char| x == ':') == 0);
        assert(first_pos(Seq::<char>::empty(), |c: char| dollar_stop(c)) == 0);
        assert(first_pos(Seq::<char>::empty(), |c: char| !is_digit(c)) == 0);
        assert(Seq::<char>::empty().skip(0) =~= Seq::<char>::empty());
        assert(Seq::<char>::empty().take(0) =~= Seq::<char>::empty());
        assert(placeholder_use(Seq::<char>::empty(), next) == Some(
            (ArgumentModel::Position(next), FormatTrait::Display, next + 1),
        ));
        law_empty_placeholders_take_consecutive_positions((k - 1) as nat, next + 1);
    }
}

/// A count is skipped, never added to: what is left is a suffix.
pub proof fn law_consume_count_leaves_a_suffix(s: Seq<char>)
    ensures
        spec_consume_count(s) matches Some(r) ==> r.len() <= s.len() && r =~= s.skip(
            s.len() - r.len(),
        ),
{
    lemma_first_pos(s, |c: char| dollar_stop(c));
    lemma_first_pos(s, |c: char| !is_digit(c));
}

/// No character of `t` is a brace.
pub open spec fn brace_free(t: Seq<char>) -> bool {
    forall|i: int| 0 <= i < t.len() ==> #[trigger] t[i] != '{' && t[i] != '}'
}

proof fn lemma_brace_free_prefix(t: Seq<char>, s: Seq<char>, next: nat)
    requires
        brace_free(t),
    ensures
        format_uses(t + s, next) == format_uses(s, next),
    decreases t.len(),
{
    if t.len() == 0 {
        assert(t + s =~= s);
    } else {
        assert((t + s)[0] == t[0]);
        lemma_uses_plain(t + s, next);
        assert((t + s).drop_first() =~= t.drop_first() + s);
        assert forall|i: int| 0 <= i < t.drop_first().len() implies #[trigger] t.drop_first()[i]
            != '{' && t.drop_first()[i] != '}' by {
            assert(t.drop_first()[i] == t[i + 1]);
        }
        lemma_brace_free_prefix(t.drop_first(), s, next);
    }
}

proof fn lemma_brace_free_suffix(s: Seq<char>, t: Seq<char>, next: nat)
    requires
        brace_free(t),
    ensures
        format_uses(s + t, next) == format_uses(s, next),
    decreases s.len(),
{
    let st = s + t;
    if s.len() == 0 {
        assert(st =~= t);
        assert(s =~= Seq::<char>::empty());
        lemma_no_braces(t, next);
        lemma_uses_empty(next);
    } else if s[0] != '{' && s[0] != '}' {
        lemma_uses_plain(st, next);
        lemma_uses_plain(s, next);
        assert(st.drop_first() =~= s.drop_first() + t);
        lemma_brace_free_suffix(s.drop_first(), t, next);
    } else if s.len() >= 2 && s[1] == s[0] {
        lemma_uses_escaped(st, next);
        lemma_uses_escaped(s, next);
        assert(st.skip(2) =~= s.skip(2) + t);
        lemma_brace_free_suffix(s.skip(2), t, next);
    } else if s[0] == '}' {
        if t.len() > 0 {
            assert(st[1] == if s.len() >= 2 { s[1] } else { t[0] });
        }
        lemma_uses_stray_close(st, next);
        lemma_uses_stray_close(s, next);
    } else {
        if t.len() > 0 {
            assert(st[1] == if s.len() >= 2 { s[1] } else { t[0] });
        }
        lemma_uses_placeholder(st, next);
        lemma_uses_placeholder(s, next);
        let ds = s.drop_first();
        assert(st.drop_first() =~= ds + t);
        let j = first_pos(ds, |x: char| x == '}');
        lemma_first_pos(ds, |x: char| x == '}');
        if j < ds.len() {
            assert forall|k: int| 0 <= k < j implies !(#[trigger] (ds + t)[k] == '}') by {
                assert((ds + t)[k] == ds[k]);
            }
            lemma_first_pos_is(ds + t, |x: char| x == '}', j as int);
            assert(st.subrange(1, j + 1int) =~= s.subrange(1, j + 1int));
            assert(st.skip(j + 2int) =~= s.skip(j + 2int) + t);
            match placeholder_use(s.subrange(1, j + 1int), next) {
                None => {},
                Some((a, ty, next2)) => {
                    lemma_brace_free_suffix(s.skip(j + 2int), t, next2);
                },
            }
            assert(j < st.len() - 1);
            assert(format_uses(st, next) == format_uses(s, next));
        } else {
            assert forall|k: int| 0 <= k < (ds + t).len() implies !(#[trigger] (ds + t)[k]
                == '}') by {
                if k < ds.len() {
                    assert((ds + t)[k] == ds[k]);
                } else {
                    assert((ds + t)[k] == t[k - ds.len()]);
                }
            }
            lemma_first_pos_is(ds + t, |x: char| x == '}', (ds + t).len() as int);
            assert(format_uses(st, next) is None);
        }
    }
}

/// Text without braces, put before or after a format string, changes none
/// of its uses, nor whether it can be read.
pub proof fn law_text_without_braces_changes_no_uses(t: Seq<char>, s: Seq<char>)
    requires
        brace_free(t),
    ensures
        spec_parse_format(t + s) == spec_parse_format(s),
        spec_parse_format(s + t) == spec_parse_format(s),
{
    lemma_brace_free_prefix(t, s, 0);
    lemma_brace_free_suffix(s, t, 0);
}

/// No `$` comes before the first `.` of `s`: it does not start with a
/// `N$` or `name$` count.
pub open spec fn no_dollar_count(s: Seq<char>) -> bool {
    let i = first_pos(s, |c: char| dollar_stop(c));
    !(i < s.len() && s[i as int] == '$')
}

/// Without a `$` count, skipping a count always succeeds, and skipping
/// again skips nothing more.
pub proof fn law_consume_count_is_idempotent(s: Seq<char>)
    requires
        no_dollar_count(s),
    ensures
        spec_consume_count(s) matches Some(r) && spec_consume_count(r) == Some(r),
{
    let p = first_pos(s, |c: char| dollar_stop(c));
    let d = first_pos(s, |c: char| !is_digit(c));
    lemma_first_pos(s, |c: char| dollar_stop(c));
    lemma_first_pos(s, |c: char| !is_digit(c));
    let r = s.skip(d as int);
    assert(spec_consume_count(s) == Some(r));
    if p < d {
        assert(is_digit(s[p as int]));
        assert(false);
    }
    assert forall|k: int| 0 <= k < p - d implies !dollar_stop(#[trigger] r[k]) by {
        assert(r[k] == s[k + d]);
    }
    if p < s.len() {
        assert(r[p - d] == s[p as int]);
    }
    lemma_first_pos_is(r, |c: char| dollar_stop(c), p - d);
    if d < s.len() {
        assert(r[0] == s[d as int]);
    }
    lemma_first_pos_is(r, |c: char| !is_digit(c), 0);
    assert(r.skip(0) =~= r);
}

proof fn lemma_empty_spec_displays(next: nat)
    ensures
        ({
            let e = Seq::<char>::empty();
            &&& trim_end_ws(e) == e
            &&& after_flags(after_align(e)) == e
            &&& spec_consume_count(e) == Some(e)
            &&& after_precision(e, next) == Some((e, next))
            &&& trait_of(e) == Some(FormatTrait::Display)
        }),
{
    let e = Seq::<char>::empty();
    assert(first_pos(e, |c: char| dollar_stop(c)) == 0);
    assert(first_pos(e, |c: char| !is_digit(c)) == 0);
    assert(e.skip(0) =~= e);
}

/// A placeholder that names its argument (by position or by name) uses that
/// argument and leaves the implicit position where it was.
pub proof fn law_explicit_argument_keeps_the_cursor(c: Seq<char>, s: Seq<char>, next: nat)
    requires
        brace_free(c),
        forall|i: int| 0 <= i < c.len() ==> #[trigger] c[i] != ':',
        trim_end_ws(c).len() > 0,
        spec_argument(trim_end_ws(c)) is Some,
    ensures
        format_uses(seq!['{'] + c + seq!['}'] + s, next) == prepend_uses(
            seq![(spec_argument(trim_end_ws(c))->Some_0, FormatTrait::Display)],
            format_uses(s, next),
        ),
{
    let w = seq!['{'] + c + seq!['}'] + s;
    assert(c.len() > 0) by {
        if c.len() == 0 {
            assert(c =~= Seq::<char>::empty());
        }
    }
    assert(w[1] == c[0]);
    lemma_uses_placeholder(w, next);
    let d = w.drop_first();
    assert forall|k: int| 0 <= k < c.len() implies !(#[trigger] d[k] == '}') by {
        assert(d[k] == c[k]);
    }
    assert(d[c.len() as int] == '}');
    lemma_first_pos_is(d, |x: char| x == '}', c.len() as int);
    assert(w.subrange(1, c.len() + 1int) =~= c);
    assert(w.skip(c.len() + 2int) =~= s);
    lemma_first_pos_is(c, |x: char| x == ':', c.len() as int);
    assert(spec_part(c) == Seq::<char>::empty());
    assert(c.take(c.len() as int) =~= c);
    assert(arg_part(c) == c);
    lemma_empty_spec_displays(next);
}

/// A `.*` precision takes the next implicit position itself, so the value
/// that the placeholder formats takes the one after it.
pub proof fn law_star_precision_takes_the_next_position(s: Seq<char>, next: nat)
    ensures
        format_uses(seq!['{', ':', '.', '*', '}'] + s, next) == prepend_uses(
            seq![(ArgumentModel::Position(next + 1), FormatTrait::Display)],
            format_uses(s, next + 2),
        ),
{
    let w = seq!['{', ':', '.', '*', '}'] + s;
    let c = seq![':', '.', '*'];
    lemma_uses_placeholder(w, next);
    let d = w.drop_first();
    assert(d[0] == ':' && d[1] == '.' && d[2] == '*' && d[3] == '}');
    lemma_first_pos_is(d, |x: char| x == '}', 3);
    assert(w.subrange(1, 4) =~= c);
    assert(w.skip(5) =~= s);
    lemma_first_pos_is(c, |x: char| x == ':', 0);
    let sp = seq!['.', '*'];
    assert(c.skip(1) =~= sp);
    assert(spec_part(c) == sp);
    assert(c.take(0) =~= Seq::<char>::empty());
    assert(arg_part(c) == Seq::<char>::empty());
    assert(!is_whitespace('*'));
    assert(trim_end_ws(sp) == sp);
    assert(after_align(sp) == sp);
    assert(after_flags(sp) == sp);
    lemma_first_pos_is(sp, |c: char| dollar_stop(c), 0);
    lemma_first_pos_is(sp, |c: char| !is_digit(c), 0);
    assert(sp.skip(0) =~= sp);
    assert(spec_consume_count(sp) == Some(sp));
    assert(sp.skip(1) =~= seq!['*']);
    assert(seq!['*'].skip(1) =~= Seq::<char>::empty());
    assert(after_precision(sp, next) == Some((Seq::<char>::empty(), next + 1)));
    lemma_empty_spec_displays(next + 1);
}

/// The contents of each placeholder of `s`, in order: scanning from the
/// left, `{{` and `}}` are escapes, and any other `{` opens a placeholder
/// that the next `}` closes. `None` for a stray `}` or an unclosed `{`.
pub open spec fn placeholders(s: Seq<char>) -> Option<Seq<Seq<char>>>
    decreases s.len(),
{
    if s.len() == 0 {
        Some(Seq::empty())
    } else if s[0] != '{' && s[0] != '}' {
        placeholders(s.drop_first())
    } else if s.len() >= 2 && s[1] == s[0] {
        placeholders(s.skip(2))
    } else if s[0] == '}' {
        None
    } else {
        let j = first_pos(s.drop_first(), |x: char| x == '}');
        if j < s.len() - 1 {
            match placeholders(s.skip(j + 2int)) {
                Some(rest) => Some(seq![s.subrange(1, j + 1int)] + rest),
                None => None,
            }
        } else {
            None
        }
    }
}

/// The placeholder names no argument, so it takes the implicit position.
pub open spec fn takes_implicit(c: Seq<char>) -> bool {
    trim_end_ws(arg_part(c)).len() == 0
}

/// The rest of a placeholder's spec after fill, alignment, flags and width.
pub open spec fn after_width(c: Seq<char>) -> Option<Seq<char>> {
    spec_consume_count(after_flags(after_align(trim_end_ws(spec_part(c)))))
}

/// The placeholder's precision is `.*`, which takes an implicit position.
pub open spec fn star_precision(c: Seq<char>) -> bool {
    after_width(c) matches Some(r) && r.len() >= 2 && r[0] == '.' && r[1] == '*'
}

/// The implicit position after a placeholder that starts at `at`: one more
/// for a `.*` precision, one more for a value that names no argument.
pub open spec fn cursor_after(c: Seq<char>, at: nat) -> nat {
    at + (if star_precision(c) {
        1nat
    } else {
        0nat
    }) + (if takes_implicit(c) {
        1nat
    } else {
        0nat
    })
}

/// The implicit position at the `k`th placeholder, starting from `next`.
pub open spec fn cursor(ps: Seq<Seq<char>>, next: nat, k: nat) -> nat
    decreases k,
{
    if k == 0 || ps.len() == 0 {
        next
    } else {
        cursor(ps.drop_first(), cursor_after(ps[0], next), (k - 1) as nat)
    }
}

/// The argument a placeholder formats when the implicit position is `at`:
/// the next implicit position (after one that `.*` takes), or the position
/// or name it gives.
pub open spec fn placeholder_argument(c: Seq<char>, at: nat) -> Option<ArgumentModel> {
    if takes_implicit(c) {
        Some(
            ArgumentModel::Position(
                at + if star_precision(c) {
                    1nat
                } else {
                    0nat
                },
            ),
        )
    } else {
        spec_argument(trim_end_ws(arg_part(c)))
    }
}

/// The trait that a placeholder's format type selects.
pub open spec fn placeholder_trait(c: Seq<char>) -> Option<FormatTrait> {
    match after_width(c) {
        None => None,
        Some(rest) => match after_precision(rest, 0) {
            None => None,
            Some((ty, _)) => trait_of(ty),
        },
    }
}

proof fn lemma_placeholder_use_shape(c: Seq<char>, next: nat)
    ensures
        placeholder_use(c, next) matches Some((a, t, n2)) ==> {
            &&& placeholder_argument(c, next) == Some(a)
            &&& placeholder_trait(c) == Some(t)
            &&& n2 == cursor_after(c, next)
        },
{
    if let Some(rest) = after_width(c) {
        if rest.len() >= 1 && rest[0] == '.' {
            let p = rest.skip(1);
            if p.len() >= 1 {
                assert(p[0] == rest[1]);
            }
        }
    }
}

/// Each use of a format string is one placeholder's, in order: there are
/// as many uses as placeholders (counts add none), each formats through the
/// trait its format type selects, and each that names no argument takes the
/// implicit position, which advances by one for it and by one for a `.*`
/// precision (taken first), while named and numbered arguments leave it.
pub proof fn law_uses_follow_placeholders(s: Seq<char>, next: nat)
    ensures
        format_uses(s, next) matches Some(u) ==> placeholders(s) matches Some(ps) && {
            &&& u.len() == ps.len()
            &&& forall|k: int|
                0 <= k < ps.len() ==> placeholder_argument(
                    #[trigger] ps[k],
                    cursor(ps, next, k as nat),
                ) == Some(u[k].0) && placeholder_trait(ps[k]) == Some(u[k].1)
        },
    decreases s.len(),
{
    if s.len() == 0 {
        assert(s =~= Seq::<char>::empty());
        lemma_uses_empty(next);
    } else if s[0] != '{' && s[0] != '}' {
        lemma_uses_plain(s, next);
        law_uses_follow_placeholders(s.drop_first(), next);
    } else if s.len() >= 2 && s[1] == s[0] {
        lemma_uses_escaped(s, next);
        law_uses_follow_placeholders(s.skip(2), next);
    } else if s[0] == '}' {
        lemma_uses_stray_close(s, next);
    } else {
        lemma_uses_placeholder(s, next);
        let j = first_pos(s.drop_first(), |x: char| x == '}');
        if j < s.len() - 1 {
            let c = s.subrange(1, j + 1int);
            let tail = s.skip(j + 2int);
            if let Some((a, t, n2)) = placeholder_use(c, next) {
                law_uses_follow_placeholders(tail, n2);
                lemma_placeholder_use_shape(c, next);
                if let Some(r) = format_uses(tail, n2) {
                    let u = seq![(a, t)] + r;
                    assert(format_uses(s, next) == Some(u));
                    let pt = placeholders(tail)->Some_0;
                    let ps = seq![c] + pt;
                    assert(placeholders(s) == Some(ps));
                    assert(ps.drop_first() =~= pt);
                    assert forall|k: int| 0 <= k < ps.len() implies placeholder_argument(
                        #[trigger] ps[k],
                        cursor(ps, next, k as nat),
                    ) == Some(u[k].0) && placeholder_trait(ps[k]) == Some(u[k].1) by {
                        if k > 0 {
                            assert(ps[k] == pt[k - 1]);
                            assert(u[k] == r[k - 1]);
                            assert(cursor(ps, next, k as nat) == cursor(pt, n2, (k - 1) as nat));
                        } else {
                            assert(cursor(ps, next, 0) == next);
                            assert(ps[0] == c);
                        }
                    }
                }
            }
        }
    }
}

} // verus!
