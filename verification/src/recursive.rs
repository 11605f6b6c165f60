//! A generic error that nests itself as its source.
use crate::chars::{all_digits, decimal_value, is_digit};
use vstd::prelude::*;
use vstd::string::StringExecFns;

verus! {

/// A leaf value, or a nested error of the same type as source. It displays
/// as `leaf: {value}` or `nested: {source}`.
#[derive(Debug)]
pub enum Recursive<T> {
    Leaf { value: T },
    Nested { source: Box<Recursive<T>> },
}

impl<T> Recursive<T> {
    /// The nested error, for a nested one.
    pub fn source(&self) -> (r: Option<&Recursive<T>>)
        ensures
            match *self {
                Recursive::Nested { source } => r is Some && *r->Some_0 == *source,
                Recursive::Leaf { .. } => r is None,
            },
    {
        match self {
            Recursive::Nested { source } => Some(&**source),
            Recursive::Leaf { .. } => None,
        }
    }
}

/// The decimal digit `d` (below ten).
pub open spec fn digit(d: nat) -> char {
    if d == 0 {
        '0'
    } else if d == 1 {
        '1'
    } else if d == 2 {
        '2'
    } else if d == 3 {
        '3'
    } else if d == 4 {
        '4'
    } else if d == 5 {
        '5'
    } else if d == 6 {
        '6'
    } else if d == 7 {
        '7'
    } else if d == 8 {
        '8'
    } else {
        '9'
    }
}

/// `n` written in decimal, without leading zeros.
pub open spec fn decimal_text(n: nat) -> Seq<char>
    decreases n,
{
    if n < 10 {
        seq![digit(n)]
    } else {
        decimal_text(n / 10).push(digit(n % 10))
    }
}

/// The decimal text of `n` is all digits and reads back as `n`.
pub proof fn law_decimal_text_reads_back(n: nat)
    ensures
        all_digits(decimal_text(n)),
        decimal_value(decimal_text(n)) == n,
    decreases n,
{
    if n < 10 {
        let s = decimal_text(n);
        assert(s.drop_last() =~= Seq::<char>::empty());
        assert(decimal_value(Seq::<char>::empty()) == 0);
    } else {
        law_decimal_text_reads_back(n / 10);
        let s = decimal_text(n);
        assert(s.drop_last() =~= decimal_text(n / 10));
        assert(s.last() == digit(n % 10));
        assert(n == (n / 10) * 10 + n % 10);
        assert forall|i: int| 0 <= i < s.len() implies is_digit(#[trigger] s[i]) by {
            if i < s.len() - 1 {
                assert(s[i] == decimal_text(n / 10)[i]);
            }
        }
    }
}

/// The display text of an error with a byte value.
pub open spec fn message(r: Recursive<u8>) -> Seq<char>
    decreases r,
{
    match r {
        Recursive::Leaf { value } => "leaf: "@ + decimal_text(value as nat),
        Recursive::Nested { source } => "nested: "@ + message(*source),
    }
}

fn digit_str(d: u8) -> (s: &'static str)
    requires
        d < 10,
    ensures
        s@ == seq![digit(d as nat)],
{
    proof {
        reveal_strlit("0");
        reveal_strlit("1");
        reveal_strlit("2");
        reveal_strlit("3");
        reveal_strlit("4");
        reveal_strlit("5");
        reveal_strlit("6");
        reveal_strlit("7");
        reveal_strlit("8");
        reveal_strlit("9");
    }
    if d == 0 {
        "0"
    } else if d == 1 {
        "1"
    } else if d == 2 {
        "2"
    } else if d == 3 {
        "3"
    } else if d == 4 {
        "4"
    } else if d == 5 {
        "5"
    } else if d == 6 {
        "6"
    } else if d == 7 {
        "7"
    } else if d == 8 {
        "8"
    } else {
        "9"
    }
}

/// `v` in decimal.
fn byte_text(v: u8) -> (s: String)
    ensures
        s@ == decimal_text(v as nat),
{
    let mut s = String::new();
    if v >= 100 {
        s.append(digit_str(v / 100));
    }
    if v >= 10 {
        s.append(digit_str((v / 10) % 10));
    }
    s.append(digit_str(v % 10));
    proof {
        let n = v as nat;
        if n >= 100 {
            assert(decimal_text(n / 100) == seq![digit(n / 100)]);
            assert((n / 10) / 10 == n / 100);
            assert(decimal_text(n / 10) =~= seq![digit(n / 100)].push(digit((n / 10) % 10)));
        } else if n >= 10 {
            assert(decimal_text(n / 10) == seq![digit(n / 10)]);
            assert((n / 10) % 10 == n / 10);
        }
    }
    assert(s@ =~= decimal_text(v as nat));
    s
}

impl Recursive<u8> {
    /// The display text: `leaf: {value}` or `nested: {source}`.
    pub fn to_string(&self) -> (s: String)
        ensures
            s@ == message(*self),
        decreases *self,
    {
        match self {
            Recursive::Leaf { value } => {
                let mut s = String::from_str("leaf: ");
                let v = byte_text(*value);
                s.append(v.as_str());
                s
            },
            Recursive::Nested { source } => {
                let mut s = String::from_str("nested: ");
                let inner = source.to_string();
                s.append(inner.as_str());
                s
            },
        }
    }
}

/// A nested error whose source is the leaf `42`; it displays as
/// "nested: leaf: 42".
pub fn source_chain() -> (r: Recursive<u8>)
    ensures
        r matches Recursive::Nested { source } && *source matches Recursive::Leaf { value } && value
            == 42,
        message(r) == "nested: leaf: 42"@,
{
    let leaf: Recursive<u8> = Recursive::Leaf { value: 42u8 };
    let r = Recursive::Nested { source: Box::new(leaf) };
    proof {
        reveal_strlit("nested: ");
        reveal_strlit("leaf: ");
        reveal_strlit("nested: leaf: 42");
        assert(decimal_text(4) == seq!['4']);
        assert(decimal_text(42) =~= seq!['4', '2']);
        let leaf_model = Recursive::<u8>::Leaf { value: 42u8 };
        assert(message(leaf_model) =~= "leaf: "@ + seq!['4', '2']);
        assert(message(r) == "nested: "@ + message(leaf_model));
        assert(message(r) =~= "nested: leaf: 42"@);
    }
    r
}

} // verus!
