//! Character-level helpers over string views (`Seq<char>`), with the
//! executable scans that compute them.
use vstd::prelude::*;

verus! {

/// An ASCII decimal digit.
pub open spec fn is_digit(c: char) -> bool {
    '0' <= c && c <= '9'
}

/// The Unicode `White_Space` property, which `char::is_whitespace` reports.
pub open spec fn is_whitespace(c: char) -> bool {
    let u = c as u32;
    ||| 0x9 <= u && u <= 0xD
    ||| u == 0x20
    ||| u == 0x85
    ||| u == 0xA0
    ||| u == 0x1680
    ||| 0x2000 <= u && u <= 0x200A
    ||| u == 0x2028
    ||| u == 0x2029
    ||| u == 0x202F
    ||| u == 0x205F
    ||| u == 0x3000
}

pub open spec fn all_digits(s: Seq<char>) -> bool {
    forall|i: int| 0 <= i < s.len() ==> is_digit(#[trigger] s[i])
}

/// The index of the first character satisfying `stop`, or the length when
/// there is none.
pub open spec fn first_pos(s: Seq<char>, stop: spec_fn(char) -> bool) -> nat
    decreases s.len(),
{
    if s.len() == 0 {
        0
    } else if stop(s[0]) {
        0
    } else {
        1 + first_pos(s.drop_first(), stop)
    }
}

/// `s` with its trailing whitespace removed.
pub open spec fn trim_end_ws(s: Seq<char>) -> Seq<char>
    decreases s.len(),
{
    if s.len() > 0 && is_whitespace(s.last()) {
        trim_end_ws(s.drop_last())
    } else {
        s
    }
}

/// `s` with its leading ASCII digits removed.
pub open spec fn trim_start_digits(s: Seq<char>) -> Seq<char> {
    s.skip(first_pos(s, |c: char| !is_digit(c)) as int)
}

/// The value of a string of decimal digits.
pub open spec fn decimal_value(s: Seq<char>) -> nat
    decreases s.len(),
{
    if s.len() == 0 {
        0
    } else {
        decimal_value(s.drop_last()) * 10 + ((s.last() as u32) - ('0' as u32)) as nat
    }
}

pub proof fn lemma_first_pos(s: Seq<char>, stop: spec_fn(char) -> bool)
    ensures
        first_pos(s, stop) <= s.len(),
        forall|j: int| 0 <= j < first_pos(s, stop) ==> !stop(#[trigger] s[j]),
        first_pos(s, stop) < s.len() ==> stop(s[first_pos(s, stop) as int]),
    decreases s.len(),
{
    if s.len() > 0 && !stop(s[0]) {
        lemma_first_pos(s.drop_first(), stop);
        assert forall|j: int| 0 <= j < first_pos(s, stop) implies !stop(#[trigger] s[j]) by {
            if j > 0 {
                assert(s[j] == s.drop_first()[j - 1]);
            }
        }
    }
}

/// The first position is the one before which nothing stops and at which
/// something stops (or the end is reached).
pub proof fn lemma_first_pos_is(s: Seq<char>, stop: spec_fn(char) -> bool, i: int)
    requires
        0 <= i <= s.len(),
        forall|j: int| 0 <= j < i ==> !stop(#[trigger] s[j]),
        i == s.len() || stop(s[i]),
    ensures
        first_pos(s, stop) == i,
    decreases s.len(),
{
    if s.len() > 0 && i > 0 {
        assert(!stop(s[0]));
        assert forall|j: int| 0 <= j < i - 1 implies !stop(#[trigger] s.drop_first()[j]) by {
            assert(s.drop_first()[j] == s[j + 1]);
        }
        lemma_first_pos_is(s.drop_first(), stop, i - 1);
    }
}

/// The characters of `s`, in order.
pub fn chars_of(s: &str) -> (v: Vec<char>)
    ensures
        v@ == s@,
{
    let n = s.unicode_len();
    let mut v: Vec<char> = Vec::new();
    let mut i: usize = 0;
    while i < n
        invariant
            n == s@.len(),
            i <= n,
            v@ =~= s@.take(i as int),
        decreases n - i,
    {
        v.push(s.get_char(i));
        i += 1;
    }
    v
}

/// The suffix of `s` that starts at character `k`.
pub fn skip_chars(s: &str, k: usize) -> (r: &str)
    requires
        k <= s@.len(),
    ensures
        r@ == s@.skip(k as int),
{
    let n = s.unicode_len();
    s.substring_char(k, n)
}

/// The first character of `s`, if any.
pub fn char_at(s: &str, i: usize) -> (r: Option<char>)
    ensures
        r == (if i < s@.len() {
            Some(s@[i as int])
        } else {
            None::<char>
        }),
{
    if i < s.unicode_len() {
        Some(s.get_char(i))
    } else {
        None
    }
}

pub fn is_whitespace_char(c: char) -> (b: bool)
    ensures
        b == is_whitespace(c),
{
    let u = c as u32;
    (0x9 <= u && u <= 0xD) || u == 0x20 || u == 0x85 || u == 0xA0 || u == 0x1680 || (0x2000 <= u
        && u <= 0x200A) || u == 0x2028 || u == 0x2029 || u == 0x202F || u == 0x205F || u == 0x3000
}

pub fn is_digit_char(c: char) -> (b: bool)
    ensures
        b == is_digit(c),
{
    '0' <= c && c <= '9'
}

/// `s` without its trailing whitespace.
pub fn trim_end_whitespace(s: &str) -> (r: &str)
    ensures
        r@ == trim_end_ws(s@),
{
    let n = s.unicode_len();
    let mut j: usize = n;
    assert(s@.take(n as int) =~= s@);
    while j > 0 && is_whitespace_char(s.get_char(j - 1))
        invariant
            n == s@.len(),
            j <= n,
            trim_end_ws(s@) == trim_end_ws(s@.take(j as int)),
        decreases j,
    {
        assert(s@.take(j as int).drop_last() =~= s@.take(j - 1));
        j -= 1;
    }
    assert(s@.take(n as int) =~= s@);
    s.substring_char(0, j)
}

/// `s` without its leading ASCII digits.
pub fn trim_start_digit_chars(s: &str) -> (r: &str)
    ensures
        r@ == trim_start_digits(s@),
{
    let n = s.unicode_len();
    let mut i: usize = 0;
    while i < n && is_digit_char(s.get_char(i))
        invariant
            n == s@.len(),
            i <= n,
            forall|j: int| 0 <= j < i ==> is_digit(#[trigger] s@[j]),
        decreases n - i,
    {
        i += 1;
    }
    proof {
        lemma_first_pos_is(s@, |c: char| !is_digit(c), i as int);
    }
    skip_chars(s, i)
}

proof fn lemma_decimal_value_grows(s: Seq<char>, i: int, j: int)
    requires
        0 <= i <= j <= s.len(),
    ensures
        decimal_value(s.take(i)) <= decimal_value(s.take(j)),
    decreases j - i,
{
    if i < j {
        lemma_decimal_value_grows(s, i, j - 1);
        assert(s.take(j).drop_last() =~= s.take(j - 1));
    }
}

/// The value of the digit string `s`, or `None` when it exceeds `usize::MAX`.
pub fn decimal(s: &str) -> (r: Option<usize>)
    requires
        all_digits(s@),
    ensures
        r == (if decimal_value(s@) <= usize::MAX {
            Some(decimal_value(s@) as usize)
        } else {
            None::<usize>
        }),
{
    let n = s.unicode_len();
    let mut acc: usize = 0;
    let mut i: usize = 0;
    while i < n
        invariant
            n == s@.len(),
            i <= n,
            all_digits(s@),
            acc == decimal_value(s@.take(i as int)),
        decreases n - i,
    {
        let c = s.get_char(i);
        assert(is_digit(s@[i as int]));
        let d = (c as u32 - '0' as u32) as usize;
        assert(s@.take(i + 1).drop_last() =~= s@.take(i as int));
        match acc.checked_mul(10) {
            Some(m) => match m.checked_add(d) {
                Some(v) => {
                    acc = v;
                },
                None => {
                    proof {
                        lemma_decimal_value_grows(s@, i + 1, n as int);
                        assert(s@.take(n as int) =~= s@);
                    }
                    return None;
                },
            },
            None => {
                proof {
                    lemma_decimal_value_grows(s@, i + 1, n as int);
                    assert(s@.take(n as int) =~= s@);
                }
                return None;
            },
        }
        i += 1;
    }
    assert(s@.take(n as int) =~= s@);
    Some(acc)
}

/// Whether two strings hold the same characters.
pub fn same_chars(a: &str, b: &str) -> (r: bool)
    ensures
        r == (a@ == b@),
{
    let n = a.unicode_len();
    if n != b.unicode_len() {
        return false;
    }
    let mut i: usize = 0;
    while i < n
        invariant
            n == a@.len(),
            n == b@.len(),
            i <= n,
            forall|j: int| 0 <= j < i ==> a@[j] == b@[j],
        decreases n - i,
    {
        if a.get_char(i) != b.get_char(i) {
            return false;
        }
        i += 1;
    }
    assert(a@ =~= b@);
    true
}

} // verus!
