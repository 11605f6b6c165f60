//! A listing of bounds by a text key, kept in increasing key order with one
//! entry per key, where a later entry for a key replaces the earlier one.
use crate::bounds::{bounds_view, Bound, BoundModel, Capability};
use crate::chars::chars_of;
use crate::format::FormatTrait;
use crate::ty::Ty;
use vstd::prelude::*;
use vstd::string::StringExecFns;

verus! {

/// Calls `str::parse::<proc_macro2::TokenStream>` and renders the tokens
/// with `ToString`. Nothing is promised of what comes back: proc_macro2
/// lexes and prints with the compiler inside a procedural macro and with its
/// own code elsewhere, and the compiler's printing may change between
/// releases.
#[verifier::external_body]
fn render_tokens(text: &str) -> (r: Option<String>) {
    match text.parse::<proc_macro2::TokenStream>() {
        Ok(tokens) => Some(tokens.to_string()),
        Err(_) => None,
    }
}

/// The text of the predicate `ty : ::core::fmt::Trait`, the colon standing
/// apart from the type's last token.
pub open spec fn fmt_predicate_text(ty_text: Seq<char>, t: FormatTrait) -> Seq<char> {
    ty_text + " : ::core::fmt::"@ + t.spec_name()
}

/// The text of the predicate `ty : ::core::fmt::Trait`.
pub fn fmt_predicate(ty: &Ty, t: FormatTrait) -> (p: String)
    ensures
        p@ == fmt_predicate_text(ty.text@, t),
{
    let mut text = ty.text.clone();
    text.append(" : ::core::fmt::");
    text.append(t.name());
    text
}

/// The key of a `core::fmt` bound: the rendering of its predicate's tokens
/// in this process (or the predicate's text, when it does not lex). Other
/// bounds get the empty key.
pub fn fmt_bound_key(b: &Bound) -> (k: Vec<char>)
    ensures
        !(b matches Bound::Inferred { capability: Capability::Fmt(_), .. }) ==> k@.len() == 0,
{
    match b {
        Bound::Inferred { ty, capability: Capability::Fmt(t) } => {
            let text = fmt_predicate(ty, *t);
            let rendered = render_tokens(text.as_str());
            key_from_rendering(text, rendered)
        },
        _ => Vec::new(),
    }
}

/// The key of a predicate from its text and the rendering of its tokens:
/// the rendering, or the text itself when it does not lex.
pub fn key_from_rendering(text: String, rendered: Option<String>) -> (k: Vec<char>)
    ensures
        k@ == match rendered {
            Some(r) => r@,
            None => text@,
        },
{
    let chosen = match rendered {
        Some(r) => r,
        None => text,
    };
    chars_of(chosen.as_str())
}

/// The bounds by key, each paired with the key at its index; a later bound
/// replaces an earlier one with the same key.
pub open spec fn keyed(all: Seq<BoundModel>, ks: Seq<Seq<char>>) -> Map<Seq<char>, BoundModel>
    decreases all.len(),
{
    if all.len() == 0 {
        Map::empty()
    } else {
        keyed(all.drop_last(), ks.drop_last()).insert(ks.last(), all.last())
    }
}

/// `rk` are the keys under which `r` lists the map `m`: strictly increasing,
/// one per entry of `m`.
pub open spec fn listing_keys(
    r: Seq<BoundModel>,
    m: Map<Seq<char>, BoundModel>,
    rk: Seq<Seq<char>>,
) -> bool {
    &&& rk.len() == r.len()
    &&& forall|i: int, j: int| 0 <= i < j < rk.len() ==> seq_lt(#[trigger] rk[i], #[trigger] rk[j])
    &&& forall|i: int| 0 <= i < rk.len() ==> m.contains_key(#[trigger] rk[i]) && m[rk[i]] == r[i]
    &&& forall|k: Seq<char>| #[trigger]
        m.contains_key(k) ==> exists|i: int| 0 <= i < rk.len() && rk[i] == k
}

/// `r` lists the map `m`: its values in increasing key order, one per key.
pub open spec fn lists_in_key_order(r: Seq<BoundModel>, m: Map<Seq<char>, BoundModel>) -> bool {
    exists|rk: Seq<Seq<char>>| #[trigger] listing_keys(r, m, rk)
}

pub open spec fn keys_view(v: Seq<Vec<char>>) -> Seq<Seq<char>> {
    v.map_values(|k: Vec<char>| k@)
}

/// Orders bounds by their keys: one bound per key, the last one given for
/// it, in increasing key order.
pub fn order_by_keys<'a>(bounds: Vec<Bound<'a>>, keys: Vec<Vec<char>>) -> (r: Vec<Bound<'a>>)
    requires
        bounds@.len() == keys@.len(),
    ensures
        lists_in_key_order(bounds_view(r@), keyed(bounds_view(bounds@), keys_view(keys@))),
{
    let ghost all = bounds_view(bounds@);
    let ghost ks = keys_view(keys@);
    let mut keys = keys;
    let mut entries: Vec<(Vec<char>, Bound<'a>)> = Vec::new();
    let n = bounds.len();
    let mut i: usize = 0;
    assert(all.take(0) =~= Seq::<BoundModel>::empty());
    assert(ks.take(0) =~= Seq::<Seq<char>>::empty());
    assert(keys_view(keys@) =~= ks.skip(0));
    while i < n
        invariant
            n == bounds@.len(),
            all == bounds_view(bounds@),
            ks.len() == n,
            i <= n,
            keys_view(keys@) == ks.skip(i as int),
            lists(entries@, keyed(all.take(i as int), ks.take(i as int))),
        decreases n - i,
    {
        let ghost before = keys@;
        assert(keys_view(keys@).len() == keys@.len());
        assert(keys@.len() > 0);
        let key = keys.remove(0);
        assert(key@ == keys_view(before)[0]);
        assert forall|j: int| 0 <= j < keys_view(keys@).len() implies #[trigger] keys_view(keys@)[j]
            == ks.skip(i + 1)[j] by {
            assert(keys@[j] == before[j + 1]);
            assert(keys_view(before)[j + 1] == ks.skip(i as int)[j + 1]);
        }
        assert(keys_view(keys@) =~= ks.skip(i + 1));
        let b = bounds[i];
        assert(all.take(i + 1).drop_last() =~= all.take(i as int));
        assert(ks.take(i + 1).drop_last() =~= ks.take(i as int));
        assert(all.take(i + 1).last() == b@);
        assert(ks.take(i + 1).last() == key@);
        insert_entry(&mut entries, key, b, Ghost(keyed(all.take(i as int), ks.take(i as int))));
        i += 1;
    }
    assert(all.take(n as int) =~= all);
    assert(ks.take(n as int) =~= ks);
    let ghost m = keyed(all, ks);
    let ghost listed = entries@;
    let mut r: Vec<Bound<'a>> = Vec::new();
    while entries.len() > 0
        invariant
            r@.len() + entries@.len() == listed.len(),
            forall|j: int| 0 <= j < r@.len() ==> (#[trigger] r@[j]) == listed[j].1,
            forall|j: int|
                0 <= j < entries@.len() ==> (#[trigger] entries@[j]) == listed[r@.len() + j],
        decreases entries@.len(),
    {
        let (_, b) = entries.remove(0);
        r.push(b);
    }
    proof {
        let rv = bounds_view(r@);
        let rk = listed.map_values(|e: (Vec<char>, Bound<'a>)| e.0@);
        assert forall|a: int, c: int| 0 <= a < c < rk.len() implies seq_lt(
            #[trigger] rk[a],
            #[trigger] rk[c],
        ) by {
            assert(seq_lt(listed[a].0@, listed[c].0@));
        }
        assert forall|a: int| 0 <= a < rk.len() implies m.contains_key(#[trigger] rk[a]) && m[rk[a]]
            == rv[a] by {
            assert(m.contains_key(listed[a].0@));
        }
        assert forall|k: Seq<char>| #[trigger] m.contains_key(k) implies exists|a: int|
            0 <= a < rk.len() && rk[a] == k by {
            let a = choose|a: int| 0 <= a < listed.len() && listed[a].0@ == k;
            assert(rk[a] == k);
        }
        assert(listing_keys(rv, m, rk));
    }
    r
}

/// Lexicographic order on character sequences, by code point.
pub open spec fn seq_lt(a: Seq<char>, b: Seq<char>) -> bool
    decreases a.len(),
{
    if a.len() == 0 {
        b.len() > 0
    } else if b.len() == 0 {
        false
    } else if a[0] != b[0] {
        (a[0] as int) < (b[0] as int)
    } else {
        seq_lt(a.drop_first(), b.drop_first())
    }
}

pub proof fn lemma_lt_irreflexive(a: Seq<char>)
    ensures
        !seq_lt(a, a),
    decreases a.len(),
{
    if a.len() > 0 {
        lemma_lt_irreflexive(a.drop_first());
    }
}

pub proof fn lemma_lt_transitive(a: Seq<char>, b: Seq<char>, c: Seq<char>)
    requires
        seq_lt(a, b),
        seq_lt(b, c),
    ensures
        seq_lt(a, c),
    decreases a.len(),
{
    if a.len() > 0 && b.len() > 0 && c.len() > 0 {
        if a[0] == b[0] && b[0] == c[0] {
            lemma_lt_transitive(a.drop_first(), b.drop_first(), c.drop_first());
        }
    }
}

pub proof fn lemma_lt_total(a: Seq<char>, b: Seq<char>)
    ensures
        a == b || seq_lt(a, b) || seq_lt(b, a),
    decreases a.len(),
{
    if a.len() > 0 && b.len() > 0 {
        if a[0] == b[0] {
            lemma_lt_total(a.drop_first(), b.drop_first());
            if a.drop_first() == b.drop_first() {
                assert(a =~= seq![a[0]] + a.drop_first());
                assert(b =~= seq![b[0]] + b.drop_first());
            }
        } else {
            assert((a[0] as int) != (b[0] as int));
        }
    } else if a.len() == 0 && b.len() == 0 {
        assert(a =~= b);
    }
}

pub proof fn lemma_lt_distinct(a: Seq<char>, b: Seq<char>)
    requires
        seq_lt(a, b),
    ensures
        a != b,
        !seq_lt(b, a),
{
    lemma_lt_irreflexive(a);
    if seq_lt(b, a) {
        lemma_lt_transitive(a, b, a);
    }
}

/// Whether `a` comes before `b`.
pub fn chars_lt(a: &Vec<char>, b: &Vec<char>) -> (r: bool)
    ensures
        r == seq_lt(a@, b@),
{
    let mut i: usize = 0;
    assert(a@.skip(0) =~= a@);
    assert(b@.skip(0) =~= b@);
    while i < a.len() && i < b.len() && a[i] == b[i]
        invariant
            i <= a@.len(),
            i <= b@.len(),
            seq_lt(a@, b@) == seq_lt(a@.skip(i as int), b@.skip(i as int)),
        decreases a@.len() - i,
    {
        assert(a@.skip(i as int).drop_first() =~= a@.skip(i + 1));
        assert(b@.skip(i as int).drop_first() =~= b@.skip(i + 1));
        i += 1;
    }
    if i == a.len() {
        i < b.len()
    } else if i == b.len() {
        false
    } else {
        assert(a@.skip(i as int)[0] == a@[i as int]);
        assert(b@.skip(i as int)[0] == b@[i as int]);
        a[i] < b[i]
    }
}

/// Whether `a` and `b` hold the same characters.
pub fn chars_eq(a: &Vec<char>, b: &Vec<char>) -> (r: bool)
    ensures
        r == (a@ == b@),
{
    if a.len() != b.len() {
        return false;
    }
    let mut i: usize = 0;
    while i < a.len()
        invariant
            a@.len() == b@.len(),
            i <= a@.len(),
            forall|j: int| 0 <= j < i ==> a@[j] == b@[j],
        decreases a@.len() - i,
    {
        if a[i] != b[i] {
            return false;
        }
        i += 1;
    }
    assert(a@ =~= b@);
    true
}

/// Entries in strictly increasing key order.
pub open spec fn keys_sorted<'a>(e: Seq<(Vec<char>, Bound<'a>)>) -> bool {
    forall|i: int, j: int| 0 <= i < j < e.len() ==> seq_lt(#[trigger] e[i].0@, #[trigger] e[j].0@)
}

/// The entries list exactly the key map `m`, in key order.
pub open spec fn lists<'a>(e: Seq<(Vec<char>, Bound<'a>)>, m: Map<Seq<char>, BoundModel>) -> bool {
    &&& keys_sorted(e)
    &&& forall|i: int|
        0 <= i < e.len() ==> m.contains_key(#[trigger] e[i].0@) && m[e[i].0@] == e[i].1@
    &&& forall|k: Seq<char>| #[trigger]
        m.contains_key(k) ==> exists|i: int| 0 <= i < e.len() && e[i].0@ == k
}

/// Sets the entry for `key` to `b`, in place when the key is listed.
pub fn insert_entry<'a>(
    entries: &mut Vec<(Vec<char>, Bound<'a>)>,
    key: Vec<char>,
    b: Bound<'a>,
    Ghost(m): Ghost<Map<Seq<char>, BoundModel>>,
)
    requires
        lists(old(entries)@, m),
    ensures
        lists(final(entries)@, m.insert(key@, b@)),
{
    let ghost e = entries@;
    let mut p: usize = 0;
    while p < entries.len() && chars_lt(&entries[p].0, &key)
        invariant
            entries@ == e,
            p <= e.len(),
            forall|j: int| 0 <= j < p ==> seq_lt(#[trigger] e[j].0@, key@),
        decreases e.len() - p,
    {
        p += 1;
    }
    let ghost k = key@;
    let ghost m2 = m.insert(k, b@);
    if p < entries.len() && chars_eq(&entries[p].0, &key) {
        entries.set(p, (key, b));
        assert forall|i: int, j: int| 0 <= i < j < entries@.len() implies seq_lt(
            #[trigger] entries@[i].0@,
            #[trigger] entries@[j].0@,
        ) by {
            assert(seq_lt(e[i].0@, e[j].0@));
        }
        assert forall|i: int| 0 <= i < entries@.len() implies m2.contains_key(
            #[trigger] entries@[i].0@,
        ) && m2[entries@[i].0@] == entries@[i].1@ by {
            if i != p {
                if i < p {
                    lemma_lt_distinct(e[i].0@, e[p as int].0@);
                } else {
                    lemma_lt_distinct(e[p as int].0@, e[i].0@);
                }
            }
        }
        assert forall|kk: Seq<char>| #[trigger] m2.contains_key(kk) implies exists|i: int|
            0 <= i < entries@.len() && entries@[i].0@ == kk by {
            if kk == k {
                assert(entries@[p as int].0@ == kk);
            } else {
                let i = choose|i: int| 0 <= i < e.len() && e[i].0@ == kk;
                assert(entries@[i].0@ == kk);
            }
        }
    } else {
        proof {
            if p < e.len() {
                lemma_lt_total(e[p as int].0@, k);
            }
        }
        entries.insert(p, (key, b));
        let ghost e2 = entries@;
        assert forall|i: int| 0 <= i < e.len() implies (#[trigger] e[i].0@) != k by {
            if i < p {
                lemma_lt_distinct(e[i].0@, k);
            } else {
                if i > p {
                    lemma_lt_transitive(k, e[p as int].0@, e[i].0@);
                }
                lemma_lt_distinct(k, e[i].0@);
            }
        }
        assert forall|i: int, j: int| 0 <= i < j < e2.len() implies seq_lt(
            #[trigger] e2[i].0@,
            #[trigger] e2[j].0@,
        ) by {
            if j < p {
                assert(e2[i] == e[i] && e2[j] == e[j]);
            } else if j == p {
                assert(e2[i] == e[i]);
            } else if i < p {
                assert(e2[i] == e[i] && e2[j] == e[j - 1]);
                assert(seq_lt(e[i].0@, k));
                if j - 1 > p {
                    lemma_lt_transitive(k, e[p as int].0@, e[j - 1].0@);
                }
                lemma_lt_transitive(e[i].0@, k, e[j - 1].0@);
            } else if i == p {
                assert(e2[j] == e[j - 1]);
                if j - 1 > p {
                    lemma_lt_transitive(k, e[p as int].0@, e[j - 1].0@);
                }
            } else {
                assert(e2[i] == e[i - 1] && e2[j] == e[j - 1]);
            }
        }
        assert forall|i: int| 0 <= i < e2.len() implies m2.contains_key(#[trigger] e2[i].0@)
            && m2[e2[i].0@] == e2[i].1@ by {
            if i < p {
                assert(e2[i] == e[i]);
            } else if i > p {
                assert(e2[i] == e[i - 1]);
            }
        }
        assert forall|kk: Seq<char>| #[trigger] m2.contains_key(kk) implies exists|i: int|
            0 <= i < e2.len() && e2[i].0@ == kk by {
            if kk == k {
                assert(e2[p as int].0@ == kk);
            } else {
                let i = choose|i: int| 0 <= i < e.len() && e[i].0@ == kk;
                if i < p {
                    assert(e2[i].0@ == kk);
                } else {
                    assert(e2[i + 1].0@ == kk);
                }
            }
        }
    }
}

} // verus!
