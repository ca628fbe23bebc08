use vstd::prelude::*;

verus! {

/// `q` occurs in `s` as a contiguous run of characters.
pub open spec fn has_substring(s: Seq<char>, q: Seq<char>) -> bool {
    exists|i: int| 0 <= i && i + q.len() <= s.len() && #[trigger] s.subrange(i, i + q.len()) == q
}

/// Equality of two string slices (`<str as PartialEq>::eq`): the result is
/// `true` exactly when both hold the same characters.
#[verifier::external_body]
pub(crate) fn str_eq(a: &str, b: &str) -> (res: bool)
    ensures
        res == (a@ == b@),
{
    a == b
}

/// Substring test (`str::contains` with a `&str` pattern): the result is
/// `true` exactly when `q` occurs in `s` as a contiguous run of characters.
#[verifier::external_body]
pub(crate) fn str_contains(s: &str, q: &str) -> (res: bool)
    ensures
        res == has_substring(s@, q@),
{
    s.contains(q)
}

/// The character for decimal digit `d`.
pub open spec fn digit_char(d: nat) -> char {
    (d + 48) as char
}

/// The decimal digits of `n`, most significant first, without sign or
/// leading zeros.
pub open spec fn decimal(n: nat) -> Seq<char>
    decreases n,
{
    if n < 10 {
        seq![digit_char(n)]
    } else {
        decimal(n / 10).push(digit_char(n % 10))
    }
}

/// Different numbers have different decimal digits.
pub proof fn lemma_decimal_injective(a: nat, b: nat)
    requires
        decimal(a) == decimal(b),
    ensures
        a == b,
    decreases a,
{
    if a < 10 && b >= 10 {
        lemma_decimal_long(b / 10);
        assert(decimal(b).len() >= 2);
    } else if a >= 10 && b < 10 {
        lemma_decimal_long(a / 10);
        assert(decimal(a).len() >= 2);
    } else if a < 10 && b < 10 {
        assert(decimal(a) == seq![digit_char(a)]);
        assert(decimal(b) == seq![digit_char(b)]);
        assert(decimal(a)[0] == digit_char(a));
        assert(decimal(b)[0] == digit_char(b));
        assert(digit_char(a) == digit_char(b));
        assert(digit_char(a) as int == a + 48);
        assert(digit_char(b) as int == b + 48);
        assert(a == b);
    } else {
        let da = decimal(a / 10);
        let db = decimal(b / 10);
        assert(da == decimal(a).drop_last());
        assert(db == decimal(b).drop_last());
        assert(decimal(a).last() == digit_char(a % 10));
        assert(decimal(b).last() == digit_char(b % 10));
        assert(decimal(a)[decimal(a).len() - 1] == decimal(b)[decimal(b).len() - 1]);
        assert(digit_char(a % 10) as int == a % 10 + 48);
        assert(digit_char(b % 10) as int == b % 10 + 48);
        lemma_decimal_injective(a / 10, b / 10);
        assert(a % 10 == b % 10);
        assert(a == b);
    }
}

/// Decimal digits are never empty.
proof fn lemma_decimal_long(n: nat)
    ensures
        decimal(n).len() >= 1,
    decreases n,
{
    if n >= 10 {
        lemma_decimal_long(n / 10);
    }
}

/// Decimal text of an index (`<usize as ToString>::to_string`): its decimal
/// digits, most significant first, with no sign and no leading zeros.
#[verifier::external_body]
pub(crate) fn decimal_string(n: usize) -> (s: String)
    ensures
        s@ == decimal(n as nat),
{
    n.to_string()
}

/// The map described by a list of (key, value) pairs, read from first to
/// last: a later pair for the same key replaces an earlier one.
pub open spec fn pairs_map(s: Seq<(Seq<char>, Seq<char>)>) -> Map<Seq<char>, Seq<char>>
    decreases s.len(),
{
    if s.len() == 0 {
        Map::empty()
    } else {
        pairs_map(s.drop_last()).insert(s.last().0, s.last().1)
    }
}

/// No key occurs twice in the list.
pub open spec fn keys_unique(s: Seq<(Seq<char>, Seq<char>)>) -> bool {
    forall|i: int, j: int| 0 <= i < j < s.len() ==> s[i].0 != s[j].0
}

/// The keys of `pairs_map(s)` are exactly the keys that occur in `s`.
pub proof fn lemma_pairs_map_dom(s: Seq<(Seq<char>, Seq<char>)>)
    ensures
        forall|k: Seq<char>|
            #[trigger] pairs_map(s).contains_key(k) <==> exists|i: int|
                0 <= i < s.len() && s[i].0 == k,
    decreases s.len(),
{
    if s.len() > 0 {
        let t = s.drop_last();
        lemma_pairs_map_dom(t);
        assert forall|k: Seq<char>| #[trigger] pairs_map(s).contains_key(k) <==> exists|i: int|
            0 <= i < s.len() && s[i].0 == k by {
            if k == s.last().0 {
                assert(s[s.len() - 1].0 == k);
                assert(pairs_map(s).contains_key(k));
            } else {
                assert(pairs_map(s).contains_key(k) == pairs_map(t).contains_key(k));
                if pairs_map(t).contains_key(k) {
                    let i = choose|i: int| 0 <= i < t.len() && t[i].0 == k;
                    assert(s[i].0 == k);
                }
                if exists|i: int| 0 <= i < s.len() && s[i].0 == k {
                    let i = choose|i: int| 0 <= i < s.len() && s[i].0 == k;
                    assert(i < s.len() - 1);
                    assert(t[i].0 == k);
                    assert(pairs_map(t).contains_key(k));
                }
            }
        }
    }
}

/// A pair whose key does not occur again later in the list gives that key's
/// value in the map.
pub proof fn lemma_pairs_map_last(s: Seq<(Seq<char>, Seq<char>)>, j: int)
    requires
        0 <= j < s.len(),
        forall|m: int| j < m < s.len() ==> #[trigger] s[m].0 != s[j].0,
    ensures
        pairs_map(s).contains_key(s[j].0),
        pairs_map(s)[s[j].0] == s[j].1,
    decreases s.len(),
{
    let t = s.drop_last();
    if j < s.len() - 1 {
        assert(t[j] == s[j]);
        assert forall|m: int| j < m < t.len() implies #[trigger] t[m].0 != t[j].0 by {
            assert(t[m] == s[m]);
        }
        lemma_pairs_map_last(t, j);
        assert(s[s.len() - 1].0 != s[j].0);
    }
}

/// With unique keys, every pair of the list is an entry of the map.
pub proof fn lemma_pairs_map_value(s: Seq<(Seq<char>, Seq<char>)>, i: int)
    requires
        keys_unique(s),
        0 <= i < s.len(),
    ensures
        pairs_map(s).contains_key(s[i].0),
        pairs_map(s)[s[i].0] == s[i].1,
    decreases s.len(),
{
    let t = s.drop_last();
    if i < s.len() - 1 {
        assert(t[i] == s[i]);
        lemma_pairs_map_value(t, i);
        assert(s[i].0 != s.last().0);
    }
}

/// With unique keys, the map has as many entries as the list has pairs.
pub proof fn lemma_pairs_map_len(s: Seq<(Seq<char>, Seq<char>)>)
    requires
        keys_unique(s),
    ensures
        pairs_map(s).dom().finite(),
        pairs_map(s).len() == s.len(),
    decreases s.len(),
{
    if s.len() > 0 {
        let t = s.drop_last();
        lemma_pairs_map_len(t);
        lemma_pairs_map_dom(t);
        assert(!pairs_map(t).contains_key(s.last().0)) by {
            if pairs_map(t).contains_key(s.last().0) {
                let i = choose|i: int| 0 <= i < t.len() && t[i].0 == s.last().0;
                assert(s[i].0 == s[s.len() - 1].0);
            }
        }
    }
}

/// Replacing the value of the pair at `i` replaces that key's value in the map.
pub proof fn lemma_pairs_map_update(
    s: Seq<(Seq<char>, Seq<char>)>,
    i: int,
    v: Seq<char>,
)
    requires
        keys_unique(s),
        0 <= i < s.len(),
    ensures
        keys_unique(s.update(i, (s[i].0, v))),
        pairs_map(s.update(i, (s[i].0, v))) == pairs_map(s).insert(s[i].0, v),
{
    let u = s.update(i, (s[i].0, v));
    assert(keys_unique(u));
    lemma_pairs_map_dom(s);
    lemma_pairs_map_dom(u);
    let m = pairs_map(s).insert(s[i].0, v);
    assert forall|k: Seq<char>| #[trigger] pairs_map(u).contains_key(k) <==> m.contains_key(k) by {
        if exists|j: int| 0 <= j < s.len() && s[j].0 == k {
            let j = choose|j: int| 0 <= j < s.len() && s[j].0 == k;
            assert(u[j].0 == k);
        }
        if exists|j: int| 0 <= j < u.len() && u[j].0 == k {
            let j = choose|j: int| 0 <= j < u.len() && u[j].0 == k;
            assert(s[j].0 == k);
        }
    }
    assert forall|k: Seq<char>| #[trigger] pairs_map(u).contains_key(k) implies pairs_map(u)[k]
        == m[k] by {
        let j = choose|j: int| 0 <= j < u.len() && u[j].0 == k;
        lemma_pairs_map_value(u, j);
        if j != i {
            lemma_pairs_map_value(s, j);
        }
    }
    assert(pairs_map(u) =~= m);
}

/// Removing the pair at `i` removes that key from the map.
pub proof fn lemma_pairs_map_remove(s: Seq<(Seq<char>, Seq<char>)>, i: int)
    requires
        keys_unique(s),
        0 <= i < s.len(),
    ensures
        keys_unique(s.remove(i)),
        pairs_map(s.remove(i)) == pairs_map(s).remove(s[i].0),
{
    let u = s.remove(i);
    assert forall|a: int, b: int| 0 <= a < b < u.len() implies u[a].0 != u[b].0 by {
        let a2 = if a < i { a } else { a + 1 };
        let b2 = if b < i { b } else { b + 1 };
        assert(u[a] == s[a2]);
        assert(u[b] == s[b2]);
    }
    lemma_pairs_map_dom(s);
    lemma_pairs_map_dom(u);
    let m = pairs_map(s).remove(s[i].0);
    assert forall|k: Seq<char>| #[trigger] pairs_map(u).contains_key(k) <==> m.contains_key(k) by {
        if exists|j: int| 0 <= j < s.len() && s[j].0 == k && k != s[i].0 {
            let j = choose|j: int| 0 <= j < s.len() && s[j].0 == k && k != s[i].0;
            let j2 = if j < i { j } else { j - 1 };
            assert(u[j2].0 == k);
        }
        if exists|j: int| 0 <= j < u.len() && u[j].0 == k {
            let j = choose|j: int| 0 <= j < u.len() && u[j].0 == k;
            let j2 = if j < i { j } else { j + 1 };
            assert(s[j2].0 == k);
            assert(j2 != i);
        }
    }
    assert forall|k: Seq<char>| #[trigger] pairs_map(u).contains_key(k) implies pairs_map(u)[k]
        == m[k] by {
        let j = choose|j: int| 0 <= j < u.len() && u[j].0 == k;
        let j2 = if j < i { j } else { j + 1 };
        assert(u[j] == s[j2]);
        lemma_pairs_map_value(u, j);
        lemma_pairs_map_value(s, j2);
    }
    assert(pairs_map(u) =~= m);
}

} // verus!
