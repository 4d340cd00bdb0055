//! The order in which the counterexample lists names: case-insensitive,
//! ties broken by the names themselves, each name once.

use vstd::prelude::*;

verus! {

broadcast use vstd::std_specs::vec::group_vec_axioms;

/// The lower-case form of a text, as `str::to_lowercase` gives it.
pub uninterp spec fn lowercase(s: Seq<char>) -> Seq<char>;

/// `str::to_lowercase`: the text with each character mapped to its lower
/// case. Its result is named, not spelled out: the Unicode case mapping
/// takes tables, and the order below needs only that it is a function of
/// the text.
#[verifier::external_body]
pub(crate) fn to_lower(s: &str) -> (r: String)
    ensures
        r@ == lowercase(s@),
{
    s.to_lowercase()
}

/// Lexicographic order of texts by code point (the order of `String`).
pub open spec fn text_lt(a: Seq<char>, b: Seq<char>) -> bool
    decreases a.len(),
{
    if a.len() == 0 {
        b.len() > 0
    } else if b.len() == 0 {
        false
    } else if (a[0] as int) < (b[0] as int) {
        true
    } else if (a[0] as int) > (b[0] as int) {
        false
    } else {
        text_lt(a.skip(1), b.skip(1))
    }
}

/// The listing order: by lower-case form, then by the text itself.
pub open spec fn name_lt(a: Seq<char>, b: Seq<char>) -> bool {
    text_lt(lowercase(a), lowercase(b)) || (lowercase(a) == lowercase(b) && text_lt(a, b))
}

/// Strictly increasing in the listing order.
pub open spec fn listed(s: Seq<Seq<char>>) -> bool {
    forall|i: int, j: int| 0 <= i < j < s.len() ==> name_lt(#[trigger] s[i], #[trigger] s[j])
}

/// The texts of a list of strings.
pub open spec fn texts(v: Seq<String>) -> Seq<Seq<char>> {
    Seq::new(v.len(), |i: int| v[i]@)
}

/// The text order is irreflexive, transitive and total.
pub proof fn lemma_text_lt(a: Seq<char>, b: Seq<char>, c: Seq<char>)
    ensures
        !text_lt(a, a),
        text_lt(a, b) && text_lt(b, c) ==> text_lt(a, c),
        a != b ==> text_lt(a, b) || text_lt(b, a),
        text_lt(a, b) ==> !text_lt(b, a),
    decreases a.len(),
{
    if a.len() > 0 && b.len() > 0 && c.len() > 0 {
        lemma_text_lt(a.skip(1), b.skip(1), c.skip(1));
    } else if a.len() > 0 && b.len() > 0 {
        lemma_text_lt(a.skip(1), b.skip(1), b.skip(1));
    } else if a.len() > 0 {
        lemma_text_lt(a.skip(1), a.skip(1), a.skip(1));
    }
    if a.len() == 0 && b.len() == 0 {
        assert(a =~= b);
    }
    if a.len() > 0 && b.len() > 0 && a[0] == b[0] && a != b {
        assert(a.skip(1) != b.skip(1)) by {
            if a.skip(1) == b.skip(1) {
                assert(a =~= seq![a[0]] + a.skip(1));
                assert(b =~= seq![b[0]] + b.skip(1));
            }
        }
    }
}

/// The listing order is irreflexive, transitive and total.
pub proof fn lemma_name_lt(a: Seq<char>, b: Seq<char>, c: Seq<char>)
    ensures
        !name_lt(a, a),
        name_lt(a, b) && name_lt(b, c) ==> name_lt(a, c),
        a != b ==> name_lt(a, b) || name_lt(b, a),
        name_lt(a, b) ==> !name_lt(b, a),
{
    lemma_text_lt(a, b, c);
    lemma_text_lt(lowercase(a), lowercase(b), lowercase(c));
    lemma_text_lt(lowercase(b), lowercase(a), lowercase(a));
    lemma_text_lt(b, a, a);
}

/// The names of `names` in the listing order, each once.
pub open spec fn listing(names: Seq<Seq<char>>) -> Seq<Seq<char>> {
    choose|s: Seq<Seq<char>>| listed(s) && forall|x: Seq<char>| s.contains(x) <==> names.contains(x)
}

/// Two lists in the listing order with the same names are the same list.
pub proof fn lemma_listed_unique(a: Seq<Seq<char>>, b: Seq<Seq<char>>)
    requires
        listed(a),
        listed(b),
        forall|x: Seq<char>| a.contains(x) <==> b.contains(x),
    ensures
        a == b,
    decreases a.len(),
{
    if a.len() == 0 {
        if b.len() > 0 {
            assert(b.contains(b[0]));
        }
        assert(a =~= b);
    } else {
        assert(a.contains(a[0]));
        assert(b.len() > 0);
        assert(b.contains(b[0]));
        let j = choose|j: int| 0 <= j < b.len() && #[trigger] b[j] == a[0];
        let k = choose|k: int| 0 <= k < a.len() && #[trigger] a[k] == b[0];
        lemma_name_lt(a[0], b[0], a[0]);
        if j > 0 {
            assert(name_lt(b[0], b[j]));
            if k > 0 {
                assert(name_lt(a[0], a[k]));
            }
        }
        assert(a[0] == b[0]);
        let a1 = a.skip(1);
        let b1 = b.skip(1);
        assert forall|x: Seq<char>| a1.contains(x) <==> b1.contains(x) by {
            if a1.contains(x) {
                let m = choose|m: int| 0 <= m < a1.len() && #[trigger] a1[m] == x;
                assert(a[m + 1] == x);
                assert(name_lt(a[0], a[m + 1]));
                lemma_name_lt(x, x, x);
                assert(a.contains(x));
                let n = choose|n: int| 0 <= n < b.len() && #[trigger] b[n] == x;
                assert(n != 0);
                assert(b1[n - 1] == x);
            }
            if b1.contains(x) {
                let m = choose|m: int| 0 <= m < b1.len() && #[trigger] b1[m] == x;
                assert(b[m + 1] == x);
                assert(name_lt(b[0], b[m + 1]));
                lemma_name_lt(x, x, x);
                assert(b.contains(x));
                let n = choose|n: int| 0 <= n < a.len() && #[trigger] a[n] == x;
                assert(n != 0);
                assert(a1[n - 1] == x);
            }
        }
        assert(listed(a1)) by {
            assert forall|i: int, j: int| 0 <= i < j < a1.len() implies name_lt(#[trigger] a1[i], #[trigger] a1[j]) by {
                assert(name_lt(a[i + 1], a[j + 1]));
            }
        }
        assert(listed(b1)) by {
            assert forall|i: int, j: int| 0 <= i < j < b1.len() implies name_lt(#[trigger] b1[i], #[trigger] b1[j]) by {
                assert(name_lt(b[i + 1], b[j + 1]));
            }
        }
        lemma_listed_unique(a1, b1);
        assert(a =~= seq![a[0]] + a1);
        assert(b =~= seq![b[0]] + b1);
    }
}

/// Compares two texts in code-point order.
pub(crate) fn text_less(a: &str, b: &str) -> (r: bool)
    ensures
        r == text_lt(a@, b@),
{
    let na = a.unicode_len();
    let nb = b.unicode_len();
    let mut i: usize = 0;
    proof {
        assert(a@.skip(0) =~= a@);
        assert(b@.skip(0) =~= b@);
    }
    while i < na && i < nb
        invariant
            na == a@.len(),
            nb == b@.len(),
            0 <= i <= na,
            i <= nb,
            text_lt(a@, b@) == text_lt(a@.skip(i as int), b@.skip(i as int)),
        decreases na - i,
    {
        let ca = a.get_char(i);
        let cb = b.get_char(i);
        proof {
            assert(a@.skip(i as int)[0] == ca);
            assert(b@.skip(i as int)[0] == cb);
            assert(a@.skip(i as int).skip(1) =~= a@.skip(i + 1));
            assert(b@.skip(i as int).skip(1) =~= b@.skip(i + 1));
        }
        if (ca as u32) < (cb as u32) {
            return true;
        }
        if (ca as u32) > (cb as u32) {
            return false;
        }
        i = i + 1;
    }
    i < nb
}

/// Whether `a` comes before `b` in the listing order.
fn name_less(a: &str, la: &str, b: &str, lb: &str) -> (r: bool)
    requires
        la@ == lowercase(a@),
        lb@ == lowercase(b@),
    ensures
        r == name_lt(a@, b@),
{
    if text_less(la, lb) {
        return true;
    }
    let same = text_less(la, lb) == false && text_less(lb, la) == false;
    proof {
        lemma_text_lt(la@, lb@, lb@);
    }
    same && text_less(a, b)
}

/// The names in the listing order, each once.
pub fn sorted_ci(names: &Vec<String>) -> (r: Vec<String>)
    ensures
        texts(r@) == listing(texts(names@)),
        listed(texts(r@)),
        forall|x: Seq<char>| texts(r@).contains(x) <==> texts(names@).contains(x),
{
    let mut out: Vec<String> = Vec::new();
    let mut keys: Vec<String> = Vec::new();
    let mut i: usize = 0;
    while i < names.len()
        invariant
            0 <= i <= names@.len(),
            out@.len() == keys@.len(),
            forall|k: int| 0 <= k < keys@.len() ==> (#[trigger] keys@[k])@ == lowercase(out@[k]@),
            listed(texts(out@)),
            forall|x: Seq<char>| texts(out@).contains(x) <==> texts(names@.take(i as int)).contains(x),
        decreases names@.len() - i,
    {
        let name = &names[i];
        let key = to_lower(name.as_str());
        let mut p: usize = 0;
        let mut dup = false;
        while p < out.len()
            invariant
                0 <= p <= out@.len(),
                out@.len() == keys@.len(),
                forall|k: int| 0 <= k < keys@.len() ==> (#[trigger] keys@[k])@ == lowercase(out@[k]@),
                key@ == lowercase(name@),
                !dup,
                forall|k: int| 0 <= k < p ==> name_lt(#[trigger] texts(out@)[k], name@),
            ensures
                0 <= p <= out@.len(),
                forall|k: int| 0 <= k < p ==> name_lt(#[trigger] texts(out@)[k], name@),
                p < out@.len() ==> !name_lt(texts(out@)[p as int], name@),
            decreases out@.len() - p,
        {
            if name_less(out[p].as_str(), keys[p].as_str(), name.as_str(), key.as_str()) {
                p = p + 1;
            } else {
                break;
            }
        }
        let ghost before = texts(out@);
        if p < out.len() {
            if !name_less(name.as_str(), key.as_str(), out[p].as_str(), keys[p].as_str()) {
                proof {
                    lemma_name_lt(name@, before[p as int], before[p as int]);
                    assert(before[p as int] == name@);
                }
                dup = true;
            }
        }
        if !dup {
            out.insert(p, name.clone());
            keys.insert(p, key);
            proof {
                let after = texts(out@);
                assert(after =~= before.insert(p as int, name@));
                assert forall|a: int, b: int| 0 <= a < b < after.len() implies name_lt(#[trigger] after[a], #[trigger] after[b]) by {
                    if a < p && b < p {
                    } else if a < p && b == p {
                    } else if a < p && b > p {
                        assert(name_lt(before[a], name@));
                        lemma_name_lt(before[a], name@, before[b - 1]);
                        if p < before.len() {
                            assert(name_lt(name@, before[p as int]));
                            if b - 1 > p {
                                assert(name_lt(before[p as int], before[b - 1]));
                                lemma_name_lt(name@, before[p as int], before[b - 1]);
                            }
                        }
                    } else if a == p {
                        assert(name_lt(name@, before[p as int]));
                        if b - 1 > p {
                            assert(name_lt(before[p as int], before[b - 1]));
                            lemma_name_lt(name@, before[p as int], before[b - 1]);
                        }
                    } else {
                        assert(name_lt(before[a - 1], before[b - 1]));
                    }
                }
                assert forall|k: int| 0 <= k < keys@.len() implies (#[trigger] keys@[k])@ == lowercase(out@[k]@) by {
                    if k < p {
                    } else if k == p {
                    } else {
                    }
                }
            }
        }
        proof {
            assert(names@.take(i + 1) =~= names@.take(i as int).push(names@[i as int]));
            assert(texts(names@.take(i + 1)) =~= texts(names@.take(i as int)).push(name@));
            assert forall|x: Seq<char>| texts(out@).contains(x) <==> texts(names@.take(i + 1)).contains(x) by {
                if texts(names@.take(i + 1)).contains(x) {
                    if x == name@ {
                        if dup {
                            assert(texts(out@)[p as int] == x);
                        } else {
                            assert(texts(out@)[p as int] == x);
                        }
                    } else {
                        let k = choose|k: int| 0 <= k < texts(names@.take(i + 1)).len() && #[trigger] texts(names@.take(i + 1))[k] == x;
                        assert(texts(names@.take(i as int))[k] == x);
                        assert(texts(names@.take(i as int)).contains(x));
                        assert(before.contains(x));
                        let m = choose|m: int| 0 <= m < before.len() && #[trigger] before[m] == x;
                        if !dup {
                            if m < p {
                                assert(texts(out@)[m] == x);
                            } else {
                                assert(texts(out@)[m + 1] == x);
                            }
                        } else {
                            assert(texts(out@)[m] == x);
                        }
                    }
                }
                if texts(out@).contains(x) {
                    let m = choose|m: int| 0 <= m < texts(out@).len() && #[trigger] texts(out@)[m] == x;
                    if !dup {
                        if m < p {
                            assert(before[m] == x);
                        } else if m == p {
                            assert(x == name@);
                            assert(texts(names@.take(i + 1))[i as int] == x);
                        } else {
                            assert(before[m - 1] == x);
                        }
                    } else {
                        assert(before[m] == x);
                    }
                    if x != name@ {
                        assert(before.contains(x));
                        assert(texts(names@.take(i as int)).contains(x));
                        let k = choose|k: int| 0 <= k < texts(names@.take(i as int)).len() && #[trigger] texts(names@.take(i as int))[k] == x;
                        assert(texts(names@.take(i + 1))[k] == x);
                    } else {
                        assert(texts(names@.take(i + 1))[i as int] == x);
                    }
                }
            }
        }
        i = i + 1;
    }
    proof {
        assert(names@.take(i as int) =~= names@);
        let w = texts(out@);
        assert(listed(w) && forall|x: Seq<char>| w.contains(x) <==> texts(names@).contains(x));
        let l = listing(texts(names@));
        lemma_listed_unique(w, l);
    }
    out
}

} // verus!
