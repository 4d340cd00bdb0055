//! Character-level helpers shared by the renderers: decimal numbers, the
//! `Enum::Variant` naming convention, identifier sanitising, joining and
//! padding, and the orders in which names are listed.

use vstd::prelude::*;

verus! {

/// The decimal digit `d` as a character.
pub open spec fn digit_char(d: nat) -> char {
    (48 + d) as char
}

/// The decimal notation of `n`, without leading zeros.
pub open spec fn dec_text(n: nat) -> Seq<char>
    decreases n,
{
    if n < 10 {
        seq![digit_char(n)]
    } else {
        dec_text(n / 10).push(digit_char(n % 10))
    }
}

/// The decimal text is never empty.
proof fn lemma_dec_text_len(n: nat)
    ensures
        dec_text(n).len() >= 1,
        n >= 10 ==> dec_text(n).len() >= 2,
    decreases n,
{
    if n >= 10 {
        lemma_dec_text_len(n / 10);
    }
}

/// Different numbers have different decimal texts.
pub proof fn lemma_dec_text_injective(a: nat, b: nat)
    requires
        dec_text(a) == dec_text(b),
    ensures
        a == b,
    decreases a,
{
    lemma_dec_text_len(a);
    lemma_dec_text_len(b);
    if a < 10 && b < 10 {
        assert(dec_text(a)[0] == digit_char(a));
        assert(dec_text(b)[0] == digit_char(b));
        assert(digit_char(a) as int == 48 + a);
        assert(digit_char(b) as int == 48 + b);
    } else if a >= 10 && b >= 10 {
        assert(dec_text(a).drop_last() =~= dec_text(a / 10));
        assert(dec_text(b).drop_last() =~= dec_text(b / 10));
        lemma_dec_text_injective(a / 10, b / 10);
        assert(dec_text(a).last() == digit_char(a % 10));
        assert(dec_text(b).last() == digit_char(b % 10));
        assert(digit_char(a % 10) as int == 48 + a % 10);
        assert(digit_char(b % 10) as int == 48 + b % 10);
    } else if a < 10 {
        assert(dec_text(a).len() == 1);
    } else {
        assert(dec_text(b).len() == 1);
    }
}

fn digit_str(d: usize) -> (r: String)
    requires
        d < 10,
    ensures
        r@ == seq![digit_char(d as nat)],
{
    let digits = "0123456789";
    proof {
        reveal_strlit("0123456789");
    }
    let one = digits.substring_char(d, d + 1);
    assert(one@ =~= seq![digit_char(d as nat)]);
    String::from_str(one)
}

/// `n` written in decimal.
pub fn decimal(n: usize) -> (r: String)
    ensures
        r@ == dec_text(n as nat),
    decreases n,
{
    if n < 10 {
        digit_str(n)
    } else {
        let mut s = decimal(n / 10);
        let d = digit_str(n % 10);
        s.append(d.as_str());
        s
    }
}

/// Whether `s` has `::` at position `i`.
pub open spec fn sep_at(s: Seq<char>, i: int) -> bool {
    0 <= i && i + 1 < s.len() && s[i] == ':' && s[i + 1] == ':'
}

/// What follows the last `::` of `s`, or all of `s` when it has none.
pub open spec fn after_last_sep(s: Seq<char>) -> Seq<char>
    decreases s.len(),
{
    if s.len() < 2 {
        s
    } else if sep_at(s, s.len() - 2) {
        Seq::empty()
    } else {
        after_last_sep(s.drop_last()).push(s.last())
    }
}

/// What precedes the first `::` of `s`, or all of `s` when it has none.
pub open spec fn before_first_sep(s: Seq<char>) -> Seq<char>
    decreases s.len(),
{
    if s.len() < 2 {
        s
    } else if sep_at(s, 0) {
        Seq::empty()
    } else {
        seq![s[0]] + before_first_sep(s.skip(1))
    }
}

/// `s` with every `::`, read from the left, replaced by `__`.
pub open spec fn sanitized(s: Seq<char>) -> Seq<char>
    decreases s.len(),
{
    if s.len() < 2 {
        s
    } else if sep_at(s, 0) {
        seq!['_', '_'] + sanitized(s.skip(2))
    } else {
        seq![s[0]] + sanitized(s.skip(1))
    }
}

proof fn lemma_after_last_sep_split(s: Seq<char>, j: int)
    requires
        0 <= j <= s.len(),
        forall|k: int| j - 1 <= k < s.len() - 1 ==> !sep_at(s, k),
        j >= 1,
    ensures
        after_last_sep(s) == after_last_sep(s.take(j)) + s.skip(j),
    decreases s.len() - j,
{
    if j == s.len() {
        assert(s.take(j) =~= s);
        assert(s.skip(j) =~= Seq::<char>::empty());
    } else {
        let t = s.drop_last();
        assert forall|k: int| j - 1 <= k < t.len() - 1 implies !sep_at(t, k) by {
            assert(!sep_at(s, k));
        }
        lemma_after_last_sep_split(t, j);
        assert(t.take(j) =~= s.take(j));
        assert(!sep_at(s, s.len() - 2));
        assert(after_last_sep(s) == after_last_sep(t).push(s.last()));
        assert(t.skip(j).push(s.last()) =~= s.skip(j));
        assert((after_last_sep(t.take(j)) + t.skip(j)).push(s.last()) =~= after_last_sep(t.take(j)) + t.skip(j).push(s.last()));
    }
}

/// The variant part of a constructor name: `Nat::S` gives `S`.
pub fn variant_name(full: &str) -> (r: String)
    ensures
        r@ == after_last_sep(full@),
{
    let n = full.unicode_len();
    if n < 2 {
        return String::from_str(full);
    }
    let mut j: usize = n;
    while j >= 2 && !(full.get_char(j - 2) == ':' && full.get_char(j - 1) == ':')
        invariant
            n == full@.len(),
            n >= 2,
            1 <= j <= n,
            forall|k: int| j - 1 <= k < n - 1 ==> !sep_at(full@, k),
        decreases j,
    {
        j = j - 1;
    }
    proof {
        lemma_after_last_sep_split(full@, j as int);
    }
    if j >= 2 {
        let tail = full.substring_char(j, n);
        proof {
            assert(sep_at(full@.take(j as int), j - 2));
            assert(after_last_sep(full@.take(j as int)) == Seq::<char>::empty());
            assert(tail@ =~= full@.skip(j as int));
            assert(Seq::<char>::empty() + full@.skip(j as int) =~= full@.skip(j as int));
        }
        String::from_str(tail)
    } else {
        proof {
            assert(after_last_sep(full@.take(1)) == full@.take(1));
            assert(full@.take(1) + full@.skip(1) =~= full@);
        }
        String::from_str(full)
    }
}

proof fn lemma_before_first_sep_split(s: Seq<char>, i: int)
    requires
        0 <= i <= s.len(),
        forall|k: int| 0 <= k < i ==> !sep_at(s, k),
    ensures
        before_first_sep(s) == s.take(i) + before_first_sep(s.skip(i)),
    decreases i,
{
    if i == 0 {
        assert(s.skip(0) =~= s);
        assert(s.take(0) + before_first_sep(s) =~= before_first_sep(s));
    } else {
        assert(!sep_at(s, 0));
        if s.len() < 2 {
            assert(s.take(i) + before_first_sep(s.skip(i)) =~= s);
        } else {
            let t = s.skip(1);
            assert forall|k: int| 0 <= k < i - 1 implies !sep_at(t, k) by {
                assert(!sep_at(s, k + 1));
            }
            lemma_before_first_sep_split(t, i - 1);
            assert(t.skip(i - 1) =~= s.skip(i));
            assert(seq![s[0]] + t.take(i - 1) =~= s.take(i));
            assert(seq![s[0]] + (t.take(i - 1) + before_first_sep(t.skip(i - 1))) =~= s.take(i) + before_first_sep(s.skip(i)));
        }
    }
}

/// The enum part of a constructor name: `Nat::S` gives `Nat`.
pub fn enum_name(full: &str) -> (r: String)
    ensures
        r@ == before_first_sep(full@),
{
    let n = full.unicode_len();
    let mut i: usize = 0;
    while n > 0 && i < n - 1 && !(full.get_char(i) == ':' && full.get_char(i + 1) == ':')
        invariant
            n == full@.len(),
            0 <= i <= n,
            forall|k: int| 0 <= k < i ==> !sep_at(full@, k),
        decreases n - i,
    {
        i = i + 1;
    }
    proof {
        lemma_before_first_sep_split(full@, i as int);
    }
    if n > 0 && i < n - 1 {
        let head = full.substring_char(0, i);
        proof {
            assert(sep_at(full@.skip(i as int), 0));
            assert(before_first_sep(full@.skip(i as int)) == Seq::<char>::empty());
            assert(head@ =~= full@.take(i as int) + Seq::<char>::empty());
        }
        String::from_str(head)
    } else {
        proof {
            assert(full@.skip(i as int).len() < 2);
            assert(full@.take(i as int) + full@.skip(i as int) =~= full@);
        }
        String::from_str(full)
    }
}

proof fn lemma_sanitized_step(s: Seq<char>, i: int)
    requires
        0 <= i,
        i + 1 < s.len(),
        sep_at(s, i),
    ensures
        sanitized(s.skip(i)) == seq!['_', '_'] + sanitized(s.skip(i + 2)),
{
    assert(sep_at(s.skip(i), 0));
    assert(s.skip(i).skip(2) =~= s.skip(i + 2));
}

proof fn lemma_sanitized_plain(s: Seq<char>, i: int)
    requires
        0 <= i < s.len(),
        !sep_at(s, i),
    ensures
        sanitized(s.skip(i)) == seq![s[i]] + sanitized(s.skip(i + 1)),
{
    if s.skip(i).len() < 2 {
        assert(s.skip(i) =~= seq![s[i]]);
        assert(s.skip(i + 1) =~= Seq::<char>::empty());
        assert(seq![s[i]] + Seq::<char>::empty() =~= seq![s[i]]);
    } else {
        assert(!sep_at(s.skip(i), 0));
        assert(s.skip(i).skip(1) =~= s.skip(i + 1));
    }
}

/// The identifier with each `::` replaced by `__`, so that a solver accepts it.
pub fn sanitize_id(id: &str) -> (r: String)
    ensures
        r@ == sanitized(id@),
{
    let n = id.unicode_len();
    let mut out = String::new();
    let mut i: usize = 0;
    proof {
        reveal_strlit("__");
        assert(id@.skip(0) =~= id@);
    }
    while i < n
        invariant
            n == id@.len(),
            0 <= i <= n,
            out@ + sanitized(id@.skip(i as int)) == sanitized(id@),
        decreases n - i,
    {
        if i + 1 < n && id.get_char(i) == ':' && id.get_char(i + 1) == ':' {
            proof {
                reveal_strlit("__");
                lemma_sanitized_step(id@, i as int);
                assert(out@ + "__"@ + sanitized(id@.skip(i + 2)) =~= out@ + sanitized(id@.skip(i as int)));
            }
            out.append("__");
            i = i + 2;
        } else {
            let one = id.substring_char(i, i + 1);
            proof {
                lemma_sanitized_plain(id@, i as int);
                assert(one@ =~= seq![id@[i as int]]);
                assert(out@ + one@ + sanitized(id@.skip(i + 1)) =~= out@ + sanitized(id@.skip(i as int)));
            }
            out.append(one);
            i = i + 1;
        }
    }
    proof {
        assert(id@.skip(n as int) =~= Seq::<char>::empty());
        assert(out@ + Seq::<char>::empty() =~= out@);
    }
    out
}

/// The parts separated by `sep`.
pub open spec fn join(sep: Seq<char>, parts: Seq<Seq<char>>) -> Seq<char>
    decreases parts.len(),
{
    if parts.len() == 0 {
        Seq::empty()
    } else if parts.len() == 1 {
        parts[0]
    } else {
        join(sep, parts.drop_last()) + sep + parts.last()
    }
}

/// Appends `part` to `out`, which holds `join(sep, parts)`, so that it holds
/// `join(sep, parts.push(part))`.
pub(crate) fn append_joined(out: &mut String, sep: &str, part: &str, first: bool, Ghost(parts): Ghost<Seq<Seq<char>>>)
    requires
        old(out)@ == join(sep@, parts),
        first == (parts.len() == 0),
    ensures
        final(out)@ == join(sep@, parts.push(part@)),
{
    proof {
        assert(parts.push(part@).drop_last() =~= parts);
    }
    if first {
        proof {
            assert(old(out)@ == Seq::<char>::empty());
        }
        out.append(part);
        proof {
            assert(final(out)@ =~= part@);
        }
    } else {
        out.append(sep);
        out.append(part);
    }
}

} // verus!
