//! Character-sequence utilities: lexicographic comparison, substring search,
//! and splitting on a separator character. All executable functions are
//! verified against spec-level definitions over `Seq<char>`.

use vstd::prelude::*;
use vstd::string::*;

verus! {

// ---------------------------------------------------------------------------
// Lexicographic order
// ---------------------------------------------------------------------------

/// Strict lexicographic order on character sequences, comparing characters by
/// code point. This coincides with Rust's `str` ordering.
pub open spec fn lex_lt(a: Seq<char>, b: Seq<char>) -> bool
    decreases a.len(),
{
    if b.len() == 0 {
        false
    } else if a.len() == 0 {
        true
    } else if a[0] != b[0] {
        (a[0] as u32) < (b[0] as u32)
    } else {
        lex_lt(a.drop_first(), b.drop_first())
    }
}

/// If `a` and `b` agree on their first `i` characters, comparison is decided
/// by the remainders.
proof fn lemma_lex_lt_skip(a: Seq<char>, b: Seq<char>, i: int)
    requires
        0 <= i <= a.len(),
        i <= b.len(),
        forall|j: int| 0 <= j < i ==> a[j] == b[j],
    ensures
        lex_lt(a, b) == lex_lt(a.skip(i), b.skip(i)),
    decreases i,
{
    if i == 0 {
        assert(a.skip(0) =~= a);
        assert(b.skip(0) =~= b);
    } else {
        assert(a.len() > 0 && b.len() > 0);
        assert(a[0] == b[0]);
        assert(a.drop_first() =~= a.skip(1));
        assert(b.drop_first() =~= b.skip(1));
        lemma_lex_lt_skip(a.skip(1), b.skip(1), i - 1);
        assert(a.skip(1).skip(i - 1) =~= a.skip(i));
        assert(b.skip(1).skip(i - 1) =~= b.skip(i));
    }
}

/// Strict lexicographic order is transitive.
pub proof fn lemma_lex_lt_trans(a: Seq<char>, b: Seq<char>, c: Seq<char>)
    requires
        lex_lt(a, b),
        lex_lt(b, c),
    ensures
        lex_lt(a, c),
    decreases a.len() + b.len() + c.len(),
{
    if a.len() > 0 && b.len() > 0 && c.len() > 0 {
        if a[0] == b[0] && b[0] == c[0] {
            lemma_lex_lt_trans(a.drop_first(), b.drop_first(), c.drop_first());
        }
    }
}

/// No character sequence is strictly before itself.
pub proof fn lemma_lex_lt_irrefl(a: Seq<char>)
    ensures
        !lex_lt(a, a),
    decreases a.len(),
{
    if a.len() > 0 {
        lemma_lex_lt_irrefl(a.drop_first());
    }
}

/// Executable strict comparison of two strings by character code points,
/// equal to the spec-level `lex_lt` of their views.
pub fn str_lt(a: &str, b: &str) -> (r: bool)
    ensures
        r == lex_lt(a@, b@),
{
    let la = a.unicode_len();
    let lb = b.unicode_len();
    let mut i: usize = 0;
    loop
        invariant
            la == a@.len(),
            lb == b@.len(),
            0 <= i <= la,
            i <= lb,
            forall|j: int| 0 <= j < i ==> a@[j] == b@[j],
        decreases la - i,
    {
        if i == la || i == lb {
            proof {
                lemma_lex_lt_skip(a@, b@, i as int);
            }
            return la < lb;
        }
        let ca = a.get_char(i);
        let cb = b.get_char(i);
        if ca != cb {
            proof {
                lemma_lex_lt_skip(a@, b@, i as int);
            }
            return (ca as u32) < (cb as u32);
        }
        i = i + 1;
    }
}

/// Executable equality of two strings character by character.
pub fn str_eq(a: &str, b: &str) -> (r: bool)
    ensures
        r == (a@ == b@),
{
    let la = a.unicode_len();
    let lb = b.unicode_len();
    if la != lb {
        return false;
    }
    let mut i: usize = 0;
    while i < la
        invariant
            la == a@.len(),
            la == b@.len(),
            0 <= i <= la,
            forall|j: int| 0 <= j < i ==> a@[j] == b@[j],
        decreases la - i,
    {
        if a.get_char(i) != b.get_char(i) {
            return false;
        }
        i = i + 1;
    }
    proof {
        assert(a@ =~= b@);
    }
    true
}

// ---------------------------------------------------------------------------
// Substring search
// ---------------------------------------------------------------------------

/// `q` occurs in `t` as a contiguous run of characters. The empty sequence
/// occurs in every sequence.
pub open spec fn is_substr(t: Seq<char>, q: Seq<char>) -> bool {
    exists|k: int| 0 <= k && k + q.len() <= t.len() && #[trigger] t.subrange(k, k + q.len()) == q
}

/// Executable substring search, equal to the spec-level `is_substr`.
pub fn contains_sub(t: &str, q: &str) -> (r: bool)
    ensures
        r == is_substr(t@, q@),
{
    let tl = t.unicode_len();
    let ql = q.unicode_len();
    if ql > tl {
        assert(!is_substr(t@, q@));
        return false;
    }
    if ql == 0 {
        assert(is_substr(t@, q@)) by {
            assert(t@.subrange(0, 0 + q@.len() as int) =~= q@);
        }
        return true;
    }
    let mut k: usize = 0;
    loop
        invariant
            tl == t@.len(),
            ql == q@.len(),
            0 < ql <= tl,
            0 <= k <= tl - ql + 1,
            forall|k2: int| 0 <= k2 < k ==> #[trigger] t@.subrange(k2, k2 + q@.len() as int)
                != q@,
        decreases tl - ql + 1 - k,
    {
        if k > tl - ql {
            assert(!is_substr(t@, q@));
            return false;
        }
        let mut j: usize = 0;
        let mut matched = true;
        while j < ql
            invariant
                tl == t@.len(),
                ql == q@.len(),
                0 <= k <= tl - ql,
                0 <= j <= ql,
                matched ==> forall|j2: int| 0 <= j2 < j ==> t@[k + j2] == q@[j2],
                !matched ==> t@.subrange(k as int, k + q@.len() as int) != q@,
            decreases ql - j,
        {
            if matched {
                if t.get_char(k + j) != q.get_char(j) {
                    assert(t@.subrange(k as int, k + q@.len() as int)[j as int] != q@[j as int]);
                    matched = false;
                }
            }
            j = j + 1;
        }
        if matched {
            assert(t@.subrange(k as int, k + q@.len() as int) =~= q@);
            return true;
        }
        k = k + 1;
    }
}

// ---------------------------------------------------------------------------
// Splitting on a separator character
// ---------------------------------------------------------------------------

/// Split `s` on every occurrence of `sep`. The result always has at least one
/// element; separators are not kept; empty pieces are kept, so
/// `split_on` of an empty sequence is one empty piece.
pub open spec fn split_on(s: Seq<char>, sep: char) -> Seq<Seq<char>>
    decreases s.len(),
{
    if s.len() == 0 {
        seq![Seq::<char>::empty()]
    } else if s[0] == sep {
        seq![Seq::<char>::empty()] + split_on(s.drop_first(), sep)
    } else {
        let r = split_on(s.drop_first(), sep);
        r.update(0, seq![s[0]] + r[0])
    }
}

pub proof fn lemma_split_on_nonempty(s: Seq<char>, sep: char)
    ensures
        split_on(s, sep).len() >= 1,
    decreases s.len(),
{
    if s.len() > 0 {
        lemma_split_on_nonempty(s.drop_first(), sep);
    }
}

/// A sequence free of the separator splits into exactly itself.
pub proof fn lemma_split_on_no_sep(a: Seq<char>, sep: char)
    requires
        forall|i: int| 0 <= i < a.len() ==> a[i] != sep,
    ensures
        split_on(a, sep) == seq![a],
    decreases a.len(),
{
    if a.len() == 0 {
        assert(a =~= Seq::<char>::empty());
        assert(split_on(a, sep) =~= seq![a]);
    } else {
        lemma_split_on_no_sep(a.drop_first(), sep);
        let r = split_on(a.drop_first(), sep);
        assert(r == seq![a.drop_first()]);
        assert(seq![a[0]] + a.drop_first() =~= a);
        assert(r.update(0, seq![a[0]] + r[0]) =~= seq![a]);
    }
}

/// Splitting `a + sep + b` where `a` is free of the separator yields `a`
/// followed by the split of `b`.
pub proof fn lemma_split_on_concat(a: Seq<char>, b: Seq<char>, sep: char)
    requires
        forall|i: int| 0 <= i < a.len() ==> a[i] != sep,
    ensures
        split_on(a + seq![sep] + b, sep) == seq![a] + split_on(b, sep),
    decreases a.len(),
{
    let s = a + seq![sep] + b;
    if a.len() == 0 {
        assert(s[0] == sep);
        assert(s.drop_first() =~= b);
        assert(a =~= Seq::<char>::empty());
        assert(seq![Seq::<char>::empty()] + split_on(b, sep) =~= seq![a] + split_on(b, sep));
    } else {
        assert(s[0] == a[0]);
        assert(s[0] != sep);
        assert(s.drop_first() =~= a.drop_first() + seq![sep] + b);
        lemma_split_on_concat(a.drop_first(), b, sep);
        let r = split_on(s.drop_first(), sep);
        assert(r == seq![a.drop_first()] + split_on(b, sep));
        lemma_split_on_nonempty(b, sep);
        assert(r[0] == a.drop_first());
        assert(seq![s[0]] + r[0] =~= a);
        assert(r.update(0, seq![s[0]] + r[0]) =~= seq![a] + split_on(b, sep));
    }
}

/// The view of each piece of the split, in order.
pub open spec fn views_of_strings(parts: Seq<String>) -> Seq<Seq<char>> {
    parts.map_values(|p: String| p@)
}

/// Executable split of a string on a separator character, equal to the
/// spec-level `split_on` of its view.
pub fn split_char(s: &str, sep: char) -> (parts: Vec<String>)
    ensures
        views_of_strings(parts@) == split_on(s@, sep),
{
    let n = s.unicode_len();
    let mut parts: Vec<String> = Vec::new();
    let mut start: usize = 0;
    let mut i: usize = 0;
    proof {
        assert(s@.subrange(0, n as int) =~= s@);
        assert(views_of_strings(parts@) + split_on(s@, sep) =~= split_on(s@, sep));
    }
    while i < n
        invariant
            n == s@.len(),
            0 <= start <= i <= n,
            forall|j: int| start <= j < i ==> s@[j] != sep,
            split_on(s@, sep) == views_of_strings(parts@) + split_on(
                s@.subrange(start as int, n as int),
                sep,
            ),
        decreases n - i,
    {
        if s.get_char(i) == sep {
            let piece = String::from_str(s.substring_char(start, i));
            proof {
                let a = s@.subrange(start as int, i as int);
                let b = s@.subrange(i + 1, n as int);
                assert(s@.subrange(start as int, n as int) =~= a + seq![sep] + b);
                lemma_split_on_concat(a, b, sep);
                assert(views_of_strings(parts@.push(piece)) =~= views_of_strings(parts@)
                    + seq![piece@]);
                assert(views_of_strings(parts@) + (seq![a] + split_on(b, sep)) =~= (
                views_of_strings(parts@) + seq![a]) + split_on(b, sep));
            }
            parts.push(piece);
            start = i + 1;
        }
        i = i + 1;
    }
    let piece = String::from_str(s.substring_char(start, n));
    proof {
        let a = s@.subrange(start as int, n as int);
        lemma_split_on_no_sep(a, sep);
        assert(views_of_strings(parts@.push(piece)) =~= views_of_strings(parts@) + seq![a]);
    }
    parts.push(piece);
    proof {
        assert(views_of_strings(parts@) =~= split_on(s@, sep));
    }
    parts
}

} // verus!
