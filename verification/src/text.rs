//! Verified text utilities: substring search, lexicographic ordering and
//! splitting, shared by the error classifier, the publish-order solver and
//! the configuration parser.

use vstd::prelude::*;

verus! {

/// The character-sequence views of a vector of strings.
pub open spec fn str_views(v: Seq<String>) -> Seq<Seq<char>> {
    v.map_values(|s: String| s@)
}

/// The needle `n` occurs in the haystack `h` starting at character index `i`.
pub open spec fn occurs_at(h: Seq<char>, n: Seq<char>, i: int) -> bool {
    0 <= i && i + n.len() <= h.len() && h.subrange(i, i + n.len()) == n
}

/// The needle `n` occurs somewhere in the haystack `h`.
pub open spec fn occurs(h: Seq<char>, n: Seq<char>) -> bool {
    exists|i: int| occurs_at(h, n, i)
}

/// Strict lexicographic order on character sequences, by code point.
pub open spec fn lex_lt(a: Seq<char>, b: Seq<char>) -> bool
    decreases a.len(),
{
    if b.len() == 0 {
        false
    } else if a.len() == 0 {
        true
    } else if a[0] != b[0] {
        a[0] < b[0]
    } else {
        lex_lt(a.drop_first(), b.drop_first())
    }
}

/// Lexicographic order is a strict total order: exactly one of
/// `a < b`, `a == b`, `b < a` holds.
pub proof fn lemma_lex_lt_trichotomy(a: Seq<char>, b: Seq<char>)
    ensures
        lex_lt(a, b) || lex_lt(b, a) || a == b,
        lex_lt(a, b) ==> !lex_lt(b, a) && a != b,
        lex_lt(b, a) ==> !lex_lt(a, b) && a != b,
    decreases a.len(),
{
    if a.len() == 0 || b.len() == 0 {
        if a.len() == 0 && b.len() == 0 {
            assert(a =~= b);
        }
    } else if a[0] == b[0] {
        lemma_lex_lt_trichotomy(a.drop_first(), b.drop_first());
        if a.drop_first() == b.drop_first() {
            assert(a.len() == b.len());
            assert forall|i: int| 0 <= i < a.len() implies a[i] == b[i] by {
                if i > 0 {
                    assert(a.drop_first()[i - 1] == b.drop_first()[i - 1]);
                }
            }
            assert(a =~= b);
        }
        if a == b {
            assert(a.drop_first() =~= b.drop_first());
        }
        assert(lex_lt(a, b) == lex_lt(a.drop_first(), b.drop_first()));
        assert(lex_lt(b, a) == lex_lt(b.drop_first(), a.drop_first()));
    } else {
        assert(a != b) by {
            assert(a[0] != b[0]);
        }
    }
}

/// Lexicographic order is transitive.
pub proof fn lemma_lex_lt_transitive(a: Seq<char>, b: Seq<char>, c: Seq<char>)
    requires
        lex_lt(a, b),
        lex_lt(b, c),
    ensures
        lex_lt(a, c),
    decreases a.len(),
{
    if a.len() == 0 || b.len() == 0 || c.len() == 0 {
    } else if a[0] == b[0] && b[0] == c[0] {
        lemma_lex_lt_transitive(a.drop_first(), b.drop_first(), c.drop_first());
    }
}

/// Whether the needle matches the haystack at character index `i`.
fn matches_at(h: &str, n: &str, i: usize, h_len: usize, n_len: usize) -> (r: bool)
    requires
        h_len == h@.len(),
        n_len == n@.len(),
        i + n_len <= h_len,
    ensures
        r == occurs_at(h@, n@, i as int),
{
    let mut j: usize = 0;
    while j < n_len
        invariant
            h_len == h@.len(),
            n_len == n@.len(),
            i + n_len <= h_len,
            0 <= j <= n_len,
            forall|k: int| 0 <= k < j ==> h@[i + k] == n@[k],
        decreases n_len - j,
    {
        if h.get_char(i + j) != n.get_char(j) {
            assert(h@.subrange(i as int, i + n@.len())[j as int] != n@[j as int]);
            return false;
        }
        j += 1;
    }
    assert(h@.subrange(i as int, i + n@.len()) =~= n@);
    true
}

/// Character index of the first occurrence of `n` in `h`, if any.
pub fn find_first(h: &str, n: &str) -> (r: Option<usize>)
    ensures
        match r {
            Some(i) => occurs_at(h@, n@, i as int) && (forall|j: int|
                0 <= j < i ==> !occurs_at(h@, n@, j)),
            None => !occurs(h@, n@),
        },
{
    let h_len = h.unicode_len();
    let n_len = n.unicode_len();
    if n_len > h_len {
        assert(!occurs(h@, n@)) by {
            assert(forall|i: int| !occurs_at(h@, n@, i));
        }
        return None;
    }
    if n_len == 0 {
        proof {
            assert(h@.subrange(0, 0) =~= n@);
        }
        return Some(0);
    }
    let mut i: usize = 0;
    while i <= h_len - n_len
        invariant
            h_len == h@.len(),
            n_len == n@.len(),
            1 <= n_len <= h_len,
            0 <= i <= h_len - n_len + 1,
            forall|j: int| 0 <= j < i ==> !occurs_at(h@, n@, j),
        decreases h_len - n_len - i + 1,
    {
        if matches_at(h, n, i, h_len, n_len) {
            return Some(i);
        }
        i += 1;
    }
    assert(!occurs(h@, n@)) by {
        assert(forall|j: int| occurs_at(h@, n@, j) ==> 0 <= j < i);
    }
    None
}

/// Decide `lex_lt(a@, b@)` executably.
pub fn str_lex_lt(a: &str, b: &str) -> (r: bool)
    ensures
        r == lex_lt(a@, b@),
{
    let a_len = a.unicode_len();
    let b_len = b.unicode_len();
    let mut i: usize = 0;
    proof {
        assert(a@.skip(0) =~= a@);
        assert(b@.skip(0) =~= b@);
    }
    loop
        invariant
            a_len == a@.len(),
            b_len == b@.len(),
            0 <= i <= a_len,
            i <= b_len,
            forall|k: int| 0 <= k < i ==> a@[k] == b@[k],
            lex_lt(a@, b@) == lex_lt(a@.skip(i as int), b@.skip(i as int)),
        decreases a_len - i,
    {
        if i >= a_len {
            return i < b_len;
        }
        if i >= b_len {
            return false;
        }
        let ca = a.get_char(i);
        let cb = b.get_char(i);
        if ca != cb {
            return ca < cb;
        }
        proof {
            assert(a@.skip(i as int).drop_first() =~= a@.skip(i + 1));
            assert(b@.skip(i as int).drop_first() =~= b@.skip(i + 1));
        }
        i += 1;
    }
}

/// Decide character-sequence equality of two string slices.
pub fn str_eq(a: &str, b: &str) -> (r: bool)
    ensures
        r == (a@ == b@),
{
    let a_len = a.unicode_len();
    let b_len = b.unicode_len();
    if a_len != b_len {
        return false;
    }
    let mut i: usize = 0;
    while i < a_len
        invariant
            a_len == a@.len(),
            b_len == b@.len(),
            a_len == b_len,
            0 <= i <= a_len,
            forall|k: int| 0 <= k < i ==> a@[k] == b@[k],
        decreases a_len - i,
    {
        if a.get_char(i) != b.get_char(i) {
            assert(a@ != b@) by {
                assert(a@[i as int] != b@[i as int]);
            }
            return false;
        }
        i += 1;
    }
    assert(a@ =~= b@);
    true
}

/// Decide byte-for-byte equality of two byte vectors.
pub fn bytes_eq(a: &Vec<u8>, b: &Vec<u8>) -> (r: bool)
    ensures
        r == (a@ =~= b@),
{
    if a.len() != b.len() {
        return false;
    }
    let n = a.len();
    let mut i: usize = 0;
    while i < n
        invariant
            n == a@.len() == b@.len(),
            0 <= i <= n,
            forall|k: int| 0 <= k < i ==> a@[k] == b@[k],
        decreases n - i,
    {
        if a[i] != b[i] {
            return false;
        }
        i += 1;
    }
    true
}

/// Relies on String::push: appends one character at the end.
#[verifier::external_body]
pub fn string_push(s: &mut String, c: char)
    ensures
        final(s)@ == old(s)@ + seq![c],
{
    s.push(c);
}

/// Split `s` at the single separator character `sep`: `Some((left, right))`
/// when `s` contains exactly one `sep`, `None` otherwise.
pub fn split_once_exact(s: &str, sep: char) -> (r: Option<(String, String)>)
    ensures
        match r {
            Some(p) => {
                &&& s@ =~= p.0@ + seq![sep] + p.1@
                &&& !p.0@.contains(sep)
                &&& !p.1@.contains(sep)
            },
            None => s@.filter(|c: char| c == sep).len() != 1,
        },
{
    let len = s.unicode_len();
    let mut first: Option<usize> = None;
    let mut count: usize = 0;
    let mut i: usize = 0;
    while i < len
        invariant
            len == s@.len(),
            0 <= i <= len,
            count == s@.take(i as int).filter(|c: char| c == sep).len(),
            count <= i,
            match first {
                Some(f) => 0 <= f < i && s@[f as int] == sep && count >= 1 && (forall|k: int|
                    0 <= k < f ==> s@[k] != sep),
                None => count == 0 && (forall|k: int| 0 <= k < i ==> s@[k] != sep),
            },
        decreases len - i,
    {
        proof {
            assert(s@.take(i + 1).drop_last() =~= s@.take(i as int));
            reveal_with_fuel(Seq::filter, 2);
        }
        if s.get_char(i) == sep {
            if first.is_none() {
                first = Some(i);
            }
            count += 1;
        }
        i += 1;
    }
    proof {
        assert(s@.take(len as int) =~= s@);
    }
    if count != 1 {
        return None;
    }
    match first {
        Some(f) => {
            let left = s.substring_char(0, f);
            let right = s.substring_char(f + 1, len);
            proof {
                assert(s@ =~= s@.subrange(0, f as int) + seq![s@[f as int]] + s@.subrange(
                    f + 1,
                    len as int,
                ));
                assert forall|k: int| 0 <= k < right@.len() implies right@[k] != sep by {
                    if s@[f + 1 + k] == sep {
                        lemma_second_occurrence_counts(s@, sep, f as int, f + 1 + k);
                    }
                }
                assert(!left@.contains(sep));
                assert(!right@.contains(sep));
            }
            Some((left.to_owned(), right.to_owned()))
        },
        None => {
            // Unreachable: a count of one records a first position.
            None
        },
    }
}

/// If `sep` occurs at two distinct positions of `s`, the filtered
/// occurrence count is at least two.
proof fn lemma_second_occurrence_counts(s: Seq<char>, sep: char, i: int, j: int)
    requires
        0 <= i < j < s.len(),
        s[i] == sep,
        s[j] == sep,
    ensures
        s.filter(|c: char| c == sep).len() >= 2,
    decreases s.len(),
{
    reveal_with_fuel(Seq::filter, 2);
    if j == s.len() - 1 {
        assert(s.drop_last().filter(|c: char| c == sep).len() >= 1) by {
            lemma_occurrence_counts(s.drop_last(), sep, i);
        }
    } else {
        lemma_second_occurrence_counts(s.drop_last(), sep, i, j);
    }
}

/// If `sep` occurs at a position of `s`, the filtered occurrence count is
/// at least one.
proof fn lemma_occurrence_counts(s: Seq<char>, sep: char, i: int)
    requires
        0 <= i < s.len(),
        s[i] == sep,
    ensures
        s.filter(|c: char| c == sep).len() >= 1,
    decreases s.len(),
{
    reveal_with_fuel(Seq::filter, 2);
    if i < s.len() - 1 {
        lemma_occurrence_counts(s.drop_last(), sep, i);
    }
}

} // verus!
