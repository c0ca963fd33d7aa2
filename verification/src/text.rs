//! Verified helpers for the small amount of string processing the server
//! needs: splitting on a separator, substring search, suffix extraction,
//! and the case-insensitive ordering used to sort directory listings.

use vstd::prelude::*;

verus! {

/// Index of the first occurrence of `c` in `s`, or `s.len()` if absent.
pub open spec fn first_index_of(s: Seq<char>, c: char) -> nat
    decreases s.len(),
{
    if s.len() == 0 {
        0
    } else if s[0] == c {
        0
    } else {
        1 + first_index_of(s.drop_first(), c)
    }
}

pub proof fn lemma_first_index_of(s: Seq<char>, c: char)
    ensures
        first_index_of(s, c) <= s.len(),
        first_index_of(s, c) < s.len() ==> s[first_index_of(s, c) as int] == c,
        forall|j: int| 0 <= j < first_index_of(s, c) ==> s[j] != c,
    decreases s.len(),
{
    if s.len() != 0 && s[0] != c {
        lemma_first_index_of(s.drop_first(), c);
        assert forall|j: int| 0 <= j < first_index_of(s, c) implies s[j] != c by {
            if j > 0 {
                assert(s.drop_first()[j - 1] == s[j]);
            }
        }
    }
}

/// The pieces of `s` between occurrences of the separator `c`.
/// Splitting the empty string yields one empty piece, as `str::split` does.
pub open spec fn split_on(s: Seq<char>, c: char) -> Seq<Seq<char>>
    decreases s.len(),
{
    let i = first_index_of(s, c);
    if i >= s.len() {
        seq![s]
    } else {
        seq![s.take(i as int)] + split_on(s.skip(i as int + 1), c)
    }
}

/// Whether `p` occurs as a contiguous substring of `s`.
pub open spec fn contains_sub(s: Seq<char>, p: Seq<char>) -> bool {
    exists|k: int| 0 <= k && k + p.len() <= s.len() && #[trigger] s.subrange(k, k + p.len()) == p
}

/// The suffix of `s` after the last occurrence of `c` (all of `s` if `c`
/// does not occur).
pub open spec fn after_last(s: Seq<char>, c: char) -> Seq<char>
    decreases s.len(),
{
    if s.len() == 0 {
        Seq::empty()
    } else if s.last() == c {
        Seq::empty()
    } else {
        after_last(s.drop_last(), c).push(s.last())
    }
}

/// ASCII lower-casing of one character, as `u8::to_ascii_lowercase` does it.
pub open spec fn lower(c: char) -> char {
    if 'A' <= c && c <= 'Z' {
        ((c as u8) + 32) as char
    } else {
        c
    }
}

/// Case-insensitive lexicographic "less or equal" on names, matching a
/// byte-wise comparison of the ASCII-lowercased strings.
pub open spec fn name_le(a: Seq<char>, b: Seq<char>) -> bool
    decreases a.len(),
{
    if a.len() == 0 {
        true
    } else if b.len() == 0 {
        false
    } else if lower(a[0]) == lower(b[0]) {
        name_le(a.drop_first(), b.drop_first())
    } else {
        lower(a[0]) < lower(b[0])
    }
}

pub proof fn lemma_name_le_total(a: Seq<char>, b: Seq<char>)
    ensures
        name_le(a, b) || name_le(b, a),
    decreases a.len(),
{
    if a.len() != 0 && b.len() != 0 && lower(a[0]) == lower(b[0]) {
        lemma_name_le_total(a.drop_first(), b.drop_first());
    }
}

pub proof fn lemma_name_le_trans(a: Seq<char>, b: Seq<char>, c: Seq<char>)
    requires
        name_le(a, b),
        name_le(b, c),
    ensures
        name_le(a, c),
    decreases a.len(),
{
    if a.len() != 0 && b.len() != 0 && c.len() != 0 {
        if lower(a[0]) == lower(b[0]) && lower(b[0]) == lower(c[0]) {
            lemma_name_le_trans(a.drop_first(), b.drop_first(), c.drop_first());
        }
    }
}

/// Exec counterpart of `lower`.
pub fn lower_char(c: char) -> (r: char)
    ensures
        r == lower(c),
{
    if 'A' <= c && c <= 'Z' {
        (((c as u8) + 32) as char)
    } else {
        c
    }
}

/// Exec counterpart of `name_le`: case-insensitive comparison of two names.
pub fn name_le_exec(a: &str, b: &str) -> (r: bool)
    ensures
        r == name_le(a@, b@),
{
    let a_len = a.unicode_len();
    let b_len = b.unicode_len();
    let mut i: usize = 0;
    proof {
        assert(a@.skip(0) =~= a@);
        assert(b@.skip(0) =~= b@);
    }
    loop
        invariant
            i <= a_len,
            i <= b_len,
            a_len == a@.len(),
            b_len == b@.len(),
            name_le(a@, b@) == name_le(a@.skip(i as int), b@.skip(i as int)),
        decreases a_len - i,
    {
        if i == a_len {
            proof {
                assert(a@.skip(i as int).len() == 0);
            }
            return true;
        }
        if i == b_len {
            proof {
                assert(b@.skip(i as int).len() == 0);
                assert(a@.skip(i as int).len() > 0);
            }
            return false;
        }
        let ca = lower_char(a.get_char(i));
        let cb = lower_char(b.get_char(i));
        proof {
            assert(a@.skip(i as int)[0] == a@[i as int]);
            assert(b@.skip(i as int)[0] == b@[i as int]);
            assert(a@.skip(i as int).drop_first() =~= a@.skip(i + 1));
            assert(b@.skip(i as int).drop_first() =~= b@.skip(i + 1));
        }
        if ca == cb {
            i = i + 1;
        } else {
            return ca < cb;
        }
    }
}

/// Splits `s` at every occurrence of `c`.
pub fn split_on_exec(s: &str, c: char) -> (parts: Vec<String>)
    ensures
        parts.deep_view() == split_on(s@, c),
{
    let mut parts: Vec<String> = Vec::new();
    let mut rest: String = s.to_owned();
    loop
        invariant
            parts.deep_view() + split_on(rest@, c) == split_on(s@, c),
        decreases rest@.len(),
    {
        let len = rest.as_str().unicode_len();
        let mut i: usize = 0;
        let mut found = false;
        while i < len && !found
            invariant
                i <= len,
                len == rest@.len(),
                found ==> i < len && rest@[i as int] == c,
                forall|j: int| 0 <= j < i ==> rest@[j] != c,
            decreases len - i + (if found { 0int } else { 1int }),
        {
            if rest.as_str().get_char(i) == c {
                found = true;
            } else {
                i = i + 1;
            }
        }
        proof {
            lemma_first_index_of(rest@, c);
            if found {
                let fi = first_index_of(rest@, c) as int;
                if fi < i {
                    assert(rest@[fi] == c);
                    assert(false);
                }
                if fi > i {
                    assert(rest@[i as int] != c);
                    assert(false);
                }
                assert(first_index_of(rest@, c) == i);
            } else {
                assert(i == len);
                assert(first_index_of(rest@, c) >= len);
            }
        }
        if found {
            let piece = rest.as_str().substring_char(0, i);
            proof {
                assert(piece@ =~= rest@.take(i as int));
            }
            parts.push(piece.to_owned());
            let new_rest = rest.as_str().substring_char(i + 1, len).to_owned();
            proof {
                assert(new_rest@ =~= rest@.skip(i + 1));
                assert(parts.deep_view() + split_on(new_rest@, c) == split_on(s@, c));
            }
            rest = new_rest;
        } else {
            parts.push(rest);
            proof {
                assert(parts.deep_view() == split_on(s@, c));
            }
            return parts;
        }
    }
}

/// Whether `p` occurs as a substring of `s`.
pub fn contains_sub_exec(s: &str, p: &str) -> (r: bool)
    ensures
        r == contains_sub(s@, p@),
{
    let s_len = s.unicode_len();
    let p_len = p.unicode_len();
    if p_len > s_len {
        return false;
    }
    if p_len == 0 {
        proof {
            assert(s@.subrange(0, 0 + p@.len() as int) =~= p@);
        }
        return true;
    }
    let mut k: usize = 0;
    while k <= s_len - p_len
        invariant
            1 <= p_len <= s_len,
            s_len == s@.len(),
            p_len == p@.len(),
            k <= s_len - p_len + 1,
            forall|k0: int| 0 <= k0 < k ==> #[trigger] s@.subrange(k0, k0 + p@.len()) != p@,
        decreases s_len - p_len - k + 1,
    {
        let mut j: usize = 0;
        let mut diff = false;
        while j < p_len && !diff
            invariant
                j <= p_len,
                k + p_len <= s_len,
                s_len == s@.len(),
                p_len == p@.len(),
                diff ==> s@.subrange(k as int, k + p@.len()) != p@,
                !diff ==> forall|j0: int| 0 <= j0 < j ==> s@[k + j0] == p@[j0],
            decreases p_len - j + (if diff { 0int } else { 1int }),
        {
            if s.get_char(k + j) != p.get_char(j) {
                proof {
                    assert(s@.subrange(k as int, k + p@.len())[j as int] != p@[j as int]);
                }
                diff = true;
            } else {
                j = j + 1;
            }
        }
        if !diff {
            proof {
                assert(s@.subrange(k as int, k + p@.len()) =~= p@);
            }
            return true;
        }
        k = k + 1;
    }
    proof {
        assert(forall|k0: int|
            0 <= k0 && k0 + p@.len() <= s@.len() ==> #[trigger] s@.subrange(k0, k0 + p@.len())
                != p@);
    }
    false
}

/// The suffix of `s` after the last occurrence of `c`.
pub fn after_last_exec(s: &str, c: char) -> (r: String)
    ensures
        r@ == after_last(s@, c),
{
    let len = s.unicode_len();
    let mut i: usize = len;
    while i > 0
        invariant
            i <= len,
            len == s@.len(),
            forall|j: int| i <= j < len ==> s@[j] != c,
        decreases i,
    {
        if s.get_char(i - 1) == c {
            let r = s.substring_char(i, len).to_owned();
            proof {
                lemma_after_last_at(s@, c, i - 1);
                assert(r@ =~= s@.skip(i as int));
            }
            return r;
        }
        i = i - 1;
    }
    let r = s.to_owned();
    proof {
        lemma_after_last_absent(s@, c);
    }
    r
}

proof fn lemma_after_last_at(s: Seq<char>, c: char, i: int)
    requires
        0 <= i < s.len(),
        s[i] == c,
        forall|j: int| i < j < s.len() ==> s[j] != c,
    ensures
        after_last(s, c) =~= s.skip(i + 1),
    decreases s.len(),
{
    if i == s.len() - 1 {
    } else {
        lemma_after_last_at(s.drop_last(), c, i);
        assert(s.drop_last().skip(i + 1).push(s.last()) =~= s.skip(i + 1));
    }
}

proof fn lemma_after_last_absent(s: Seq<char>, c: char)
    requires
        forall|j: int| 0 <= j < s.len() ==> s[j] != c,
    ensures
        after_last(s, c) =~= s,
    decreases s.len(),
{
    if s.len() > 0 {
        lemma_after_last_absent(s.drop_last(), c);
    }
}

/// Whether `s` starts with the prefix `p`.
pub fn starts_with_exec(s: &str, p: &str) -> (r: bool)
    ensures
        r == (s@.len() >= p@.len() && s@.take(p@.len() as int) == p@),
{
    let s_len = s.unicode_len();
    let p_len = p.unicode_len();
    if p_len > s_len {
        return false;
    }
    let mut j: usize = 0;
    while j < p_len
        invariant
            j <= p_len,
            p_len <= s_len,
            s_len == s@.len(),
            p_len == p@.len(),
            forall|j0: int| 0 <= j0 < j ==> s@[j0] == p@[j0],
        decreases p_len - j,
    {
        if s.get_char(j) != p.get_char(j) {
            proof {
                assert(s@.take(p@.len() as int)[j as int] != p@[j as int]);
            }
            return false;
        }
        j = j + 1;
    }
    proof {
        assert(s@.take(p@.len() as int) =~= p@);
    }
    true
}

} // verus!

verus! {

/// Whether two strings hold the same characters.
pub fn str_eq(a: &str, b: &str) -> (r: bool)
    ensures
        r == (a@ == b@),
{
    let a_len = a.unicode_len();
    let b_len = b.unicode_len();
    if a_len != b_len {
        return false;
    }
    let mut i: usize = 0;
    while i < a_len
        invariant
            i <= a_len,
            a_len == a@.len(),
            a_len == b@.len(),
            forall|t: int| 0 <= t < i ==> a@[t] == b@[t],
        decreases a_len - i,
    {
        if a.get_char(i) != b.get_char(i) {
            return false;
        }
        i = i + 1;
    }
    proof {
        assert(a@ =~= b@);
    }
    true
}

} // verus!
