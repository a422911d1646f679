//! Character and string utilities shared by the classifier, the walker,
//! the tree builder and the query engine.
//!
//! Paths and names are ordinary Rust strings, viewed as sequences of
//! characters.  Case folding is ASCII-only: the fixed extension sets and
//! the sort rules of this library are defined over ASCII letters.

use vstd::prelude::*;
use vstd::string::StrSliceExecFns;

verus! {

/// ASCII lowercase of one character; characters outside `A..=Z` are unchanged.
pub open spec fn lower_char(c: char) -> char {
    if 'A' <= c && c <= 'Z' {
        ((c as u32) + 32) as char
    } else {
        c
    }
}

/// ASCII lowercase of a character sequence.
pub open spec fn lower_seq(s: Seq<char>) -> Seq<char> {
    s.map_values(|c: char| lower_char(c))
}

/// The scalar value of the ASCII lowercase of `c`.
pub fn lower_scalar(c: char) -> (r: u32)
    ensures
        r == lower_char(c) as u32,
{
    let u = c as u32;
    if 65 <= u && u <= 90 {
        u + 32
    } else {
        u
    }
}

/// Character equality up to ASCII case.
pub fn chars_eq_ci(a: char, b: char) -> (r: bool)
    ensures
        r == (lower_char(a) == lower_char(b)),
{
    lower_scalar(a) == lower_scalar(b)
}

/// String equality, decided character by character.
pub fn str_eq(a: &str, b: &str) -> (r: bool)
    ensures
        r == (a@ == b@),
{
    let n = a.unicode_len();
    if n != b.unicode_len() {
        return false;
    }
    let mut i: usize = 0;
    while i < n
        invariant
            n == a@.len(),
            n == b@.len(),
            0 <= i <= n,
            forall|k: int| 0 <= k < i ==> a@[k] == b@[k],
        decreases n - i,
    {
        if a.get_char(i) != b.get_char(i) {
            return false;
        }
        i = i + 1;
    }
    proof {
        assert(a@ =~= b@);
    }
    true
}

/// Lexicographic order on character sequences, by scalar value.
pub open spec fn lex_le(a: Seq<char>, b: Seq<char>) -> bool
    decreases a.len(),
{
    if a.len() == 0 {
        true
    } else if b.len() == 0 {
        false
    } else if (a[0] as u32) < (b[0] as u32) {
        true
    } else if (a[0] as u32) > (b[0] as u32) {
        false
    } else {
        lex_le(a.skip(1), b.skip(1))
    }
}

/// Case-insensitive lexicographic order: compare the ASCII-lowered sequences.
pub open spec fn ci_lex_le(a: Seq<char>, b: Seq<char>) -> bool {
    lex_le(lower_seq(a), lower_seq(b))
}

/// `lex_le` relates every pair of sequences one way or the other.
pub proof fn lemma_lex_le_total(a: Seq<char>, b: Seq<char>)
    ensures
        lex_le(a, b) || lex_le(b, a),
    decreases a.len(),
{
    if a.len() == 0 || b.len() == 0 {
    } else if (a[0] as u32) == (b[0] as u32) {
        lemma_lex_le_total(a.skip(1), b.skip(1));
    }
}

/// `lex_le` is transitive.
pub proof fn lemma_lex_le_trans(a: Seq<char>, b: Seq<char>, c: Seq<char>)
    requires
        lex_le(a, b),
        lex_le(b, c),
    ensures
        lex_le(a, c),
    decreases a.len(),
{
    if a.len() == 0 || b.len() == 0 || c.len() == 0 {
    } else if (a[0] as u32) == (b[0] as u32) && (b[0] as u32) == (c[0] as u32) {
        lemma_lex_le_trans(a.skip(1), b.skip(1), c.skip(1));
    }
}

/// Dropping the same number of equal leading characters does not change the order.
proof fn lemma_lex_le_common_prefix(a: Seq<char>, b: Seq<char>, i: int)
    requires
        0 <= i <= a.len(),
        0 <= i <= b.len(),
        forall|k: int| 0 <= k < i ==> a[k] == b[k],
    ensures
        lex_le(a, b) == lex_le(a.skip(i), b.skip(i)),
    decreases i,
{
    if i > 0 {
        assert(a[0] == b[0]);
        lemma_lex_le_common_prefix(a.skip(1), b.skip(1), i - 1);
        assert(a.skip(1).skip(i - 1) =~= a.skip(i));
        assert(b.skip(1).skip(i - 1) =~= b.skip(i));
    } else {
        assert(a.skip(0) =~= a);
        assert(b.skip(0) =~= b);
    }
}

/// Decides `lex_le` on two strings.
pub fn str_le(a: &str, b: &str) -> (r: bool)
    ensures
        r == lex_le(a@, b@),
{
    let na = a.unicode_len();
    let nb = b.unicode_len();
    let mut i: usize = 0;
    loop
        invariant
            na == a@.len(),
            nb == b@.len(),
            0 <= i <= na,
            0 <= i <= nb,
            forall|k: int| 0 <= k < i ==> a@[k] == b@[k],
        decreases na - i,
    {
        proof {
            lemma_lex_le_common_prefix(a@, b@, i as int);
        }
        if i >= na {
            return true;
        }
        if i >= nb {
            return false;
        }
        let ca = a.get_char(i);
        let cb = b.get_char(i);
        if (ca as u32) < (cb as u32) {
            return true;
        }
        if (ca as u32) > (cb as u32) {
            return false;
        }
        i = i + 1;
    }
}

/// Decides `ci_lex_le` on two strings.
pub fn str_le_ci(a: &str, b: &str) -> (r: bool)
    ensures
        r == ci_lex_le(a@, b@),
{
    let na = a.unicode_len();
    let nb = b.unicode_len();
    let mut i: usize = 0;
    loop
        invariant
            na == a@.len(),
            nb == b@.len(),
            0 <= i <= na,
            0 <= i <= nb,
            forall|k: int| 0 <= k < i ==> lower_seq(a@)[k] == lower_seq(b@)[k],
        decreases na - i,
    {
        proof {
            lemma_lex_le_common_prefix(lower_seq(a@), lower_seq(b@), i as int);
        }
        if i >= na {
            return true;
        }
        if i >= nb {
            return false;
        }
        let ca = lower_scalar(a.get_char(i));
        let cb = lower_scalar(b.get_char(i));
        proof {
            assert(lower_seq(a@)[i as int] == lower_char(a@[i as int]));
            assert(lower_seq(b@)[i as int] == lower_char(b@[i as int]));
        }
        if ca < cb {
            return true;
        }
        if ca > cb {
            return false;
        }
        i = i + 1;
    }
}

/// Whether `sub` occurs in `s` starting at position `i`.
pub open spec fn occurs_at(s: Seq<char>, sub: Seq<char>, i: int) -> bool {
    0 <= i && i + sub.len() <= s.len() && s.subrange(i, i + sub.len()) == sub
}

/// Whether `sub` occurs somewhere in `s`.
pub open spec fn contains_seq(s: Seq<char>, sub: Seq<char>) -> bool {
    exists|i: int| occurs_at(s, sub, i)
}

/// Whether `sub` occurs in `s` up to ASCII case.
pub open spec fn contains_seq_ci(s: Seq<char>, sub: Seq<char>) -> bool {
    contains_seq(lower_seq(s), lower_seq(sub))
}

/// Decides whether the ASCII-lowered `sub` occurs in the ASCII-lowered `s`.
pub fn str_contains_ci(s: &str, sub: &str) -> (r: bool)
    ensures
        r == contains_seq_ci(s@, sub@),
{
    let ns = s.unicode_len();
    let nsub = sub.unicode_len();
    if nsub > ns {
        proof {
            assert(forall|i: int| !occurs_at(lower_seq(s@), lower_seq(sub@), i));
        }
        return false;
    }
    if nsub == 0 {
        proof {
            assert(lower_seq(s@).subrange(0, 0) =~= lower_seq(sub@));
            assert(occurs_at(lower_seq(s@), lower_seq(sub@), 0));
        }
        return true;
    }
    let mut start: usize = 0;
    while start <= ns - nsub
        invariant
            ns == s@.len(),
            nsub == sub@.len(),
            0 < nsub <= ns,
            0 <= start <= ns - nsub + 1,
            forall|i: int| 0 <= i < start ==> !occurs_at(lower_seq(s@), lower_seq(sub@), i),
        decreases ns - start,
    {
        let mut j: usize = 0;
        let mut matched = true;
        while j < nsub
            invariant
                ns == s@.len(),
                nsub == sub@.len(),
                0 < nsub <= ns,
                0 <= start <= ns - nsub,
                0 <= j <= nsub,
                matched ==> forall|k: int|
                    0 <= k < j ==> lower_seq(s@)[start + k] == lower_seq(sub@)[k],
                !matched ==> !occurs_at(lower_seq(s@), lower_seq(sub@), start as int),
            decreases nsub - j,
        {
            if !chars_eq_ci(s.get_char(start + j), sub.get_char(j)) {
                matched = false;
                proof {
                    assert(lower_seq(s@)[start + j] != lower_seq(sub@)[j as int]);
                    assert(!occurs_at(lower_seq(s@), lower_seq(sub@), start as int)) by {
                        if occurs_at(lower_seq(s@), lower_seq(sub@), start as int) {
                            assert(lower_seq(s@).subrange(
                                start as int,
                                start + nsub,
                            )[j as int] == lower_seq(s@)[start + j]);
                        }
                    }
                }
                j = nsub;
            } else {
                proof {
                    assert(lower_seq(s@)[start + j] == lower_char(s@[start + j]));
                    assert(lower_seq(sub@)[j as int] == lower_char(sub@[j as int]));
                }
                j = j + 1;
            }
        }
        if matched {
            proof {
                assert(lower_seq(s@).subrange(start as int, start + nsub) =~= lower_seq(sub@));
                assert(occurs_at(lower_seq(s@), lower_seq(sub@), start as int));
            }
            return true;
        }
        start = start + 1;
    }
    proof {
        assert(forall|i: int| !occurs_at(lower_seq(s@), lower_seq(sub@), i));
    }
    false
}

/// The position of the last occurrence of `c` in `t`, if any.
pub open spec fn rfind(t: Seq<char>, c: char) -> Option<int>
    decreases t.len(),
{
    if t.len() == 0 {
        None
    } else if t.last() == c {
        Some(t.len() - 1)
    } else {
        rfind(t.drop_last(), c)
    }
}

proof fn lemma_rfind_none(t: Seq<char>, c: char)
    requires
        forall|k: int| 0 <= k < t.len() ==> t[k] != c,
    ensures
        rfind(t, c) is None,
    decreases t.len(),
{
    if t.len() > 0 {
        lemma_rfind_none(t.drop_last(), c);
    }
}

proof fn lemma_rfind_some(t: Seq<char>, c: char, i: int)
    requires
        0 <= i < t.len(),
        t[i] == c,
        forall|k: int| i < k < t.len() ==> t[k] != c,
    ensures
        rfind(t, c) == Some(i),
    decreases t.len(),
{
    if i < t.len() - 1 {
        lemma_rfind_some(t.drop_last(), c, i);
    }
}

/// Scans `s` from the end for the last occurrence of `c`.
pub fn rfind_char(s: &str, c: char) -> (r: Option<usize>)
    ensures
        match r {
            Some(i) => 0 <= i < s@.len() && rfind(s@, c) == Some(i as int),
            None => rfind(s@, c) is None,
        },
{
    let n = s.unicode_len();
    let mut i: usize = n;
    while i > 0
        invariant
            n == s@.len(),
            0 <= i <= n,
            forall|k: int| i <= k < n ==> s@[k] != c,
        decreases i,
    {
        i = i - 1;
        if s.get_char(i) == c {
            proof {
                lemma_rfind_some(s@, c, i as int);
            }
            return Some(i);
        }
    }
    proof {
        lemma_rfind_none(s@, c);
    }
    None
}

/// String equality up to ASCII case.
pub fn str_eq_ci(a: &str, b: &str) -> (r: bool)
    ensures
        r == (lower_seq(a@) == lower_seq(b@)),
{
    let n = a.unicode_len();
    if n != b.unicode_len() {
        proof {
            assert(lower_seq(a@).len() != lower_seq(b@).len());
        }
        return false;
    }
    let mut i: usize = 0;
    while i < n
        invariant
            n == a@.len(),
            n == b@.len(),
            0 <= i <= n,
            forall|k: int| 0 <= k < i ==> lower_seq(a@)[k] == lower_seq(b@)[k],
        decreases n - i,
    {
        if !chars_eq_ci(a.get_char(i), b.get_char(i)) {
            proof {
                assert(lower_seq(a@)[i as int] != lower_seq(b@)[i as int]);
            }
            return false;
        }
        proof {
            assert(lower_seq(a@)[i as int] == lower_char(a@[i as int]));
            assert(lower_seq(b@)[i as int] == lower_char(b@[i as int]));
        }
        i = i + 1;
    }
    proof {
        assert(lower_seq(a@) =~= lower_seq(b@));
    }
    true
}

/// ASCII lowering leaves a sequence without uppercase letters unchanged.
pub proof fn lemma_lower_fixed(s: Seq<char>)
    requires
        forall|i: int| 0 <= i < s.len() ==> !('A' <= #[trigger] s[i] && s[i] <= 'Z'),
    ensures
        lower_seq(s) == s,
{
    assert(lower_seq(s) =~= s);
}

/// Whether `prefix` is a prefix of `s`, comparing characters exactly.
pub fn str_starts_with(s: &str, prefix: &str) -> (r: bool)
    ensures
        r == prefix@.is_prefix_of(s@),
{
    let np = prefix.unicode_len();
    let ns = s.unicode_len();
    if np > ns {
        return false;
    }
    let mut i: usize = 0;
    while i < np
        invariant
            np == prefix@.len(),
            ns == s@.len(),
            np <= ns,
            0 <= i <= np,
            forall|k: int| 0 <= k < i ==> s@[k] == prefix@[k],
        decreases np - i,
    {
        if s.get_char(i) != prefix.get_char(i) {
            return false;
        }
        i = i + 1;
    }
    proof {
        assert(prefix@ =~= s@.subrange(0, np as int));
    }
    true
}

/// Joins a directory path and an entry name with a `/` separator.
pub fn join_path(dir: &str, name: &str) -> (r: String)
    ensures
        r@ == dir@ + seq!['/'] + name@,
{
    let mut out = dir.to_owned();
    out.append("/");
    out.append(name);
    proof {
        reveal_strlit("/");
        assert("/"@ =~= seq!['/']);
    }
    out
}

/// Joins a stem and an extension with a `.` separator.
pub fn dot_join(stem: &str, ext: &str) -> (r: String)
    ensures
        r@ == stem@ + seq!['.'] + ext@,
{
    let mut out = stem.to_owned();
    out.append(".");
    out.append(ext);
    proof {
        reveal_strlit(".");
        assert("."@ =~= seq!['.']);
    }
    out
}

/// `s` with every trailing `/` removed.
pub open spec fn strip_trailing_slashes(s: Seq<char>) -> Seq<char>
    decreases s.len(),
{
    if s.len() > 0 && s.last() == '/' {
        strip_trailing_slashes(s.drop_last())
    } else {
        s
    }
}

proof fn lemma_strip_trailing(s: Seq<char>, end: int)
    requires
        0 <= end <= s.len(),
        forall|k: int| end <= k < s.len() ==> s[k] == '/',
        end > 0 ==> s[end - 1] != '/',
    ensures
        strip_trailing_slashes(s) == s.take(end),
    decreases s.len() - end,
{
    if end < s.len() {
        lemma_strip_trailing(s.drop_last(), end);
        assert(s.drop_last().take(end) =~= s.take(end));
    } else {
        assert(s.take(end) =~= s);
    }
}

/// The final path segment: what follows the last `/` once trailing
/// slashes are stripped; `None` when nothing remains.
pub open spec fn spec_file_name(s: Seq<char>) -> Option<Seq<char>> {
    let t = strip_trailing_slashes(s);
    if t.len() == 0 {
        None
    } else {
        match rfind(t, '/') {
            Some(i) => Some(t.subrange(i + 1, t.len() as int)),
            None => Some(t),
        }
    }
}

/// Extracts the final path segment of `path`.
pub fn file_name_of(path: &str) -> (r: Option<String>)
    ensures
        match r {
            Some(name) => spec_file_name(path@) == Some(name@),
            None => spec_file_name(path@) is None,
        },
{
    let n = path.unicode_len();
    let mut end = n;
    while end > 0 && path.get_char(end - 1) == '/'
        invariant
            n == path@.len(),
            0 <= end <= n,
            forall|k: int| end <= k < n ==> path@[k] == '/',
        decreases end,
    {
        end = end - 1;
    }
    proof {
        lemma_strip_trailing(path@, end as int);
    }
    if end == 0 {
        return None;
    }
    let ghost t = path@.take(end as int);
    let mut i = end;
    while i > 0
        invariant
            n == path@.len(),
            0 < end <= n,
            t == path@.take(end as int),
            strip_trailing_slashes(path@) == t,
            0 <= i <= end,
            forall|k: int| i <= k < end ==> t[k] != '/',
        decreases i,
    {
        i = i - 1;
        if path.get_char(i) == '/' {
            proof {
                assert(t.len() == end as int);
                assert(t[i as int] == path@[i as int]);
                lemma_rfind_some(t, '/', i as int);
                assert(path@.subrange(i as int + 1, end as int) =~= t.subrange(
                    i as int + 1,
                    t.len() as int,
                ));
            }
            let seg = path.substring_char(i + 1, end);
            return Some(seg.to_owned());
        }
        proof {
            assert(t[i as int] == path@[i as int]);
        }
    }
    proof {
        lemma_rfind_none(t, '/');
        assert(path@.subrange(0, end as int) == t);
    }
    Some(path.substring_char(0, end).to_owned())
}

/// The extension of an entry name: what follows the last `.`, provided
/// the dot is not the leading character.
pub open spec fn spec_extension(name: Seq<char>) -> Option<Seq<char>> {
    match rfind(name, '.') {
        Some(i) => if i > 0 {
            Some(name.subrange(i + 1, name.len() as int))
        } else {
            None
        },
        None => None,
    }
}

/// The stem of an entry name: what precedes the extension, or the whole
/// name when there is no extension.
pub open spec fn spec_stem(name: Seq<char>) -> Seq<char> {
    match rfind(name, '.') {
        Some(i) => if i > 0 {
            name.subrange(0, i)
        } else {
            name
        },
        None => name,
    }
}

/// Splits an entry name into stem and optional extension.
pub fn split_name(name: &str) -> (r: (String, Option<String>))
    ensures
        r.0@ == spec_stem(name@),
        match r.1 {
            Some(ext) => spec_extension(name@) == Some(ext@),
            None => spec_extension(name@) is None,
        },
{
    let n = name.unicode_len();
    match rfind_char(name, '.') {
        Some(i) => {
            if i > 0 {
                let stem = name.substring_char(0, i);
                let ext = name.substring_char(i + 1, n);
                (stem.to_owned(), Some(ext.to_owned()))
            } else {
                (name.to_owned(), None)
            }
        },
        None => (name.to_owned(), None),
    }
}

} // verus!
