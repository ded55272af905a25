//! Character- and string-level building blocks shared by both header
//! grammars: whitespace trimming, ASCII lower-casing, splitting on a
//! separator, and decimal conversion for `Max-Age` values.

use vstd::prelude::*;

verus! {

/// ASCII whitespace, the set removed from the ends of a token.
pub open spec fn is_space(c: char) -> bool {
    c == ' ' || c == '\t' || c == '\n' || c == '\r' || c == '\u{000B}' || c == '\u{000C}'
}

/// ASCII lower-casing of one character; everything outside `'A'..='Z'`
/// is kept as it is.
pub open spec fn lower_char(c: char) -> char {
    match c {
        'A' => 'a',
        'B' => 'b',
        'C' => 'c',
        'D' => 'd',
        'E' => 'e',
        'F' => 'f',
        'G' => 'g',
        'H' => 'h',
        'I' => 'i',
        'J' => 'j',
        'K' => 'k',
        'L' => 'l',
        'M' => 'm',
        'N' => 'n',
        'O' => 'o',
        'P' => 'p',
        'Q' => 'q',
        'R' => 'r',
        'S' => 's',
        'T' => 't',
        'U' => 'u',
        'V' => 'v',
        'W' => 'w',
        'X' => 'x',
        'Y' => 'y',
        'Z' => 'z',
        _ => c,
    }
}

/// `s` nowhere contains the character `c`.
pub open spec fn no_char(s: Seq<char>, c: char) -> bool {
    forall|i: int| 0 <= i < s.len() ==> s[i] != c
}

/// ASCII lower-casing of a whole character sequence.
pub open spec fn lower(s: Seq<char>) -> Seq<char> {
    s.map_values(|c: char| lower_char(c))
}

/// Lower-casing changes no character into or out of the whitespace set,
/// and never produces `';'` or `'='`.
pub broadcast proof fn lemma_lower_char_shape(c: char)
    ensures
        #![trigger lower_char(c)]
        is_space(lower_char(c)) == is_space(c),
        (lower_char(c) == ';') == (c == ';'),
        (lower_char(c) == '=') == (c == '='),
        lower_char(lower_char(c)) == lower_char(c),
{
}

pub proof fn lemma_lower_len(s: Seq<char>)
    ensures
        lower(s).len() == s.len(),
        forall|i: int| 0 <= i < s.len() ==> lower(s)[i] == lower_char(s[i]),
{
}

pub proof fn lemma_lower_idempotent(s: Seq<char>)
    ensures
        lower(lower(s)) == lower(s),
{
    broadcast use lemma_lower_char_shape;

    assert(lower(lower(s)) =~= lower(s));
}

pub proof fn lemma_lower_distributes(a: Seq<char>, b: Seq<char>)
    ensures
        lower(a + b) == lower(a) + lower(b),
{
    assert(lower(a + b) =~= lower(a) + lower(b));
}

/// Index of the first occurrence of `c` in `s`, if any.
pub open spec fn find_first(s: Seq<char>, c: char) -> Option<int>
    decreases s.len(),
{
    if s.len() == 0 {
        None
    } else if s[0] == c {
        Some(0int)
    } else {
        match find_first(s.drop_first(), c) {
            Some(i) => Some(i + 1),
            None => None,
        }
    }
}

pub proof fn lemma_find_first(s: Seq<char>, c: char)
    ensures
        match find_first(s, c) {
            Some(i) => 0 <= i < s.len() && s[i] == c && (forall|j: int|
                0 <= j < i ==> s[j] != c),
            None => forall|j: int| 0 <= j < s.len() ==> s[j] != c,
        },
    decreases s.len(),
{
    if s.len() > 0 && s[0] != c {
        lemma_find_first(s.drop_first(), c);
        match find_first(s.drop_first(), c) {
            Some(i) => {
                assert(s.drop_first()[i] == s[i + 1]);
                assert forall|j: int| 0 <= j < i + 1 implies s[j] != c by {
                    if j > 0 {
                        assert(s.drop_first()[j - 1] != c);
                    }
                }
            },
            None => {
                assert forall|j: int| 0 <= j < s.len() implies s[j] != c by {
                    if j > 0 {
                        assert(s.drop_first()[j - 1] != c);
                    }
                }
            },
        }
    }
}

pub proof fn lemma_find_first_at(s: Seq<char>, c: char, i: int)
    requires
        0 <= i < s.len(),
        s[i] == c,
        forall|j: int| 0 <= j < i ==> s[j] != c,
    ensures
        find_first(s, c) == Some(i),
    decreases s.len(),
{
    if i > 0 {
        lemma_find_first_at(s.drop_first(), c, i - 1);
    }
}

pub proof fn lemma_find_first_none(s: Seq<char>, c: char)
    requires
        forall|j: int| 0 <= j < s.len() ==> s[j] != c,
    ensures
        find_first(s, c) is None,
    decreases s.len(),
{
    if s.len() > 0 {
        lemma_find_first_none(s.drop_first(), c);
    }
}

/// Splitting on a separator, as `str::split` does it: an empty input
/// yields one empty segment, and `n` separators yield `n + 1` segments.
pub open spec fn split_on(s: Seq<char>, sep: char) -> Seq<Seq<char>>
    decreases s.len(),
{
    if s.len() == 0 {
        seq![Seq::<char>::empty()]
    } else if s[0] == sep {
        seq![Seq::<char>::empty()] + split_on(s.drop_first(), sep)
    } else {
        let rest = split_on(s.drop_first(), sep);
        seq![seq![s[0]] + rest[0]] + rest.subrange(1, rest.len() as int)
    }
}

pub proof fn lemma_split_len(s: Seq<char>, sep: char)
    ensures
        split_on(s, sep).len() >= 1,
    decreases s.len(),
{
    if s.len() > 0 {
        lemma_split_len(s.drop_first(), sep);
    }
}

/// A string without the separator splits into exactly itself.
pub proof fn lemma_split_no_sep(s: Seq<char>, sep: char)
    requires
        forall|i: int| 0 <= i < s.len() ==> s[i] != sep,
    ensures
        split_on(s, sep) == seq![s],
    decreases s.len(),
{
    if s.len() == 0 {
        assert(s =~= Seq::<char>::empty());
    } else {
        assert forall|j: int|
            0 <= j < s.drop_first().len() implies s.drop_first()[j] != sep by {
            assert(s.drop_first()[j] == s[j + 1]);
        }
        lemma_split_no_sep(s.drop_first(), sep);
        lemma_split_len(s.drop_first(), sep);
        assert(seq![s[0]] + s.drop_first() =~= s);
        assert(split_on(s, sep) =~= seq![s]);
    }
}

/// Splitting cuts exactly at each separator.
pub proof fn lemma_split_concat(s1: Seq<char>, s2: Seq<char>, sep: char)
    ensures
        split_on(s1 + seq![sep] + s2, sep) == split_on(s1, sep) + split_on(s2, sep),
    decreases s1.len(),
{
    let t = s1 + seq![sep] + s2;
    if s1.len() == 0 {
        assert(t[0] == sep);
        assert(t.drop_first() =~= s2);
        assert(split_on(t, sep) =~= split_on(s1, sep) + split_on(s2, sep));
    } else {
        assert(t[0] == s1[0]);
        assert(t.drop_first() =~= s1.drop_first() + seq![sep] + s2);
        lemma_split_concat(s1.drop_first(), s2, sep);
        lemma_split_len(s1.drop_first(), sep);
        let rest_t = split_on(t.drop_first(), sep);
        let rest_1 = split_on(s1.drop_first(), sep);
        assert(rest_t == rest_1 + split_on(s2, sep));
        assert(rest_t[0] == rest_1[0]);
        if s1[0] == sep {
            assert(split_on(t, sep) =~= split_on(s1, sep) + split_on(s2, sep));
        } else {
            assert(rest_t.subrange(1, rest_t.len() as int) =~= rest_1.subrange(
                1,
                rest_1.len() as int,
            ) + split_on(s2, sep));
            assert(split_on(t, sep) =~= split_on(s1, sep) + split_on(s2, sep));
        }
    }
}

/// Splitting at the first separator: everything before it is the first
/// segment, and the rest splits on its own.
pub proof fn lemma_split_first_sep(s: Seq<char>, sep: char, i: int)
    requires
        0 <= i < s.len(),
        s[i] == sep,
        forall|j: int| 0 <= j < i ==> s[j] != sep,
    ensures
        split_on(s, sep) == seq![s.take(i)] + split_on(s.skip(i + 1), sep),
{
    assert(s =~= s.take(i) + seq![sep] + s.skip(i + 1));
    lemma_split_concat(s.take(i), s.skip(i + 1), sep);
    lemma_split_no_sep(s.take(i), sep);
}

/// No segment produced by splitting contains the separator.
pub proof fn lemma_split_segments_free(s: Seq<char>, sep: char)
    ensures
        forall|k: int, i: int|
            0 <= k < split_on(s, sep).len() && 0 <= i < split_on(s, sep)[k].len()
                ==> split_on(s, sep)[k][i] != sep,
    decreases s.len(),
{
    if s.len() > 0 {
        lemma_split_segments_free(s.drop_first(), sep);
        lemma_split_len(s.drop_first(), sep);
        let r = split_on(s, sep);
        let rest = split_on(s.drop_first(), sep);
        if s[0] == sep {
            assert forall|k: int, i: int|
                0 <= k < r.len() && 0 <= i < r[k].len() implies r[k][i] != sep by {
                if k > 0 {
                    assert(r[k] == rest[k - 1]);
                }
            }
        } else {
            assert forall|k: int, i: int|
                0 <= k < r.len() && 0 <= i < r[k].len() implies r[k][i] != sep by {
                if k == 0 {
                    assert(r[0] == seq![s[0]] + rest[0]);
                    if i > 0 {
                        assert(r[0][i] == rest[0][i - 1]);
                    }
                } else {
                    assert(r[k] == rest[k]);
                }
            }
        }
    }
}

/// Whitespace removed from the front.
pub open spec fn trim_start(s: Seq<char>) -> Seq<char>
    decreases s.len(),
{
    if s.len() > 0 && is_space(s[0]) {
        trim_start(s.drop_first())
    } else {
        s
    }
}

/// Whitespace removed from the back.
pub open spec fn trim_end(s: Seq<char>) -> Seq<char>
    decreases s.len(),
{
    if s.len() > 0 && is_space(s.last()) {
        trim_end(s.drop_last())
    } else {
        s
    }
}

/// Whitespace removed from both ends.
pub open spec fn trim(s: Seq<char>) -> Seq<char> {
    trim_end(trim_start(s))
}

pub proof fn lemma_trim_start_skip(s: Seq<char>, a: int)
    requires
        0 <= a <= s.len(),
        forall|k: int| 0 <= k < a ==> is_space(s[k]),
        a < s.len() ==> !is_space(s[a]),
    ensures
        trim_start(s) == s.skip(a),
    decreases a,
{
    if a == 0 {
        assert(s.skip(0) =~= s);
    } else {
        lemma_trim_start_skip(s.drop_first(), a - 1);
        assert(s.drop_first().skip(a - 1) =~= s.skip(a));
    }
}

pub proof fn lemma_trim_end_take(s: Seq<char>, b: int)
    requires
        0 <= b <= s.len(),
        forall|k: int| b <= k < s.len() ==> is_space(s[k]),
        b > 0 ==> !is_space(s[b - 1]),
    ensures
        trim_end(s) == s.take(b),
    decreases s.len() - b,
{
    if b == s.len() as int {
        if s.len() > 0 {
            assert(!is_space(s.last()));
        }
        assert(s.take(b) =~= s);
    } else {
        assert(is_space(s.last()));
        lemma_trim_end_take(s.drop_last(), b);
        assert(s.drop_last().take(b) =~= s.take(b));
    }
}

/// A string with no whitespace at either end trims to itself.
pub proof fn lemma_trim_identity(s: Seq<char>)
    requires
        s.len() == 0 || (!is_space(s[0]) && !is_space(s.last())),
    ensures
        trim(s) == s,
{
    lemma_trim_start_skip(s, 0);
    lemma_trim_end_take(s, s.len() as int);
}

/// Trimming keeps out any character that the input did not contain.
pub proof fn lemma_trim_keeps_missing(s: Seq<char>, c: char)
    requires
        forall|i: int| 0 <= i < s.len() ==> s[i] != c,
    ensures
        forall|i: int| 0 <= i < trim(s).len() ==> trim(s)[i] != c,
{
    lemma_trim_start_missing(s, c);
    lemma_trim_end_missing(trim_start(s), c);
}

proof fn lemma_trim_start_missing(s: Seq<char>, c: char)
    requires
        forall|i: int| 0 <= i < s.len() ==> s[i] != c,
    ensures
        forall|i: int| 0 <= i < trim_start(s).len() ==> trim_start(s)[i] != c,
    decreases s.len(),
{
    if s.len() > 0 && is_space(s[0]) {
        assert(forall|i: int|
            0 <= i < s.drop_first().len() ==> s.drop_first()[i] == s[i + 1]);
        lemma_trim_start_missing(s.drop_first(), c);
        assert forall|i: int|
            0 <= i < trim_start(s).len() implies trim_start(s)[i] != c by {
            assert(trim_start(s) == trim_start(s.drop_first()));
            assert(trim_start(s.drop_first())[i] != c);
        }
    }
}

proof fn lemma_trim_end_missing(s: Seq<char>, c: char)
    requires
        forall|i: int| 0 <= i < s.len() ==> s[i] != c,
    ensures
        forall|i: int| 0 <= i < trim_end(s).len() ==> trim_end(s)[i] != c,
    decreases s.len(),
{
    if s.len() > 0 && is_space(s.last()) {
        assert(forall|i: int|
            0 <= i < s.drop_last().len() ==> s.drop_last()[i] == s[i]);
        lemma_trim_end_missing(s.drop_last(), c);
        assert forall|i: int|
            0 <= i < trim_end(s).len() implies trim_end(s)[i] != c by {
            assert(trim_end(s) == trim_end(s.drop_last()));
            assert(trim_end(s.drop_last())[i] != c);
        }
    }
}

/// A non-empty trimmed string has no whitespace at either end.
pub proof fn lemma_trim_shape(s: Seq<char>)
    ensures
        trim(s).len() > 0 ==> !is_space(trim(s)[0]) && !is_space(trim(s).last()),
{
    lemma_trim_start_shape(s);
    lemma_trim_end_shape(trim_start(s));
}

proof fn lemma_trim_start_shape(s: Seq<char>)
    ensures
        trim_start(s).len() > 0 ==> !is_space(trim_start(s)[0]),
    decreases s.len(),
{
    if s.len() > 0 && is_space(s[0]) {
        lemma_trim_start_shape(s.drop_first());
    }
}

proof fn lemma_trim_end_shape(s: Seq<char>)
    ensures
        trim_end(s).len() > 0 ==> !is_space(trim_end(s).last()),
        trim_end(s).len() > 0 ==> trim_end(s)[0] == s[0],
    decreases s.len(),
{
    if s.len() > 0 && is_space(s.last()) {
        lemma_trim_end_shape(s.drop_last());
    }
}

/// Equality of two string slices, decided character by character.
pub fn str_eq(a: &str, b: &str) -> (r: bool)
    ensures
        r == (a@ == b@),
{
    let na = a.unicode_len();
    let nb = b.unicode_len();
    if na != nb {
        return false;
    }
    let mut i: usize = 0;
    while i < na
        invariant
            na == a@.len(),
            na == b@.len(),
            0 <= i <= na,
            forall|j: int| 0 <= j < i ==> a@[j] == b@[j],
        decreases na - i,
    {
        if a.get_char(i) != b.get_char(i) {
            return false;
        }
        i += 1;
    }
    proof {
        assert(a@ =~= b@);
    }
    true
}

/// Whether `p` is a prefix of `s`, decided character by character.
pub fn starts_with(s: &str, p: &str) -> (r: bool)
    ensures
        r == p@.is_prefix_of(s@),
{
    let ns = s.unicode_len();
    let np = p.unicode_len();
    if np > ns {
        proof {
            assert(!p@.is_prefix_of(s@));
        }
        return false;
    }
    let mut i: usize = 0;
    while i < np
        invariant
            ns == s@.len(),
            np == p@.len(),
            np <= ns,
            0 <= i <= np,
            forall|j: int| 0 <= j < i ==> s@[j] == p@[j],
        decreases np - i,
    {
        if s.get_char(i) != p.get_char(i) {
            proof {
                assert(s@.subrange(0, np as int)[i as int] != p@[i as int]);
            }
            return false;
        }
        i += 1;
    }
    proof {
        assert(p@ =~= s@.subrange(0, np as int));
    }
    true
}

/// Whitespace test for one character.
pub fn is_space_char(c: char) -> (r: bool)
    ensures
        r == is_space(c),
{
    c == ' ' || c == '\t' || c == '\n' || c == '\r' || c == '\u{000B}' || c == '\u{000C}'
}

/// First occurrence of `c` in `s`.
pub fn find_char(s: &str, c: char) -> (r: Option<usize>)
    ensures
        match r {
            Some(i) => find_first(s@, c) == Some(i as int),
            None => find_first(s@, c) is None,
        },
{
    let n = s.unicode_len();
    let mut i: usize = 0;
    while i < n
        invariant
            n == s@.len(),
            0 <= i <= n,
            forall|j: int| 0 <= j < i ==> s@[j] != c,
        decreases n - i,
    {
        if s.get_char(i) == c {
            proof {
                lemma_find_first_at(s@, c, i as int);
            }
            return Some(i);
        }
        i += 1;
    }
    proof {
        lemma_find_first_none(s@, c);
    }
    None
}

/// Splits `s` on `sep` into owned segments.
pub fn split_str(s: &str, sep: char) -> (r: Vec<String>)
    ensures
        r.deep_view() == split_on(s@, sep),
{
    let n = s.unicode_len();
    let mut r: Vec<String> = Vec::new();
    let mut start: usize = 0;
    let mut i: usize = 0;
    proof {
        assert(s@.skip(0) =~= s@);
        assert(r.deep_view() + split_on(s@, sep) =~= split_on(s@, sep));
    }
    while i < n
        invariant
            n == s@.len(),
            0 <= start <= i <= n,
            forall|k: int| start <= k < i ==> s@[k] != sep,
            split_on(s@, sep) == r.deep_view() + split_on(s@.skip(start as int), sep),
        decreases n - i,
    {
        if s.get_char(i) == sep {
            let ghost old_r = r.deep_view();
            let piece = s.substring_char(start, i).to_owned();
            r.push(piece);
            proof {
                let tail = s@.skip(start as int);
                assert(tail[i - start as int] == sep);
                assert(forall|j: int|
                    0 <= j < i - start as int ==> tail[j] == s@[start as int + j] && tail[j]
                        != sep);
                lemma_split_first_sep(tail, sep, i - start as int);
                assert(tail.take(i - start as int) =~= s@.subrange(start as int, i as int));
                assert(tail.skip(i - start as int + 1) =~= s@.skip(i as int + 1));
                assert(r.deep_view() =~= old_r.push(piece@));
                assert(r.deep_view() + split_on(s@.skip(i as int + 1), sep) =~= old_r + (seq![
                    piece@,
                ] + split_on(s@.skip(i as int + 1), sep)));
            }
            start = i + 1;
        }
        i += 1;
    }
    let ghost old_r = r.deep_view();
    let last = s.substring_char(start, n).to_owned();
    r.push(last);
    proof {
        let tail = s@.skip(start as int);
        assert(forall|j: int| 0 <= j < tail.len() ==> tail[j] == s@[start as int + j]);
        lemma_split_no_sep(tail, sep);
        assert(last@ =~= tail);
        assert(r.deep_view() =~= old_r.push(last@));
        assert(r.deep_view() =~= old_r + seq![tail]);
    }
    r
}

/// Copy of `s` with ASCII whitespace removed from both ends.
pub fn trim_str(s: &str) -> (r: String)
    ensures
        r@ == trim(s@),
{
    let n = s.unicode_len();
    let mut a: usize = 0;
    while a < n && is_space_char(s.get_char(a))
        invariant
            n == s@.len(),
            0 <= a <= n,
            forall|k: int| 0 <= k < a ==> is_space(s@[k]),
        decreases n - a,
    {
        a += 1;
    }
    let mut b: usize = n;
    while b > a && is_space_char(s.get_char(b - 1))
        invariant
            n == s@.len(),
            a <= b <= n,
            forall|k: int| b <= k < n ==> is_space(s@[k]),
        decreases b,
    {
        b -= 1;
    }
    let piece = s.substring_char(a, b);
    proof {
        lemma_trim_start_skip(s@, a as int);
        let tail = s@.skip(a as int);
        assert(forall|j: int| 0 <= j < tail.len() ==> tail[j] == s@[a as int + j]);
        lemma_trim_end_take(tail, b - a as int);
        assert(tail.take(b - a as int) =~= s@.subrange(a as int, b as int));
    }
    piece.to_owned()
}

/// Appends the lower-cased form of `s[i]` to `out`.
fn push_lower(out: &mut String, s: &str, i: usize)
    requires
        i < s@.len(),
        i < usize::MAX,
    ensures
        final(out)@ == old(out)@ + seq![lower_char(s@[i as int])],
{
    let c = s.get_char(i);
    match c {
        'A' => {
            proof { reveal_strlit("a"); assert("a"@ =~= seq!['a']); }
            out.append("a");
        },
        'B' => {
            proof { reveal_strlit("b"); assert("b"@ =~= seq!['b']); }
            out.append("b");
        },
        'C' => {
            proof { reveal_strlit("c"); assert("c"@ =~= seq!['c']); }
            out.append("c");
        },
        'D' => {
            proof { reveal_strlit("d"); assert("d"@ =~= seq!['d']); }
            out.append("d");
        },
        'E' => {
            proof { reveal_strlit("e"); assert("e"@ =~= seq!['e']); }
            out.append("e");
        },
        'F' => {
            proof { reveal_strlit("f"); assert("f"@ =~= seq!['f']); }
            out.append("f");
        },
        'G' => {
            proof { reveal_strlit("g"); assert("g"@ =~= seq!['g']); }
            out.append("g");
        },
        'H' => {
            proof { reveal_strlit("h"); assert("h"@ =~= seq!['h']); }
            out.append("h");
        },
        'I' => {
            proof { reveal_strlit("i"); assert("i"@ =~= seq!['i']); }
            out.append("i");
        },
        'J' => {
            proof { reveal_strlit("j"); assert("j"@ =~= seq!['j']); }
            out.append("j");
        },
        'K' => {
            proof { reveal_strlit("k"); assert("k"@ =~= seq!['k']); }
            out.append("k");
        },
        'L' => {
            proof { reveal_strlit("l"); assert("l"@ =~= seq!['l']); }
            out.append("l");
        },
        'M' => {
            proof { reveal_strlit("m"); assert("m"@ =~= seq!['m']); }
            out.append("m");
        },
        'N' => {
            proof { reveal_strlit("n"); assert("n"@ =~= seq!['n']); }
            out.append("n");
        },
        'O' => {
            proof { reveal_strlit("o"); assert("o"@ =~= seq!['o']); }
            out.append("o");
        },
        'P' => {
            proof { reveal_strlit("p"); assert("p"@ =~= seq!['p']); }
            out.append("p");
        },
        'Q' => {
            proof { reveal_strlit("q"); assert("q"@ =~= seq!['q']); }
            out.append("q");
        },
        'R' => {
            proof { reveal_strlit("r"); assert("r"@ =~= seq!['r']); }
            out.append("r");
        },
        'S' => {
            proof { reveal_strlit("s"); assert("s"@ =~= seq!['s']); }
            out.append("s");
        },
        'T' => {
            proof { reveal_strlit("t"); assert("t"@ =~= seq!['t']); }
            out.append("t");
        },
        'U' => {
            proof { reveal_strlit("u"); assert("u"@ =~= seq!['u']); }
            out.append("u");
        },
        'V' => {
            proof { reveal_strlit("v"); assert("v"@ =~= seq!['v']); }
            out.append("v");
        },
        'W' => {
            proof { reveal_strlit("w"); assert("w"@ =~= seq!['w']); }
            out.append("w");
        },
        'X' => {
            proof { reveal_strlit("x"); assert("x"@ =~= seq!['x']); }
            out.append("x");
        },
        'Y' => {
            proof { reveal_strlit("y"); assert("y"@ =~= seq!['y']); }
            out.append("y");
        },
        'Z' => {
            proof { reveal_strlit("z"); assert("z"@ =~= seq!['z']); }
            out.append("z");
        },
        _ => {
            let piece = s.substring_char(i, i + 1);
            proof {
                assert(s@.subrange(i as int, i as int + 1) =~= seq![s@[i as int]]);
            }
            out.append(piece);
        },
    }
}

/// ASCII lower-cased copy of `s`.
pub fn lower_str(s: &str) -> (r: String)
    ensures
        r@ == lower(s@),
{
    let n = s.unicode_len();
    let mut out = String::new();
    let mut i: usize = 0;
    while i < n
        invariant
            n == s@.len(),
            0 <= i <= n,
            out@ == lower(s@.take(i as int)),
        decreases n - i,
    {
        push_lower(&mut out, s, i);
        proof {
            assert(lower(s@.take(i as int + 1)) =~= lower(s@.take(i as int)) + seq![
                lower_char(s@[i as int]),
            ]);
        }
        i += 1;
    }
    proof {
        assert(s@.take(n as int) =~= s@);
    }
    out
}

/// Numeric value of a decimal digit; 10 for anything else.
pub open spec fn digit_val(c: char) -> int {
    match c {
        '0' => 0,
        '1' => 1,
        '2' => 2,
        '3' => 3,
        '4' => 4,
        '5' => 5,
        '6' => 6,
        '7' => 7,
        '8' => 8,
        '9' => 9,
        _ => 10,
    }
}

pub open spec fn is_digit(c: char) -> bool {
    digit_val(c) < 10
}

/// The decimal digit for a value in `0..=9`.
pub open spec fn digit_char(d: int) -> char {
    if d == 0 {
        '0'
    } else if d == 1 {
        '1'
    } else if d == 2 {
        '2'
    } else if d == 3 {
        '3'
    } else if d == 4 {
        '4'
    } else if d == 5 {
        '5'
    } else if d == 6 {
        '6'
    } else if d == 7 {
        '7'
    } else if d == 8 {
        '8'
    } else {
        '9'
    }
}

/// Value of a digit string read most-significant first.
pub open spec fn digits_val(s: Seq<char>) -> int
    decreases s.len(),
{
    if s.len() == 0 {
        0
    } else {
        digits_val(s.drop_last()) * 10 + digit_val(s.last())
    }
}

pub open spec fn all_digits(s: Seq<char>) -> bool {
    forall|i: int| 0 <= i < s.len() ==> is_digit(s[i])
}

/// Reading a decimal integer as `str::parse::<i64>` does: an optional
/// `'+'` or `'-'` sign, then one or more digits; anything else, or a
/// value outside the `i64` range, fails.
pub open spec fn spec_parse_i64(s: Seq<char>) -> Option<i64> {
    let ds = if s.len() > 0 && (s[0] == '-' || s[0] == '+') {
        s.drop_first()
    } else {
        s
    };
    let v = if s.len() > 0 && s[0] == '-' {
        -digits_val(ds)
    } else {
        digits_val(ds)
    };
    if ds.len() > 0 && all_digits(ds) && i64::MIN <= v <= i64::MAX {
        Some(v as i64)
    } else {
        None
    }
}

pub proof fn lemma_digits_val_bounds(s: Seq<char>)
    requires
        all_digits(s),
    ensures
        digits_val(s) >= 0,
        s.len() > 0 ==> digits_val(s) >= digits_val(s.drop_last()),
    decreases s.len(),
{
    if s.len() > 0 {
        assert(forall|i: int|
            0 <= i < s.drop_last().len() ==> s.drop_last()[i] == s[i]);
        lemma_digits_val_bounds(s.drop_last());
        let p = digits_val(s.drop_last());
        assert(p * 10 >= p) by (nonlinear_arith)
            requires
                p >= 0,
        ;
    }
}

fn digit_of(c: char) -> (d: u64)
    ensures
        d as int == digit_val(c),
{
    match c {
        '0' => 0,
        '1' => 1,
        '2' => 2,
        '3' => 3,
        '4' => 4,
        '5' => 5,
        '6' => 6,
        '7' => 7,
        '8' => 8,
        '9' => 9,
        _ => 10,
    }
}

/// Reads a decimal `i64` from `s`, exactly as `spec_parse_i64` says.
#[verifier::loop_isolation(false)]
pub fn parse_i64(s: &str) -> (r: Option<i64>)
    ensures
        r == spec_parse_i64(s@),
{
    let n = s.unicode_len();
    if n == 0 {
        return None;
    }
    let c0 = s.get_char(0);
    let neg = c0 == '-';
    let start: usize = if c0 == '-' || c0 == '+' {
        1
    } else {
        0
    };
    let ghost ds = if c0 == '-' || c0 == '+' {
        s@.drop_first()
    } else {
        s@
    };
    proof {
        assert(ds =~= s@.skip(start as int));
    }
    if start == n {
        return None;
    }
    let limit: u64 = if neg {
        9223372036854775808
    } else {
        9223372036854775807
    };
    let mut mag: u64 = 0;
    let mut too_big = false;
    let mut i: usize = start;
    while i < n
        invariant
            n == s@.len(),
            start <= i <= n,
            ds == s@.skip(start as int),
            limit == (if neg { 9223372036854775808u64 } else { 9223372036854775807u64 }),
            forall|k: int| start <= k < i ==> is_digit(s@[k]),
            !too_big ==> mag as int == digits_val(s@.subrange(start as int, i as int)) && mag
                <= limit,
            too_big ==> digits_val(s@.subrange(start as int, i as int)) > limit as int,
        decreases n - i,
    {
        let c = s.get_char(i);
        let d = digit_of(c);
        if d >= 10 {
            proof {
                assert(ds[i - start as int] == s@[i as int]);
                assert(!all_digits(ds));
                if c0 == '-' || c0 == '+' {
                    assert(ds == s@.drop_first());
                } else {
                    assert(ds == s@);
                }
            }
            return None;
        }
        let ghost pre = s@.subrange(start as int, i as int);
        let ghost post = s@.subrange(start as int, i as int + 1);
        proof {
            assert(post.drop_last() =~= pre);
            assert(post.last() == s@[i as int]);
            assert(forall|k: int| 0 <= k < post.len() ==> post[k] == s@[start as int + k]);
            assert(all_digits(post));
        }
        if too_big {
            proof {
                lemma_digits_val_bounds(post);
            }
        } else {
            if mag > (limit - d) / 10 {
                proof {
                    let q = ((limit - d) / 10) as int;
                    let x = (limit - d) as int;
                    vstd::arithmetic::div_mod::lemma_fundamental_div_mod(x, 10);
                    assert(x == 10 * q + x % 10);
                    assert(0 <= x % 10 < 10);
                    assert(mag as int * 10 >= (q + 1) * 10) by (nonlinear_arith)
                        requires
                            mag as int >= q + 1,
                    ;
                    assert(digits_val(post) == mag as int * 10 + d);
                    assert(digits_val(post) > limit as int);
                }
                too_big = true;
            } else {
                proof {
                    let q = ((limit - d) / 10) as int;
                    let x = (limit - d) as int;
                    vstd::arithmetic::div_mod::lemma_fundamental_div_mod(x, 10);
                    assert(mag as int * 10 <= q * 10) by (nonlinear_arith)
                        requires
                            mag as int <= q,
                    ;
                    assert(mag as int * 10 + d as int <= limit as int);
                }
                mag = mag * 10 + d;
            }
        }
        i += 1;
    }
    proof {
        assert(s@.subrange(start as int, n as int) =~= ds);
        assert(all_digits(ds));
        lemma_digits_val_bounds(ds);
    }
    if too_big {
        return None;
    }
    if neg {
        if mag == 9223372036854775808 {
            Some(i64::MIN)
        } else {
            Some(-(mag as i64))
        }
    } else {
        Some(mag as i64)
    }
}

/// The decimal digits of a non-negative value.
pub open spec fn dec_digits(n: int) -> Seq<char>
    decreases n,
    when n >= 0
{
    if n < 10 {
        seq![digit_char(n)]
    } else {
        dec_digits(n / 10).push(digit_char(n % 10))
    }
}

/// The decimal form of a signed value, a leading `'-'` included.
pub open spec fn i64_dec(n: int) -> Seq<char> {
    if n < 0 {
        seq!['-'] + dec_digits(-n)
    } else {
        dec_digits(n)
    }
}

pub proof fn lemma_digit_char_val(d: int)
    requires
        0 <= d < 10,
    ensures
        digit_val(digit_char(d)) == d,
        is_digit(digit_char(d)),
{
}

pub proof fn lemma_dec_digits_shape(n: int)
    requires
        n >= 0,
    ensures
        dec_digits(n).len() >= 1,
        all_digits(dec_digits(n)),
        digits_val(dec_digits(n)) == n,
    decreases n,
{
    if n < 10 {
        lemma_digit_char_val(n);
        let d = dec_digits(n);
        assert(d =~= seq![digit_char(n)]);
        assert(d.drop_last() =~= Seq::<char>::empty());
        assert(digits_val(Seq::<char>::empty()) == 0);
        assert(digits_val(d) == digit_val(digit_char(n)));
    } else {
        assert(0 <= n / 10 < n) by (nonlinear_arith)
            requires
                n >= 10,
        ;
        lemma_dec_digits_shape(n / 10);
        let d = dec_digits(n);
        assert(d.drop_last() =~= dec_digits(n / 10));
        vstd::arithmetic::div_mod::lemma_fundamental_div_mod(n, 10);
        assert(0 <= n % 10 < 10);
        lemma_digit_char_val(n % 10);
        assert(d.last() == digit_char(n % 10));
        assert(digits_val(d) == digits_val(d.drop_last()) * 10 + digit_val(d.last()));
        assert(digits_val(d) == n);
        assert(all_digits(d)) by {
            assert(forall|i: int|
                0 <= i < d.len() - 1 ==> d[i] == dec_digits(n / 10)[i]);
        }
    }
}

/// Parsing reads back exactly the value that formatting wrote.
pub proof fn lemma_i64_dec_parse(v: i64)
    ensures
        spec_parse_i64(i64_dec(v as int)) == Some(v),
{
    if v >= 0 {
        lemma_dec_digits_shape(v as int);
        let s = dec_digits(v as int);
        assert(is_digit(s[0]));
        assert(s[0] != '-' && s[0] != '+');
    } else {
        lemma_dec_digits_shape(-(v as int));
        let s = i64_dec(v as int);
        assert(s[0] == '-');
        assert(s.drop_first() =~= dec_digits(-(v as int)));
    }
}

/// Every character of a formatted integer is a digit or a leading `'-'`.
pub proof fn lemma_i64_dec_chars(v: i64)
    ensures
        forall|i: int|
            0 <= i < i64_dec(v as int).len() ==> (i64_dec(v as int)[i] == '-' || is_digit(
                i64_dec(v as int)[i],
            )),
{
    if v >= 0 {
        lemma_dec_digits_shape(v as int);
    } else {
        lemma_dec_digits_shape(-(v as int));
        let s = i64_dec(v as int);
        let d = dec_digits(-(v as int));
        assert(forall|i: int| 1 <= i < s.len() ==> s[i] == d[i - 1]);
    }
}

fn digit_str(d: u64) -> (r: &'static str)
    requires
        d < 10,
    ensures
        r@ == seq![digit_char(d as int)],
{
    match d {
        0 => {
            proof { reveal_strlit("0"); assert("0"@ =~= seq!['0']); }
            "0"
        },
        1 => {
            proof { reveal_strlit("1"); assert("1"@ =~= seq!['1']); }
            "1"
        },
        2 => {
            proof { reveal_strlit("2"); assert("2"@ =~= seq!['2']); }
            "2"
        },
        3 => {
            proof { reveal_strlit("3"); assert("3"@ =~= seq!['3']); }
            "3"
        },
        4 => {
            proof { reveal_strlit("4"); assert("4"@ =~= seq!['4']); }
            "4"
        },
        5 => {
            proof { reveal_strlit("5"); assert("5"@ =~= seq!['5']); }
            "5"
        },
        6 => {
            proof { reveal_strlit("6"); assert("6"@ =~= seq!['6']); }
            "6"
        },
        7 => {
            proof { reveal_strlit("7"); assert("7"@ =~= seq!['7']); }
            "7"
        },
        8 => {
            proof { reveal_strlit("8"); assert("8"@ =~= seq!['8']); }
            "8"
        },
        _ => {
            proof { reveal_strlit("9"); assert("9"@ =~= seq!['9']); }
            "9"
        },
    }
}

fn push_dec(out: &mut String, n: u64)
    ensures
        final(out)@ == old(out)@ + dec_digits(n as int),
    decreases n,
{
    if n >= 10 {
        proof {
            assert(0 <= n as int / 10 < n as int) by (nonlinear_arith)
                requires
                    n >= 10,
            ;
        }
        push_dec(out, n / 10);
    }
    out.append(digit_str(n % 10));
    proof {
        if n >= 10 {
            assert(dec_digits(n as int) =~= dec_digits(n as int / 10).push(
                digit_char(n as int % 10),
            ));
        }
        assert(out@ =~= old(out)@ + dec_digits(n as int));
    }
}

/// The decimal text of `v`, exactly as `i64_dec` says.
pub fn i64_to_string(v: i64) -> (r: String)
    ensures
        r@ == i64_dec(v as int),
{
    let mut out = String::new();
    if v < 0 {
        proof {
            reveal_strlit("-");
            assert("-"@ =~= seq!['-']);
        }
        out.append("-");
        let mag: u64 = ((-(v + 1)) as u64) + 1;
        proof {
            assert(mag as int == -(v as int));
        }
        push_dec(&mut out, mag);
        proof {
            assert(out@ =~= Seq::<char>::empty() + (seq!['-'] + dec_digits(mag as int)));
            assert(out@ =~= i64_dec(v as int));
        }
    } else {
        push_dec(&mut out, v as u64);
        proof {
            assert(out@ =~= dec_digits(v as int));
        }
    }
    out
}

} // verus!
