//! The request-side cookie map: a flat name-to-value mapping read from a
//! `Cookie` header, or from the name/value parts of `Set-Cookie` values,
//! and written back as one semicolon-joined string.

use vstd::prelude::*;

use crate::kv::{has_key, lemma_map_of_absent, lemma_map_of_index, lemma_remove_key,
    lemma_remove_key_at, lemma_map_of_len, lemma_upsert, map_of, remove_key, unique_keys, upsert};
use crate::text::{find_first, lemma_find_first, lemma_split_first_sep, lemma_split_no_sep,
    split_on, str_eq, trim, trim_str, find_char, split_str};

verus! {

/// A name/value map of cookies. Entries keep the order in which their
/// names were last written, so serialization is deterministic.
#[derive(Debug, Clone, PartialEq)]
pub struct Cookie {
    entries: Vec<(String, String)>,
}

impl View for Cookie {
    type V = Seq<(Seq<char>, Seq<char>)>;

    closed spec fn view(&self) -> Seq<(Seq<char>, Seq<char>)> {
        self.entries.deep_view()
    }
}

/// The name/value pair read from one `;`-separated segment of a `Cookie`
/// header: the text before the first `=`, trimmed, names the cookie, and
/// everything after that `=` is its value, untouched. A segment without
/// `=` is malformed.
pub open spec fn cookie_pair(seg: Seq<char>) -> Option<(Seq<char>, Seq<char>)> {
    match find_first(seg, '=') {
        Some(i) => Some((trim(seg.take(i)), seg.skip(i + 1))),
        None => None,
    }
}

/// Entries accumulated from the segments, later names overwriting
/// earlier ones; one malformed segment fails the whole parse.
pub open spec fn cookie_entries_from(
    acc: Seq<(Seq<char>, Seq<char>)>,
    segs: Seq<Seq<char>>,
) -> Option<Seq<(Seq<char>, Seq<char>)>>
    decreases segs.len(),
{
    if segs.len() == 0 {
        Some(acc)
    } else {
        match cookie_pair(segs[0]) {
            Some(p) => cookie_entries_from(upsert(acc, p.0, p.1), segs.drop_first()),
            None => None,
        }
    }
}

/// What parsing a whole `Cookie` header value yields: the entries of
/// every `;`-separated segment, or nothing at all if any segment lacks
/// an `=`.
pub open spec fn spec_parse_cookie(raw: Seq<char>) -> Option<Seq<(Seq<char>, Seq<char>)>> {
    cookie_entries_from(Seq::empty(), split_on(raw, ';'))
}

/// The name/value part of one `Set-Cookie` header value: only the text
/// before the first `;` counts, split at its first `=`, nothing trimmed.
pub open spec fn response_pair(raw: Seq<char>) -> Option<(Seq<char>, Seq<char>)> {
    let seg = split_on(raw, ';')[0];
    match find_first(seg, '=') {
        Some(i) => Some((seg.take(i), seg.skip(i + 1))),
        None => None,
    }
}

/// Entries accumulated from many `Set-Cookie` values; one value whose
/// first segment lacks an `=` fails the whole aggregate parse.
pub open spec fn response_entries_from(
    acc: Seq<(Seq<char>, Seq<char>)>,
    raws: Seq<Seq<char>>,
) -> Option<Seq<(Seq<char>, Seq<char>)>>
    decreases raws.len(),
{
    if raws.len() == 0 {
        Some(acc)
    } else {
        match response_pair(raws[0]) {
            Some(p) => response_entries_from(upsert(acc, p.0, p.1), raws.drop_first()),
            None => None,
        }
    }
}

pub open spec fn spec_parse_response(raws: Seq<Seq<char>>) -> Option<
    Seq<(Seq<char>, Seq<char>)>,
> {
    response_entries_from(Seq::empty(), raws)
}

/// One serialized pair, `name=value`.
pub open spec fn pair_text(p: (Seq<char>, Seq<char>)) -> Seq<char> {
    p.0 + seq!['='] + p.1
}

/// The serialized map: pairs joined with `;` and no added spaces.
pub open spec fn cookie_text(s: Seq<(Seq<char>, Seq<char>)>) -> Seq<char>
    decreases s.len(),
{
    if s.len() == 0 {
        Seq::empty()
    } else if s.len() == 1 {
        pair_text(s[0])
    } else {
        cookie_text(s.drop_last()) + seq![';'] + pair_text(s.last())
    }
}

impl Cookie {
    /// No two entries share a name.
    pub open spec fn wf(&self) -> bool {
        unique_keys(self@)
    }

    /// The map this cookie set stands for.
    pub open spec fn as_map(&self) -> Map<Seq<char>, Seq<char>> {
        map_of(self@)
    }

    /// An empty map.
    pub fn new() -> (r: Self)
        ensures
            r@ == Seq::<(Seq<char>, Seq<char>)>::empty(),
            r.wf(),
    {
        Cookie { entries: Vec::new() }
    }

    /// How many cookies are stored.
    pub fn len(&self) -> (r: usize)
        requires
            self.wf(),
        ensures
            r == self@.len(),
            r == self.as_map().dom().len(),
    {
        proof {
            lemma_map_of_len(self@);
        }
        self.entries.len()
    }

    pub fn is_empty(&self) -> (r: bool)
        requires
            self.wf(),
        ensures
            r == (self@.len() == 0),
    {
        self.entries.len() == 0
    }

    /// Index of the entry named `key`, if any.
    fn position(&self, key: &str) -> (r: Option<usize>)
        ensures
            match r {
                Some(i) => i < self@.len() && self@[i as int].0 == key@,
                None => forall|i: int| 0 <= i < self@.len() ==> self@[i].0 != key@,
            },
    {
        let n = self.entries.len();
        let mut i: usize = 0;
        while i < n
            invariant
                n == self.entries.len(),
                self@.len() == n,
                0 <= i <= n,
                forall|j: int| 0 <= j < i ==> self@[j].0 != key@,
            decreases n - i,
        {
            if str_eq(self.entries[i].0.as_str(), key) {
                proof {
                    assert(self@[i as int].0 == self.entries@[i as int].0@);
                }
                return Some(i);
            }
            proof {
                assert(self@[i as int].0 == self.entries@[i as int].0@);
            }
            i += 1;
        }
        None
    }

    /// Writes `value` under `key`, replacing any earlier value.
    pub fn add(&mut self, key: &str, value: &str)
        requires
            old(self).wf(),
        ensures
            final(self).wf(),
            final(self)@ == upsert(old(self)@, key@, value@),
            final(self).as_map() == old(self).as_map().insert(key@, value@),
    {
        let ghost s0 = self@;
        match self.position(key) {
            Some(i) => {
                proof {
                    lemma_remove_key_at(s0, key@, i as int);
                }
                let _ = self.entries.remove(i);
                proof {
                    assert(self@ =~= s0.remove(i as int));
                }
            },
            None => {
                proof {
                    lemma_remove_key(s0, key@);
                }
            },
        }
        let ghost s1 = self@;
        self.entries.push((key.to_owned(), value.to_owned()));
        proof {
            assert(self@ =~= s1.push((key@, value@)));
            assert(self@ == upsert(s0, key@, value@));
            lemma_upsert(s0, key@, value@);
        }
    }

    /// The value stored under `key`, if any.
    pub fn get(&self, key: &str) -> (r: Option<&str>)
        requires
            self.wf(),
        ensures
            match r {
                Some(v) => self.as_map().contains_key(key@) && v@ == self.as_map()[key@],
                None => !self.as_map().contains_key(key@),
            },
    {
        match self.position(key) {
            Some(i) => {
                proof {
                    lemma_map_of_index(self@, key@, i as int);
                    assert(self@[i as int].1 == self.entries@[i as int].1@);
                }
                Some(self.entries[i].1.as_str())
            },
            None => {
                proof {
                    lemma_map_of_absent(self@, key@);
                }
                None
            },
        }
    }

    /// Both values, or nothing if either name is absent.
    pub fn get2(&self, key1: &str, key2: &str) -> (r: Option<(&str, &str)>)
        requires
            self.wf(),
        ensures
            match r {
                Some(p) => self.as_map().contains_key(key1@) && self.as_map().contains_key(
                    key2@,
                ) && p.0@ == self.as_map()[key1@] && p.1@ == self.as_map()[key2@],
                None => !self.as_map().contains_key(key1@) || !self.as_map().contains_key(
                    key2@,
                ),
            },
    {
        match self.get(key1) {
            Some(v1) => match self.get(key2) {
                Some(v2) => Some((v1, v2)),
                None => None,
            },
            None => None,
        }
    }

    /// Removes the entry named `key` and hands its value back.
    pub fn take(&mut self, key: &str) -> (r: Option<String>)
        requires
            old(self).wf(),
        ensures
            final(self).wf(),
            final(self)@ == remove_key(old(self)@, key@),
            final(self).as_map() == old(self).as_map().remove(key@),
            match r {
                Some(v) => old(self).as_map().contains_key(key@)
                    && v@ == old(self).as_map()[key@],
                None => !old(self).as_map().contains_key(key@),
            },
    {
        let ghost s0 = self@;
        proof {
            lemma_remove_key(s0, key@);
        }
        match self.position(key) {
            Some(i) => {
                proof {
                    lemma_remove_key_at(s0, key@, i as int);
                    lemma_map_of_index(s0, key@, i as int);
                    assert(s0[i as int].1 == self.entries@[i as int].1@);
                }
                let entry = self.entries.remove(i);
                proof {
                    assert(self@ =~= s0.remove(i as int));
                }
                Some(entry.1)
            },
            None => {
                proof {
                    lemma_map_of_absent(s0, key@);
                    assert(self@ =~= remove_key(s0, key@));
                }
                None
            },
        }
    }

    /// The entries of `pairs` written in order, later names overwriting
    /// earlier ones.
    pub fn from_pairs(pairs: Vec<(String, String)>) -> (r: Self)
        ensures
            r.wf(),
            cookie_upserts(Seq::empty(), pairs.deep_view()) == r@,
    {
        let mut c = Cookie::new();
        let n = pairs.len();
        let mut i: usize = 0;
        proof {
            assert(pairs.deep_view().skip(0) =~= pairs.deep_view());
        }
        while i < n
            invariant
                n == pairs.len(),
                pairs.deep_view().len() == n,
                0 <= i <= n,
                c.wf(),
                cookie_upserts(Seq::empty(), pairs.deep_view()) == cookie_upserts(
                    c@,
                    pairs.deep_view().skip(i as int),
                ),
            decreases n - i,
        {
            let ghost rest = pairs.deep_view().skip(i as int);
            proof {
                assert(rest[0] == pairs.deep_view()[i as int]);
                assert(rest.drop_first() =~= pairs.deep_view().skip(i as int + 1));
                assert(pairs.deep_view()[i as int]
                    == (pairs@[i as int].0@, pairs@[i as int].1@));
            }
            c.add(pairs[i].0.as_str(), pairs[i].1.as_str());
            i += 1;
        }
        proof {
            assert(pairs.deep_view().skip(n as int) =~= Seq::<(Seq<char>, Seq<char>)>::empty());
        }
        c
    }
}

/// The first `;`-separated segment of a raw header value.
fn first_segment(raw: &str) -> (r: &str)
    ensures
        r@ == split_on(raw@, ';')[0],
{
    match find_char(raw, ';') {
        Some(k) => {
            proof {
                lemma_find_first(raw@, ';');
                lemma_split_first_sep(raw@, ';', k as int);
                assert(split_on(raw@, ';')[0] == raw@.take(k as int));
                assert(raw@.subrange(0, k as int) =~= raw@.take(k as int));
            }
            raw.substring_char(0, k)
        },
        None => {
            proof {
                lemma_find_first(raw@, ';');
                lemma_split_no_sep(raw@, ';');
            }
            raw
        },
    }
}

impl Cookie {
    /// Parses a whole `Cookie` request header value. Every segment must
    /// carry an `=`; one segment without it fails the whole parse.
    pub fn from_cookie(raw: &str) -> (r: Option<Cookie>)
        ensures
            match r {
                Some(c) => c.wf() && spec_parse_cookie(raw@) == Some(c@),
                None => spec_parse_cookie(raw@) is None,
            },
    {
        let segs = split_str(raw, ';');
        let mut c = Cookie::new();
        let n = segs.len();
        let mut i: usize = 0;
        proof {
            assert(segs.deep_view().skip(0) =~= segs.deep_view());
        }
        while i < n
            invariant
                n == segs.len(),
                segs.deep_view().len() == n,
                segs.deep_view() == split_on(raw@, ';'),
                0 <= i <= n,
                c.wf(),
                spec_parse_cookie(raw@) == cookie_entries_from(
                    c@,
                    segs.deep_view().skip(i as int),
                ),
            decreases n - i,
        {
            let ghost rest = segs.deep_view().skip(i as int);
            proof {
                assert(rest[0] == segs.deep_view()[i as int]);
                assert(segs.deep_view()[i as int] == segs@[i as int]@);
                assert(rest.drop_first() =~= segs.deep_view().skip(i as int + 1));
            }
            let seg = &segs[i];
            match find_char(seg.as_str(), '=') {
                None => {
                    return None;
                },
                Some(j) => {
                    proof {
                        lemma_find_first(seg@, '=');
                    }
                    let key = trim_str(seg.as_str().substring_char(0, j));
                    let m = seg.as_str().unicode_len();
                    let value = seg.as_str().substring_char(j + 1, m);
                    proof {
                        assert(seg@.subrange(0, j as int) =~= seg@.take(j as int));
                        assert(seg@.subrange(j as int + 1, m as int) =~= seg@.skip(j as int + 1));
                    }
                    c.add(key.as_str(), value);
                },
            }
            i += 1;
        }
        proof {
            assert(segs.deep_view().skip(n as int) =~= Seq::<Seq<char>>::empty());
        }
        Some(c)
    }

    /// Parses the name/value parts of many `Set-Cookie` header values,
    /// attributes discarded. One value whose first segment lacks an `=`
    /// fails the whole aggregate parse.
    pub fn from_set_cookie(raws: &Vec<String>) -> (r: Option<Cookie>)
        ensures
            match r {
                Some(c) => c.wf() && spec_parse_response(raws.deep_view()) == Some(c@),
                None => spec_parse_response(raws.deep_view()) is None,
            },
    {
        let mut c = Cookie::new();
        let n = raws.len();
        let mut i: usize = 0;
        proof {
            assert(raws.deep_view().skip(0) =~= raws.deep_view());
        }
        while i < n
            invariant
                n == raws.len(),
                raws.deep_view().len() == n,
                0 <= i <= n,
                c.wf(),
                spec_parse_response(raws.deep_view()) == response_entries_from(
                    c@,
                    raws.deep_view().skip(i as int),
                ),
            decreases n - i,
        {
            let ghost rest = raws.deep_view().skip(i as int);
            proof {
                assert(rest[0] == raws.deep_view()[i as int]);
                assert(raws.deep_view()[i as int] == raws@[i as int]@);
                assert(rest.drop_first() =~= raws.deep_view().skip(i as int + 1));
            }
            let seg = first_segment(raws[i].as_str());
            match find_char(seg, '=') {
                None => {
                    return None;
                },
                Some(j) => {
                    proof {
                        lemma_find_first(seg@, '=');
                    }
                    let key = seg.substring_char(0, j);
                    let m = seg.unicode_len();
                    let value = seg.substring_char(j + 1, m);
                    proof {
                        assert(seg@.subrange(0, j as int) =~= seg@.take(j as int));
                        assert(seg@.subrange(j as int + 1, m as int) =~= seg@.skip(j as int + 1));
                    }
                    c.add(key, value);
                },
            }
            i += 1;
        }
        proof {
            assert(raws.deep_view().skip(n as int) =~= Seq::<Seq<char>>::empty());
        }
        Some(c)
    }

    /// The map as one `Cookie` header value, `name=value` pairs joined
    /// with `;` and no added spaces, in stored order.
    pub fn to_str(&self) -> (r: String)
        ensures
            r@ == cookie_text(self@),
    {
        let mut out = String::new();
        let n = self.entries.len();
        let mut i: usize = 0;
        proof {
            assert(self@.take(0) =~= Seq::<(Seq<char>, Seq<char>)>::empty());
        }
        while i < n
            invariant
                n == self.entries.len(),
                self@.len() == n,
                0 <= i <= n,
                out@ == cookie_text(self@.take(i as int)),
            decreases n - i,
        {
            proof {
                reveal_strlit(";");
                reveal_strlit("=");
                assert(";"@ =~= seq![';']);
                assert("="@ =~= seq!['=']);
            }
            if i > 0 {
                out.append(";");
            }
            out.append(self.entries[i].0.as_str());
            out.append("=");
            out.append(self.entries[i].1.as_str());
            proof {
                let t1 = self@.take(i as int + 1);
                assert(t1.drop_last() =~= self@.take(i as int));
                assert(t1.last() == self@[i as int]);
                assert(self@[i as int] == (self.entries@[i as int].0@, self.entries@[
                    i as int].1@));
                if i == 0 {
                    assert(out@ =~= cookie_text(t1));
                } else {
                    assert(cookie_text(t1) == cookie_text(self@.take(i as int)) + seq![';']
                        + pair_text(self@[i as int]));
                    assert(out@ =~= cookie_text(t1));
                }
            }
            i += 1;
        }
        proof {
            assert(self@.take(n as int) =~= self@);
        }
        out
    }

    /// Consuming form of [`Cookie::to_str`]; the text is the same.
    pub fn into_str(self) -> (r: String)
        ensures
            r@ == cookie_text(self@),
    {
        self.to_str()
    }
}

/// The entries of `pairs` folded onto `acc` in order.
pub open spec fn cookie_upserts(
    acc: Seq<(Seq<char>, Seq<char>)>,
    pairs: Seq<(Seq<char>, Seq<char>)>,
) -> Seq<(Seq<char>, Seq<char>)>
    decreases pairs.len(),
{
    if pairs.len() == 0 {
        acc
    } else {
        cookie_upserts(upsert(acc, pairs[0].0, pairs[0].1), pairs.drop_first())
    }
}

} // verus!
