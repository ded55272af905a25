//! The response-side store: `Set-Cookie` values parsed into a map from
//! cookie name to a value with its attributes, and written back as one
//! fully formed header line per entry.

use vstd::prelude::*;

use crate::kv::{has_key, lemma_map_of_absent, lemma_map_of_index, lemma_remove_key,
    lemma_remove_key_at, lemma_map_of_len, lemma_upsert, map_of, remove_key, unique_keys, upsert};
use crate::text::{find_first, lemma_find_first, i64_dec, i64_to_string, lower, lower_str,
    parse_i64, spec_parse_i64, split_on, split_str, starts_with, str_eq, trim, trim_str,
    find_char};

verus! {

/// The `SameSite` attribute: exactly three variants. Output is
/// case-sensitive (`Strict`, `Lax`, `None`); input is read lower-cased.
#[derive(Debug, Clone, Copy, PartialEq, Eq, Structural)]
pub enum SameSite {
    Strict,
    Lax,
    /// The `None` policy; its wire text is `None`.
    NoneSite,
}

/// The canonical text of a `SameSite` variant.
pub open spec fn same_site_text(ss: SameSite) -> Seq<char> {
    match ss {
        SameSite::Strict => "Strict"@,
        SameSite::Lax => "Lax"@,
        SameSite::NoneSite => "None"@,
    }
}

/// Which variant a lower-cased token value names, if any.
pub open spec fn spec_same_site_of(s: Seq<char>) -> Option<SameSite> {
    if s == "strict"@ {
        Some(SameSite::Strict)
    } else if s == "lax"@ {
        Some(SameSite::Lax)
    } else if s == "none"@ {
        Some(SameSite::NoneSite)
    } else {
        None
    }
}

impl SameSite {
    /// The exact text written after `SameSite=`.
    pub fn as_str(&self) -> (r: &'static str)
        ensures
            r@ == same_site_text(*self),
    {
        match self {
            SameSite::Strict => "Strict",
            SameSite::Lax => "Lax",
            SameSite::NoneSite => "None",
        }
    }

    /// Reads a lower-cased `SameSite` value; anything unrecognized fails.
    pub fn from_str(s: &str) -> (r: Result<SameSite, ()>)
        ensures
            match r {
                Ok(ss) => spec_same_site_of(s@) == Some(ss),
                Err(()) => spec_same_site_of(s@) is None,
            },
    {
        if str_eq(s, "strict") {
            Ok(SameSite::Strict)
        } else if str_eq(s, "lax") {
            Ok(SameSite::Lax)
        } else if str_eq(s, "none") {
            Ok(SameSite::NoneSite)
        } else {
            Err(())
        }
    }
}

/// The attribute record of one `Set-Cookie` entry, as specifications
/// speak of it.
pub ghost struct OptionsView {
    pub http_only: bool,
    pub secure: bool,
    pub max_age: Option<i64>,
    pub domain: Option<Seq<char>>,
    pub path: Option<Seq<char>>,
    pub same_site: Option<SameSite>,
}

/// All attributes unset.
pub open spec fn default_options() -> OptionsView {
    OptionsView {
        http_only: false,
        secure: false,
        max_age: None,
        domain: None,
        path: None,
        same_site: None,
    }
}

/// The attributes of one `Set-Cookie` entry. Booleans serialize only
/// when true, optional fields only when present.
#[derive(Debug, Clone, PartialEq)]
pub struct SetCookieOptions {
    pub http_only: bool,
    pub secure: bool,
    /// Seconds.
    pub max_age: Option<i64>,
    pub domain: Option<String>,
    pub path: Option<String>,
    pub same_site: Option<SameSite>,
}

impl View for SetCookieOptions {
    type V = OptionsView;

    open spec fn view(&self) -> OptionsView {
        OptionsView {
            http_only: self.http_only,
            secure: self.secure,
            max_age: self.max_age,
            domain: match self.domain {
                Some(d) => Some(d@),
                None => None,
            },
            path: match self.path {
                Some(p) => Some(p@),
                None => None,
            },
            same_site: self.same_site,
        }
    }
}

/// Whether a token configures the cookie rather than naming it: after
/// lower-casing it starts with `max-age=`, `domain=` or `path=`, or is
/// exactly `httponly` or `secure`. A `samesite=` token is not matched
/// here; the attribute builder still reads it from the token list.
pub open spec fn spec_is_attr_token(t: Seq<char>) -> bool {
    let l = lower(t);
    "max-age="@.is_prefix_of(l) || "domain="@.is_prefix_of(l) || "path="@.is_prefix_of(l) || l
        == "httponly"@ || l == "secure"@
}

/// The `Max-Age` value of a token: a failed integer parse yields zero.
pub open spec fn max_age_of(s: Seq<char>) -> i64 {
    match spec_parse_i64(s) {
        Some(v) => v,
        None => 0,
    }
}

/// One lower-cased token applied to the attribute record, prefixes
/// tried in fixed precedence. The text captured after the first `=` is
/// kept lower-cased; an empty `path=` capture becomes `/`; an
/// unrecognized `samesite=` value is ignored.
pub open spec fn opts_apply(o: OptionsView, t: Seq<char>) -> OptionsView {
    let l = lower(t);
    if "domain="@.is_prefix_of(l) {
        OptionsView { domain: Some(l.skip(7)), ..o }
    } else if "max-age="@.is_prefix_of(l) {
        OptionsView { max_age: Some(max_age_of(l.skip(8))), ..o }
    } else if "path="@.is_prefix_of(l) {
        OptionsView { path: Some(if l.len() == 5 { "/"@ } else { l.skip(5) }), ..o }
    } else if "httponly"@.is_prefix_of(l) {
        OptionsView { http_only: true, ..o }
    } else if "secure"@.is_prefix_of(l) {
        OptionsView { secure: true, ..o }
    } else if "samesite="@.is_prefix_of(l) {
        match spec_same_site_of(l.skip(9)) {
            Some(ss) => OptionsView { same_site: Some(ss), ..o },
            None => o,
        }
    } else {
        o
    }
}

/// The tokens applied in order, starting from `o`.
pub open spec fn opts_from(o: OptionsView, toks: Seq<Seq<char>>) -> OptionsView
    decreases toks.len(),
{
    if toks.len() == 0 {
        o
    } else {
        opts_from(opts_apply(o, toks[0]), toks.drop_first())
    }
}

/// The attribute record built from a whole token list.
pub open spec fn spec_options(toks: Seq<Seq<char>>) -> OptionsView {
    opts_from(default_options(), toks)
}

impl SetCookieOptions {
    /// All attributes unset.
    pub fn new() -> (r: Self)
        ensures
            r@ == default_options(),
    {
        SetCookieOptions {
            http_only: false,
            secure: false,
            max_age: None,
            domain: None,
            path: None,
            same_site: None,
        }
    }

    /// The token classifier described above.
    pub fn is_set_cookie_option(st: &str) -> (r: bool)
        ensures
            r == spec_is_attr_token(st@),
    {
        let l = lower_str(st);
        starts_with(l.as_str(), "max-age=") || starts_with(l.as_str(), "domain=")
            || starts_with(l.as_str(), "path=") || str_eq(l.as_str(), "httponly") || str_eq(
            l.as_str(),
            "secure",
        )
    }

    pub fn http_only(self, http_only: bool) -> (r: Self)
        ensures
            r@ == (OptionsView { http_only, ..self@ }),
    {
        let mut s = self;
        s.http_only = http_only;
        s
    }

    pub fn secure(self, secure: bool) -> (r: Self)
        ensures
            r@ == (OptionsView { secure, ..self@ }),
    {
        let mut s = self;
        s.secure = secure;
        s
    }

    pub fn max_age(self, max_age: i64) -> (r: Self)
        ensures
            r@ == (OptionsView { max_age: Some(max_age), ..self@ }),
    {
        let mut s = self;
        s.max_age = Some(max_age);
        s
    }

    pub fn domain(self, domain: &str) -> (r: Self)
        ensures
            r@ == (OptionsView { domain: Some(domain@), ..self@ }),
    {
        let mut s = self;
        s.domain = Some(domain.to_owned());
        s
    }

    pub fn path(self, path: &str) -> (r: Self)
        ensures
            r@ == (OptionsView { path: Some(path@), ..self@ }),
    {
        let mut s = self;
        s.path = Some(path.to_owned());
        s
    }

    pub fn same_site(self, same_site: SameSite) -> (r: Self)
        ensures
            r@ == (OptionsView { same_site: Some(same_site), ..self@ }),
    {
        let mut s = self;
        s.same_site = Some(same_site);
        s
    }

    /// The attribute record read from every token of one `Set-Cookie`
    /// value, exactly as `spec_options` says.
    pub fn from_tokens(tokens: &Vec<String>) -> (r: Self)
        ensures
            r@ == spec_options(tokens.deep_view()),
    {
        let mut o = SetCookieOptions::new();
        let n = tokens.len();
        let mut i: usize = 0;
        proof {
            assert(tokens.deep_view().skip(0) =~= tokens.deep_view());
        }
        while i < n
            invariant
                n == tokens.len(),
                tokens.deep_view().len() == n,
                0 <= i <= n,
                spec_options(tokens.deep_view()) == opts_from(
                    o@,
                    tokens.deep_view().skip(i as int),
                ),
            decreases n - i,
        {
            let ghost rest = tokens.deep_view().skip(i as int);
            proof {
                assert(rest[0] == tokens.deep_view()[i as int]);
                assert(tokens.deep_view()[i as int] == tokens@[i as int]@);
                assert(rest.drop_first() =~= tokens.deep_view().skip(i as int + 1));
            }
            o = apply_token(o, tokens[i].as_str());
            i += 1;
        }
        proof {
            assert(tokens.deep_view().skip(n as int) =~= Seq::<Seq<char>>::empty());
        }
        o
    }
}

/// Applies one token to the attribute record being built.
fn apply_token(o: SetCookieOptions, tok: &str) -> (r: SetCookieOptions)
    ensures
        r@ == opts_apply(o@, tok@),
{
    let l = lower_str(tok);
    let n = l.as_str().unicode_len();
    if starts_with(l.as_str(), "domain=") {
        proof {
            reveal_strlit("domain=");
        }
        let cap = l.as_str().substring_char(7, n).to_owned();
        proof {
            assert(cap@ =~= lower(tok@).skip(7));
        }
        let mut s = o;
        s.domain = Some(cap);
        s
    } else if starts_with(l.as_str(), "max-age=") {
        proof {
            reveal_strlit("max-age=");
        }
        let cap = l.as_str().substring_char(8, n);
        proof {
            assert(cap@ =~= lower(tok@).skip(8));
        }
        let v = match parse_i64(cap) {
            Some(v) => v,
            None => 0,
        };
        let mut s = o;
        s.max_age = Some(v);
        s
    } else if starts_with(l.as_str(), "path=") {
        proof {
            reveal_strlit("path=");
        }
        let cap = if n == 5 {
            String::from_str("/")
        } else {
            l.as_str().substring_char(5, n).to_owned()
        };
        proof {
            if n != 5 {
                assert(cap@ =~= lower(tok@).skip(5));
            }
        }
        let mut s = o;
        s.path = Some(cap);
        s
    } else if starts_with(l.as_str(), "httponly") {
        let mut s = o;
        s.http_only = true;
        s
    } else if starts_with(l.as_str(), "secure") {
        let mut s = o;
        s.secure = true;
        s
    } else if starts_with(l.as_str(), "samesite=") {
        proof {
            reveal_strlit("samesite=");
        }
        let cap = l.as_str().substring_char(9, n);
        proof {
            assert(cap@ =~= lower(tok@).skip(9));
        }
        match SameSite::from_str(cap) {
            Ok(ss) => {
                let mut s = o;
                s.same_site = Some(ss);
                s
            },
            Err(()) => o,
        }
    } else {
        o
    }
}

/// The exact serialized form of one entry: `name=value`, then each
/// present attribute in the fixed order `Domain`, `Max-Age`, `Path`,
/// `SameSite`, `HttpOnly`, `Secure`, each after a bare `;` with no
/// added spaces.
pub open spec fn spec_format_entry(k: Seq<char>, v: Seq<char>, o: OptionsView) -> Seq<char> {
    k + seq!['='] + v + (match o.domain {
        Some(d) => ";Domain="@ + d,
        None => Seq::<char>::empty(),
    }) + (match o.max_age {
        Some(m) => ";Max-Age="@ + i64_dec(m as int),
        None => Seq::<char>::empty(),
    }) + (match o.path {
        Some(p) => ";Path="@ + p,
        None => Seq::<char>::empty(),
    }) + (match o.same_site {
        Some(ss) => ";SameSite="@ + same_site_text(ss),
        None => Seq::<char>::empty(),
    }) + (if o.http_only {
        ";HttpOnly"@
    } else {
        Seq::<char>::empty()
    }) + (if o.secure {
        ";Secure"@
    } else {
        Seq::<char>::empty()
    })
}

/// Writes one full `Set-Cookie` line, exactly as `spec_format_entry`
/// says.
pub fn fmt(key: &str, value: &str, options: &SetCookieOptions) -> (r: String)
    ensures
        r@ == spec_format_entry(key@, value@, options@),
{
    let ghost o = options@;
    let mut out = String::new();
    out.append(key);
    proof {
        reveal_strlit("=");
        assert("="@ =~= seq!['=']);
    }
    out.append("=");
    out.append(value);
    let ghost s0 = key@ + seq!['='] + value@;
    proof {
        assert(out@ =~= s0);
    }
    let ghost s1 = s0 + (match o.domain {
        Some(d) => ";Domain="@ + d,
        None => Seq::<char>::empty(),
    });
    if let Some(domain) = &options.domain {
        out.append(";Domain=");
        out.append(domain.as_str());
        proof {
            assert(out@ =~= s1);
        }
    } else {
        proof {
            assert(out@ =~= s1);
        }
    }
    let ghost s2 = s1 + (match o.max_age {
        Some(m) => ";Max-Age="@ + i64_dec(m as int),
        None => Seq::<char>::empty(),
    });
    if let Some(max_age) = options.max_age {
        out.append(";Max-Age=");
        let t = i64_to_string(max_age);
        out.append(t.as_str());
        proof {
            assert(out@ =~= s2);
        }
    } else {
        proof {
            assert(out@ =~= s2);
        }
    }
    let ghost s3 = s2 + (match o.path {
        Some(p) => ";Path="@ + p,
        None => Seq::<char>::empty(),
    });
    if let Some(path) = &options.path {
        out.append(";Path=");
        out.append(path.as_str());
        proof {
            assert(out@ =~= s3);
        }
    } else {
        proof {
            assert(out@ =~= s3);
        }
    }
    let ghost s4 = s3 + (match o.same_site {
        Some(ss) => ";SameSite="@ + same_site_text(ss),
        None => Seq::<char>::empty(),
    });
    if let Some(same_site) = options.same_site {
        out.append(";SameSite=");
        out.append(same_site.as_str());
        proof {
            assert(out@ =~= s4);
        }
    } else {
        proof {
            assert(out@ =~= s4);
        }
    }
    let ghost s5 = s4 + (if o.http_only {
        ";HttpOnly"@
    } else {
        Seq::<char>::empty()
    });
    if options.http_only {
        out.append(";HttpOnly");
    }
    proof {
        assert(out@ =~= s5);
    }
    let ghost s6 = s5 + (if o.secure {
        ";Secure"@
    } else {
        Seq::<char>::empty()
    });
    if options.secure {
        out.append(";Secure");
    }
    proof {
        assert(out@ =~= s6);
        assert(spec_format_entry(key@, value@, options@) == s6);
    }
    out
}

/// Attribute recognition is case-insensitive: two tokens that agree
/// after lower-casing are classified alike and change the attribute
/// record alike.
pub proof fn lemma_attr_case_insensitive(t1: Seq<char>, t2: Seq<char>, o: OptionsView)
    requires
        lower(t1) == lower(t2),
    ensures
        spec_is_attr_token(t1) == spec_is_attr_token(t2),
        opts_apply(o, t1) == opts_apply(o, t2),
{
}

/// The tokens of one `Set-Cookie` value: the `;`-separated segments,
/// each trimmed of ASCII whitespace.
pub open spec fn token_list(raw: Seq<char>) -> Seq<Seq<char>> {
    split_on(raw, ';').map_values(|s: Seq<char>| trim(s))
}

/// Index of the first token the classifier does not claim: the token
/// that names the cookie, if any.
pub open spec fn first_pair_index(toks: Seq<Seq<char>>) -> Option<int>
    decreases toks.len(),
{
    if toks.len() == 0 {
        None
    } else if !spec_is_attr_token(toks[0]) {
        Some(0int)
    } else {
        match first_pair_index(toks.drop_first()) {
            Some(i) => Some(i + 1),
            None => None,
        }
    }
}

pub proof fn lemma_first_pair_at(toks: Seq<Seq<char>>, i: int)
    requires
        0 <= i < toks.len(),
        !spec_is_attr_token(toks[i]),
        forall|j: int| 0 <= j < i ==> spec_is_attr_token(toks[j]),
    ensures
        first_pair_index(toks) == Some(i),
    decreases toks.len(),
{
    if i > 0 {
        assert(forall|j: int|
            0 <= j < toks.drop_first().len() ==> toks.drop_first()[j] == toks[j + 1]);
        lemma_first_pair_at(toks.drop_first(), i - 1);
    }
}

pub proof fn lemma_first_pair_none(toks: Seq<Seq<char>>)
    requires
        forall|j: int| 0 <= j < toks.len() ==> spec_is_attr_token(toks[j]),
    ensures
        first_pair_index(toks) is None,
    decreases toks.len(),
{
    if toks.len() > 0 {
        assert(forall|j: int|
            0 <= j < toks.drop_first().len() ==> toks.drop_first()[j] == toks[j + 1]);
        lemma_first_pair_none(toks.drop_first());
    }
}

/// What one `Set-Cookie` value yields: the first unclaimed token,
/// split at its first `=`, names the cookie; the attributes are built
/// from the whole token list. A value with no such token, or whose
/// token lacks an `=`, yields nothing and is skipped.
pub open spec fn spec_parse_set_cookie_line(raw: Seq<char>) -> Option<
    (Seq<char>, (Seq<char>, OptionsView)),
> {
    let toks = token_list(raw);
    match first_pair_index(toks) {
        Some(i) => match find_first(toks[i], '=') {
            Some(j) => Some((toks[i].take(j), (toks[i].skip(j + 1), spec_options(toks)))),
            None => None,
        },
        None => None,
    }
}

/// One value folded into the store: a parsed entry overwrites any
/// earlier entry with its name; an unusable value changes nothing.
pub open spec fn store_insert_line(
    acc: Seq<(Seq<char>, (Seq<char>, OptionsView))>,
    raw: Seq<char>,
) -> Seq<(Seq<char>, (Seq<char>, OptionsView))> {
    match spec_parse_set_cookie_line(raw) {
        Some(e) => upsert(acc, e.0, e.1),
        None => acc,
    }
}

pub open spec fn store_from(
    acc: Seq<(Seq<char>, (Seq<char>, OptionsView))>,
    raws: Seq<Seq<char>>,
) -> Seq<(Seq<char>, (Seq<char>, OptionsView))>
    decreases raws.len(),
{
    if raws.len() == 0 {
        acc
    } else {
        store_from(store_insert_line(acc, raws[0]), raws.drop_first())
    }
}

/// The store built from all `Set-Cookie` values, in order.
pub open spec fn spec_store(raws: Seq<Seq<char>>) -> Seq<
    (Seq<char>, (Seq<char>, OptionsView)),
> {
    store_from(Seq::empty(), raws)
}

/// A map from cookie name to its value and attributes, read from any
/// number of `Set-Cookie` header values and written back as one header
/// line per entry.
#[derive(Debug, Clone, PartialEq)]
pub struct SetCookie {
    entries: Vec<(String, (String, SetCookieOptions))>,
}

impl View for SetCookie {
    type V = Seq<(Seq<char>, (Seq<char>, OptionsView))>;

    closed spec fn view(&self) -> Seq<(Seq<char>, (Seq<char>, OptionsView))> {
        self.entries@.map_values(
            |e: (String, (String, SetCookieOptions))| (e.0@, (e.1.0@, e.1.1@)),
        )
    }
}

impl SetCookie {
    /// No two entries share a name.
    pub open spec fn wf(&self) -> bool {
        unique_keys(self@)
    }

    /// The map this store stands for.
    pub open spec fn as_map(&self) -> Map<Seq<char>, (Seq<char>, OptionsView)> {
        map_of(self@)
    }

    /// An empty store.
    pub fn new() -> (r: Self)
        ensures
            r@ == Seq::<(Seq<char>, (Seq<char>, OptionsView))>::empty(),
            r.wf(),
    {
        SetCookie { entries: Vec::new() }
    }

    pub fn is_empty(&self) -> (r: bool)
        requires
            self.wf(),
        ensures
            r == (self@.len() == 0),
    {
        self.entries.len() == 0
    }

    /// Index of the entry named `key`, if any.
    fn position(&self, key: &str) -> (r: Option<usize>)
        ensures
            match r {
                Some(i) => i < self@.len() && self@[i as int].0 == key@,
                None => forall|i: int| 0 <= i < self@.len() ==> self@[i].0 != key@,
            },
    {
        let n = self.entries.len();
        let mut i: usize = 0;
        while i < n
            invariant
                n == self.entries.len(),
                self@.len() == n,
                0 <= i <= n,
                forall|j: int| 0 <= j < i ==> self@[j].0 != key@,
            decreases n - i,
        {
            if str_eq(self.entries[i].0.as_str(), key) {
                proof {
                    assert(self@[i as int].0 == self.entries@[i as int].0@);
                }
                return Some(i);
            }
            proof {
                assert(self@[i as int].0 == self.entries@[i as int].0@);
            }
            i += 1;
        }
        None
    }

    /// Writes an entry, replacing any earlier entry with its name.
    fn put(&mut self, key: &str, value: String, options: SetCookieOptions)
        requires
            old(self).wf(),
        ensures
            final(self).wf(),
            final(self)@ == upsert(old(self)@, key@, (value@, options@)),
            final(self).as_map() == old(self).as_map().insert(key@, (value@, options@)),
    {
        let ghost s0 = self@;
        match self.position(key) {
            Some(i) => {
                proof {
                    lemma_remove_key_at(s0, key@, i as int);
                }
                let _ = self.entries.remove(i);
                proof {
                    assert(self@ =~= s0.remove(i as int));
                }
            },
            None => {
                proof {
                    lemma_remove_key(s0, key@);
                }
            },
        }
        let ghost s1 = self@;
        self.entries.push((key.to_owned(), (value, options)));
        proof {
            assert(self@ =~= s1.push((key@, (value@, options@))));
            assert(self@ == upsert(s0, key@, (value@, options@)));
            lemma_upsert(s0, key@, (value@, options@));
        }
    }

    /// Builder-style upsert: the store with `value` and `options`
    /// written under `key`.
    pub fn set(self, key: &str, value: &str, options: SetCookieOptions) -> (r: Self)
        requires
            self.wf(),
        ensures
            r.wf(),
            r@ == upsert(self@, key@, (value@, options@)),
            r.as_map() == self.as_map().insert(key@, (value@, options@)),
    {
        let mut s = self;
        s.put(key, value.to_owned(), options);
        s
    }

    /// Builder-style removal of the entry named `key`, if any.
    pub fn remove(self, key: &str) -> (r: Self)
        requires
            self.wf(),
        ensures
            r.wf(),
            r@ == remove_key(self@, key@),
            r.as_map() == self.as_map().remove(key@),
    {
        let ghost s0 = self@;
        proof {
            lemma_remove_key(s0, key@);
        }
        let mut s = self;
        match s.position(key) {
            Some(i) => {
                proof {
                    lemma_remove_key_at(s0, key@, i as int);
                }
                let _ = s.entries.remove(i);
                proof {
                    assert(s@ =~= s0.remove(i as int));
                }
            },
            None => {
                proof {
                    assert(s@ =~= remove_key(s0, key@));
                }
            },
        }
        s
    }

    /// The value stored under `key`, if any; attributes stay behind.
    pub fn get(&self, key: &str) -> (r: Option<&str>)
        requires
            self.wf(),
        ensures
            match r {
                Some(v) => self.as_map().contains_key(key@) && v@ == self.as_map()[key@].0,
                None => !self.as_map().contains_key(key@),
            },
    {
        match self.position(key) {
            Some(i) => {
                proof {
                    lemma_map_of_index(self@, key@, i as int);
                    assert(self@[i as int].1.0 == self.entries@[i as int].1.0@);
                }
                Some(self.entries[i].1.0.as_str())
            },
            None => {
                proof {
                    lemma_map_of_absent(self@, key@);
                }
                None
            },
        }
    }

    /// Removes the entry named `key` and hands its value back.
    pub fn take(&mut self, key: &str) -> (r: Option<String>)
        requires
            old(self).wf(),
        ensures
            final(self).wf(),
            final(self)@ == remove_key(old(self)@, key@),
            final(self).as_map() == old(self).as_map().remove(key@),
            match r {
                Some(v) => old(self).as_map().contains_key(key@)
                    && v@ == old(self).as_map()[key@].0,
                None => !old(self).as_map().contains_key(key@),
            },
    {
        let ghost s0 = self@;
        proof {
            lemma_remove_key(s0, key@);
        }
        match self.position(key) {
            Some(i) => {
                proof {
                    lemma_remove_key_at(s0, key@, i as int);
                    lemma_map_of_index(s0, key@, i as int);
                    assert(s0[i as int].1.0 == self.entries@[i as int].1.0@);
                }
                let entry = self.entries.remove(i);
                proof {
                    assert(self@ =~= s0.remove(i as int));
                }
                Some(entry.1.0)
            },
            None => {
                proof {
                    lemma_map_of_absent(s0, key@);
                    assert(self@ =~= remove_key(s0, key@));
                }
                None
            },
        }
    }

    /// Parses any number of `Set-Cookie` header values. Unusable values
    /// are skipped; the rest of the batch still goes through.
    pub fn from_header_values(raws: &Vec<String>) -> (r: Self)
        ensures
            r.wf(),
            r@ == spec_store(raws.deep_view()),
    {
        let mut store = SetCookie::new();
        let n = raws.len();
        let mut i: usize = 0;
        proof {
            assert(raws.deep_view().skip(0) =~= raws.deep_view());
        }
        while i < n
            invariant
                n == raws.len(),
                raws.deep_view().len() == n,
                0 <= i <= n,
                store.wf(),
                spec_store(raws.deep_view()) == store_from(
                    store@,
                    raws.deep_view().skip(i as int),
                ),
            decreases n - i,
        {
            let ghost rest = raws.deep_view().skip(i as int);
            proof {
                assert(rest[0] == raws.deep_view()[i as int]);
                assert(raws.deep_view()[i as int] == raws@[i as int]@);
                assert(rest.drop_first() =~= raws.deep_view().skip(i as int + 1));
            }
            let line = raws[i].as_str();
            let toks = tokens_of(line);
            let pidx = find_pair_token(&toks);
            proof {
                assert(store_from(store@, rest) == store_from(
                    store_insert_line(store@, line@),
                    rest.drop_first(),
                ));
            }
            match pidx {
                Option::None => {},
                Option::Some(j) => {
                    let tok = &toks[j];
                    proof {
                        assert(toks.deep_view()[j as int] == toks@[j as int]@);
                    }
                    match find_char(tok.as_str(), '=') {
                        Option::None => {},
                        Option::Some(e) => {
                            proof {
                                lemma_find_first(tok@, '=');
                            }
                            let key = tok.as_str().substring_char(0, e);
                            let m = tok.as_str().unicode_len();
                            let value = tok.as_str().substring_char(e + 1, m);
                            proof {
                                assert(tok@.subrange(0, e as int) =~= tok@.take(e as int));
                                assert(tok@.subrange(e as int + 1, m as int) =~= tok@.skip(
                                    e as int + 1,
                                ));
                            }
                            let options = SetCookieOptions::from_tokens(&toks);
                            store.put(key, value.to_owned(), options);
                        },
                    }
                },
            }
            i += 1;
        }
        proof {
            assert(raws.deep_view().skip(n as int)
                =~= Seq::<Seq<char>>::empty());
        }
        store
    }

    /// One `("Set-Cookie", line)` pair per entry, in stored order.
    pub fn iter(&self) -> (r: Vec<(String, String)>)
        ensures
            r@.len() == self@.len(),
            forall|i: int|
                0 <= i < r@.len() ==> (#[trigger] r@[i]).0@ == "Set-Cookie"@ && r@[i].1@
                    == spec_format_entry(self@[i].0, self@[i].1.0, self@[i].1.1),
    {
        let mut r: Vec<(String, String)> = Vec::new();
        let n = self.entries.len();
        let mut i: usize = 0;
        while i < n
            invariant
                n == self.entries.len(),
                self@.len() == n,
                0 <= i <= n,
                r@.len() == i,
                forall|j: int|
                    0 <= j < i ==> (#[trigger] r@[j]).0@ == "Set-Cookie"@ && r@[j].1@
                        == spec_format_entry(self@[j].0, self@[j].1.0, self@[j].1.1),
            decreases n - i,
        {
            let e = &self.entries[i];
            proof {
                assert(self@[i as int] == (e.0@, (e.1.0@, e.1.1@)));
            }
            let line = fmt(e.0.as_str(), e.1.0.as_str(), &e.1.1);
            r.push(("Set-Cookie".to_owned(), line));
            i += 1;
        }
        r
    }

    /// Consumes the store into an iterator over `("Set-Cookie", line)`
    /// pairs.
    pub fn into_iter(self) -> (r: IntoIter)
        ensures
            r.wf(),
            r.remaining() == self@,
    {
        proof {
            assert(self@.skip(0) =~= self@);
        }
        IntoIter { entries: self.entries, pos: 0 }
    }
}

/// The trimmed tokens of one raw header value.
fn tokens_of(line: &str) -> (r: Vec<String>)
    ensures
        r.deep_view() == token_list(line@),
{
    let segs = split_str(line, ';');
    let mut toks: Vec<String> = Vec::new();
    let m = segs.len();
    let mut j: usize = 0;
    proof {
        assert(toks.deep_view() =~= token_list(line@).take(0));
    }
    while j < m
        invariant
            m == segs.len(),
            segs.deep_view() == split_on(line@, ';'),
            token_list(line@).len() == m,
            0 <= j <= m,
            toks.deep_view() == token_list(line@).take(j as int),
        decreases m - j,
    {
        let ghost before = toks.deep_view();
        let t = trim_str(segs[j].as_str());
        toks.push(t);
        proof {
            assert(segs.deep_view()[j as int] == segs@[j as int]@);
            assert(token_list(line@)[j as int] == trim(segs@[j as int]@));
            assert(toks.deep_view() =~= before.push(trim(segs@[j as int]@)));
            assert(toks.deep_view() =~= token_list(line@).take(j as int + 1));
        }
        j += 1;
    }
    proof {
        assert(token_list(line@).take(m as int) =~= token_list(line@));
    }
    toks
}

/// Index of the first token the classifier does not claim.
fn find_pair_token(toks: &Vec<String>) -> (r: Option<usize>)
    ensures
        match r {
            Some(i) => i < toks.deep_view().len() && first_pair_index(toks.deep_view())
                == Some(i as int),
            None => first_pair_index(toks.deep_view()) is None,
        },
{
    let n = toks.len();
    let mut i: usize = 0;
    while i < n
        invariant
            n == toks.len(),
            toks.deep_view().len() == n,
            0 <= i <= n,
            forall|j: int| 0 <= j < i ==> spec_is_attr_token(toks.deep_view()[j]),
        decreases n - i,
    {
        if !SetCookieOptions::is_set_cookie_option(toks[i].as_str()) {
            proof {
                assert(toks.deep_view()[i as int] == toks@[i as int]@);
                lemma_first_pair_at(toks.deep_view(), i as int);
            }
            return Some(i);
        }
        proof {
            assert(toks.deep_view()[i as int] == toks@[i as int]@);
        }
        i += 1;
    }
    proof {
        lemma_first_pair_none(toks.deep_view());
    }
    None
}

/// Iterator over the formatted `("Set-Cookie", line)` pairs of a
/// consumed store.
pub struct IntoIter {
    entries: Vec<(String, (String, SetCookieOptions))>,
    pos: usize,
}

impl IntoIter {
    /// The entries not yet handed out.
    pub closed spec fn remaining(&self) -> Seq<(Seq<char>, (Seq<char>, OptionsView))> {
        self.entries@.map_values(
            |e: (String, (String, SetCookieOptions))| (e.0@, (e.1.0@, e.1.1@)),
        ).skip(self.pos as int)
    }

    pub closed spec fn wf(&self) -> bool {
        self.pos <= self.entries.len()
    }

    /// The next formatted pair, front to back.
    pub fn next(&mut self) -> (r: Option<(String, String)>)
        requires
            old(self).wf(),
        ensures
            final(self).wf(),
            match r {
                Some(p) => old(self).remaining().len() > 0 && p.0@ == "Set-Cookie"@ && p.1@
                    == spec_format_entry(
                    old(self).remaining()[0].0,
                    old(self).remaining()[0].1.0,
                    old(self).remaining()[0].1.1,
                ) && final(self).remaining() == old(self).remaining().drop_first(),
                None => old(self).remaining().len() == 0 && final(self).remaining() == old(
                    self,
                ).remaining(),
            },
    {
        if self.pos < self.entries.len() {
            let e = &self.entries[self.pos];
            let ghost all = self.entries@.map_values(
                |en: (String, (String, SetCookieOptions))| (en.0@, (en.1.0@, en.1.1@)),
            );
            proof {
                assert(all[self.pos as int] == (e.0@, (e.1.0@, e.1.1@)));
                assert(old(self).remaining()[0] == all[self.pos as int]);
            }
            let line = fmt(e.0.as_str(), e.1.0.as_str(), &e.1.1);
            self.pos = self.pos + 1;
            proof {
                assert(self.remaining() =~= old(self).remaining().drop_first());
            }
            Some(("Set-Cookie".to_owned(), line))
        } else {
            None
        }
    }
}

} // verus!
