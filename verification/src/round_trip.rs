//! The round-trip laws of the `Set-Cookie` grammar: formatting an entry
//! and parsing the line back yields the entry again, and re-parsing what
//! a parsed store serializes changes nothing.

use vstd::prelude::*;

use crate::set_cookie::{default_options, first_pair_index, opts_apply, opts_from, same_site_text,
    spec_format_entry, spec_is_attr_token, spec_options, spec_parse_set_cookie_line,
    spec_same_site_of, spec_store, store_from, store_insert_line, token_list, OptionsView,
    SameSite};
use crate::kv::{has_key, map_of, remove_key, unique_keys, upsert};
use crate::text::{digit_val, find_first, i64_dec, is_digit, is_space, lemma_dec_digits_shape,
    lemma_find_first_at, lemma_i64_dec_chars, lemma_i64_dec_parse, lemma_lower_char_shape,
    lemma_lower_distributes, lemma_lower_idempotent, lemma_lower_len, lemma_split_concat,
    lemma_split_no_sep, lemma_split_segments_free, lemma_trim_identity, lemma_trim_keeps_missing,
    lemma_trim_shape, lower,
    lower_char, no_char, spec_parse_i64, split_on, trim};

verus! {

/// An entry in canonical wire form: what `spec_format_entry` writes for
/// it reads back as exactly this entry.
///
/// The name may not carry `;` or `=`, may not begin with whitespace,
/// and may not lower-case to one of the attribute words that the
/// classifier or the attribute builder would claim for itself — or, for
/// `httponly`, `secure` and `samesite`, it may, but then the record
/// must already say what that token would switch on. The value may not
/// carry `;` or end in whitespace. A stored domain or path must be
/// lower-case, free of `;`, and not end in whitespace; a path must also
/// be non-empty, since an empty `Path=` capture reads back as `/`.
pub open spec fn entry_stable(k: Seq<char>, v: Seq<char>, o: OptionsView) -> bool {
    &&& no_char(k, ';')
    &&& no_char(k, '=')
    &&& (k.len() > 0 ==> !is_space(k[0]))
    &&& lower(k) != "domain"@
    &&& lower(k) != "max-age"@
    &&& lower(k) != "path"@
    &&& no_char(v, ';')
    &&& (v.len() > 0 ==> !is_space(v.last()))
    &&& ("httponly"@.is_prefix_of(lower(k)) ==> o.http_only)
    &&& ("secure"@.is_prefix_of(lower(k)) ==> o.secure)
    &&& (lower(k) == "samesite"@ && o.same_site is None ==> spec_same_site_of(lower(v)) is None)
    &&& (match o.domain {
        Some(d) => no_char(d, ';') && lower(d) == d && (d.len() > 0 ==> !is_space(d.last())),
        None => true,
    })
    &&& (match o.path {
        Some(p) => no_char(p, ';') && lower(p) == p && p.len() > 0 && !is_space(p.last()),
        None => true,
    })
}

/// What one pair-shaped token `k=v` does in classification and in the
/// attribute builder, spelled out over `k` and `v` alone.
pub proof fn lemma_pair_token_apply(k: Seq<char>, v: Seq<char>, x: OptionsView)
    requires
        no_char(k, '='),
        lower(k) != "domain"@,
        lower(k) != "max-age"@,
        lower(k) != "path"@,
    ensures
        !spec_is_attr_token(k + seq!['='] + v),
        opts_apply(x, k + seq!['='] + v) == (OptionsView {
            http_only: x.http_only || "httponly"@.is_prefix_of(lower(k)),
            secure: x.secure || "secure"@.is_prefix_of(lower(k)),
            same_site: if lower(k) == "samesite"@ && spec_same_site_of(lower(v)) is Some {
                spec_same_site_of(lower(v))
            } else {
                x.same_site
            },
            ..x
        }),
{
    reveal_strlit("domain=");
    reveal_strlit("max-age=");
    reveal_strlit("path=");
    reveal_strlit("httponly");
    reveal_strlit("secure");
    reveal_strlit("samesite=");
    reveal_strlit("domain");
    reveal_strlit("max-age");
    reveal_strlit("path");
    reveal_strlit("samesite");
    broadcast use lemma_lower_char_shape;

    let t = k + seq!['='] + v;
    let l = lower(t);
    let kk = lower(k);
    let vv = lower(v);
    lemma_lower_len(k);
    lemma_lower_len(v);
    lemma_lower_len(t);
    lemma_lower_distributes(k + seq!['='], v);
    lemma_lower_distributes(k, seq!['=']);
    assert(lower(seq!['=']) =~= seq!['=']);
    assert(l =~= kk + seq!['='] + vv);
    let n = kk.len() as int;
    assert(forall|i: int| 0 <= i < n ==> kk[i] != '=');
    assert(l[n] == '=');
    assert(forall|i: int| 0 <= i < n ==> l[i] == kk[i]);

    // `domain=` is a prefix only when the name itself is `domain`.
    assert(!"domain="@.is_prefix_of(l)) by {
        if "domain="@.is_prefix_of(l) {
            assert(forall|i: int| 0 <= i < 7 ==> l[i] == "domain="@[i]);
            if n < 6 {
                assert(l[n] == "domain="@[n]);
                assert(false);
            } else if n > 6 {
                assert(l[6] == kk[6]);
                assert(false);
            } else {
                assert(kk =~= "domain"@);
                assert(false);
            }
        }
    }
    // `max-age=` is a prefix only when the name itself is `max-age`.
    assert(!"max-age="@.is_prefix_of(l)) by {
        if "max-age="@.is_prefix_of(l) {
            assert(forall|i: int| 0 <= i < 8 ==> l[i] == "max-age="@[i]);
            if n < 7 {
                assert(l[n] == "max-age="@[n]);
                assert(false);
            } else if n > 7 {
                assert(l[7] == kk[7]);
                assert(false);
            } else {
                assert(kk =~= "max-age"@);
                assert(false);
            }
        }
    }
    // `path=` is a prefix only when the name itself is `path`.
    assert(!"path="@.is_prefix_of(l)) by {
        if "path="@.is_prefix_of(l) {
            assert(forall|i: int| 0 <= i < 5 ==> l[i] == "path="@[i]);
            if n < 4 {
                assert(l[n] == "path="@[n]);
                assert(false);
            } else if n > 4 {
                assert(l[4] == kk[4]);
                assert(false);
            } else {
                assert(kk =~= "path"@);
                assert(false);
            }
        }
    }
    // The token carries `=`, so it cannot equal `httponly` or `secure`.
    assert(l != "httponly"@) by {
        if l == "httponly"@ {
            assert(l.len() == 8);
            assert(l[n] == "httponly"@[n]);
            assert(false);
        }
    }
    assert(l != "secure"@) by {
        if l == "secure"@ {
            assert(l.len() == 6);
            assert(l[n] == "secure"@[n]);
            assert(false);
        }
    }
    // `httponly` is a prefix of the token exactly when it is one of the
    // name.
    assert("httponly"@.is_prefix_of(l) == "httponly"@.is_prefix_of(kk)) by {
        if "httponly"@.is_prefix_of(l) {
            assert(forall|i: int| 0 <= i < 8 ==> l[i] == "httponly"@[i]);
            if n < 8 {
                assert(l[n] == "httponly"@[n]);
                assert(false);
            }
            assert("httponly"@ =~= kk.take(8));
        }
        if "httponly"@.is_prefix_of(kk) {
            assert(forall|i: int| 0 <= i < 8 ==> kk[i] == "httponly"@[i]);
            assert("httponly"@ =~= l.take(8));
        }
    }
    // Likewise `secure`.
    assert("secure"@.is_prefix_of(l) == "secure"@.is_prefix_of(kk)) by {
        if "secure"@.is_prefix_of(l) {
            assert(forall|i: int| 0 <= i < 6 ==> l[i] == "secure"@[i]);
            if n < 6 {
                assert(l[n] == "secure"@[n]);
                assert(false);
            }
            assert("secure"@ =~= kk.take(6));
        }
        if "secure"@.is_prefix_of(kk) {
            assert(forall|i: int| 0 <= i < 6 ==> kk[i] == "secure"@[i]);
            assert("secure"@ =~= l.take(6));
        }
    }
    // `samesite=` is a prefix only when the name itself is `samesite`,
    // and then everything after it is the lower-cased value.
    assert("samesite="@.is_prefix_of(l) == (kk == "samesite"@)) by {
        if "samesite="@.is_prefix_of(l) {
            assert(forall|i: int| 0 <= i < 9 ==> l[i] == "samesite="@[i]);
            if n < 8 {
                assert(l[n] == "samesite="@[n]);
                assert(false);
            } else if n > 8 {
                assert(l[8] == kk[8]);
                assert(false);
            } else {
                assert(kk =~= "samesite"@);
            }
        }
        if kk == "samesite"@ {
            assert("samesite="@ =~= l.take(9));
        }
    }
    if kk == "samesite"@ {
        assert(l.skip(9) =~= vv);
    }
    // Both prefixes cannot hold at once, so the builder branches do not
    // interfere.
    assert(!("httponly"@.is_prefix_of(kk) && "secure"@.is_prefix_of(kk))) by {
        if "httponly"@.is_prefix_of(kk) && "secure"@.is_prefix_of(kk) {
            assert(kk[0] == "httponly"@[0]);
            assert(kk[0] == "secure"@[0]);
            assert(false);
        }
    }
    assert(!("httponly"@.is_prefix_of(kk) && kk == "samesite"@)) by {
        if "httponly"@.is_prefix_of(kk) && kk == "samesite"@ {
            assert(kk[0] == "httponly"@[0]);
            assert(false);
        }
    }
    assert(!("secure"@.is_prefix_of(kk) && kk == "samesite"@)) by {
        if "secure"@.is_prefix_of(kk) && kk == "samesite"@ {
            assert(kk[1] == "secure"@[1]);
            assert(false);
        }
    }
}

/// A decimal character is inert everywhere in the grammar.
proof fn lemma_digit_inert(c: char)
    requires
        is_digit(c) || c == '-',
    ensures
        lower_char(c) == c,
        !is_space(c),
        c != ';',
        c != '=',
{
}

/// What a `Domain=` token does.
proof fn lemma_body_domain(d: Seq<char>, x: OptionsView)
    ensures
        spec_is_attr_token("Domain="@ + d),
        lower(d) == d ==> opts_apply(x, "Domain="@ + d) == (OptionsView {
            domain: Some(d),
            ..x
        }),
        no_char(d, ';') ==> no_char("Domain="@ + d, ';'),
        (d.len() > 0 ==> !is_space(d.last())) ==> trim("Domain="@ + d) == "Domain="@ + d,
{
    reveal_strlit("Domain=");
    reveal_strlit("domain=");
    broadcast use lemma_lower_char_shape;

    let b = "Domain="@ + d;
    let lb = lower(b);
    lemma_lower_len("Domain="@);
    lemma_lower_len(d);
    lemma_lower_distributes("Domain="@, d);
    assert(lower("Domain="@) =~= "domain="@);
    assert(lb == "domain="@ + lower(d));
    assert("domain="@.is_prefix_of(lb)) by {
        assert("domain="@ =~= lb.take(7));
    }
    if lower(d) == d {
        assert(lb.skip(7) =~= d);
    }
    assert(no_char(d, ';') ==> no_char(b, ';')) by {
        if no_char(d, ';') {
            assert(forall|i: int| 0 <= i < b.len() && i >= 7 ==> b[i] == d[i - 7]);
            assert(forall|i: int| 0 <= i < b.len() ==> b[i] != ';');
        }
    }
    if d.len() > 0 ==> !is_space(d.last()) {
        assert(b[0] == 'D');
        if d.len() > 0 {
            assert(b.last() == d.last());
        } else {
            assert(b.last() == '=');
        }
        lemma_trim_identity(b);
    }
}

/// What a `Max-Age=` token does.
proof fn lemma_body_max_age(m: i64, x: OptionsView)
    ensures
        spec_is_attr_token("Max-Age="@ + i64_dec(m as int)),
        opts_apply(x, "Max-Age="@ + i64_dec(m as int)) == (OptionsView {
            max_age: Some(m),
            ..x
        }),
        no_char("Max-Age="@ + i64_dec(m as int), ';'),
        trim("Max-Age="@ + i64_dec(m as int)) == "Max-Age="@ + i64_dec(m as int),
{
    reveal_strlit("Max-Age=");
    reveal_strlit("max-age=");
    reveal_strlit("domain=");
    broadcast use lemma_lower_char_shape;

    let w = i64_dec(m as int);
    let b = "Max-Age="@ + w;
    let lb = lower(b);
    lemma_i64_dec_chars(m);
    lemma_i64_dec_parse(m);
    if m >= 0 {
        lemma_dec_digits_shape(m as int);
    } else {
        lemma_dec_digits_shape(-(m as int));
    }
    assert(w.len() >= 1);
    assert(forall|i: int| 0 <= i < w.len() ==> (w[i] == '-' || is_digit(w[i])));
    assert forall|i: int| 0 <= i < w.len() implies lower_char(w[i]) == w[i] && !is_space(w[i])
        && w[i] != ';' by {
        lemma_digit_inert(w[i]);
    }
    lemma_lower_len("Max-Age="@);
    lemma_lower_len(w);
    lemma_lower_distributes("Max-Age="@, w);
    assert(lower("Max-Age="@) =~= "max-age="@);
    assert(lower(w) =~= w);
    assert(lb == "max-age="@ + w);
    assert("max-age="@.is_prefix_of(lb)) by {
        assert("max-age="@ =~= lb.take(8));
    }
    assert(!"domain="@.is_prefix_of(lb)) by {
        if "domain="@.is_prefix_of(lb) {
            assert(lb[0] == "domain="@[0]);
            assert(false);
        }
    }
    assert(lb.skip(8) =~= w);
    assert(no_char(b, ';')) by {
        assert(forall|i: int| 0 <= i < b.len() && i >= 8 ==> b[i] == w[i - 8]);
    }
    assert(b[0] == 'M');
    assert(b.last() == w.last());
    lemma_trim_identity(b);
}

/// What a `Path=` token does.
proof fn lemma_body_path(p: Seq<char>, x: OptionsView)
    ensures
        spec_is_attr_token("Path="@ + p),
        (lower(p) == p && p.len() > 0) ==> opts_apply(x, "Path="@ + p) == (OptionsView {
            path: Some(p),
            ..x
        }),
        no_char(p, ';') ==> no_char("Path="@ + p, ';'),
        (p.len() > 0 ==> !is_space(p.last())) ==> trim("Path="@ + p) == "Path="@ + p,
{
    reveal_strlit("Path=");
    reveal_strlit("path=");
    reveal_strlit("domain=");
    reveal_strlit("max-age=");
    broadcast use lemma_lower_char_shape;

    let b = "Path="@ + p;
    let lb = lower(b);
    lemma_lower_len("Path="@);
    lemma_lower_len(p);
    lemma_lower_distributes("Path="@, p);
    assert(lower("Path="@) =~= "path="@);
    assert(lb == "path="@ + lower(p));
    assert("path="@.is_prefix_of(lb)) by {
        assert("path="@ =~= lb.take(5));
    }
    assert(!"domain="@.is_prefix_of(lb)) by {
        if "domain="@.is_prefix_of(lb) {
            assert(lb[0] == "domain="@[0]);
            assert(false);
        }
    }
    assert(!"max-age="@.is_prefix_of(lb)) by {
        if "max-age="@.is_prefix_of(lb) {
            assert(lb[0] == "max-age="@[0]);
            assert(false);
        }
    }
    if lower(p) == p && p.len() > 0 {
        assert(lb.len() != 5);
        assert(lb.skip(5) =~= p);
    }
    assert(no_char(p, ';') ==> no_char(b, ';')) by {
        if no_char(p, ';') {
            assert(forall|i: int| 0 <= i < b.len() && i >= 5 ==> b[i] == p[i - 5]);
            assert(forall|i: int| 0 <= i < b.len() ==> b[i] != ';');
        }
    }
    if p.len() > 0 ==> !is_space(p.last()) {
        assert(b[0] == 'P');
        if p.len() > 0 {
            assert(b.last() == p.last());
        } else {
            assert(b.last() == '=');
        }
        lemma_trim_identity(b);
    }
}

/// What a `SameSite=` token does: the classifier does not claim it,
/// the attribute builder still reads it.
proof fn lemma_body_same_site(ss: SameSite, x: OptionsView)
    ensures
        !spec_is_attr_token("SameSite="@ + same_site_text(ss)),
        opts_apply(x, "SameSite="@ + same_site_text(ss)) == (OptionsView {
            same_site: Some(ss),
            ..x
        }),
        no_char("SameSite="@ + same_site_text(ss), ';'),
        trim("SameSite="@ + same_site_text(ss)) == "SameSite="@ + same_site_text(ss),
{
    reveal_strlit("SameSite=");
    reveal_strlit("samesite=");
    reveal_strlit("domain=");
    reveal_strlit("max-age=");
    reveal_strlit("path=");
    reveal_strlit("httponly");
    reveal_strlit("secure");
    reveal_strlit("Strict");
    reveal_strlit("strict");
    reveal_strlit("Lax");
    reveal_strlit("lax");
    reveal_strlit("None");
    reveal_strlit("none");
    broadcast use lemma_lower_char_shape;

    let w = same_site_text(ss);
    let b = "SameSite="@ + w;
    let lb = lower(b);
    lemma_lower_len("SameSite="@);
    lemma_lower_len(w);
    lemma_lower_distributes("SameSite="@, w);
    assert(lower("SameSite="@) =~= "samesite="@);
    match ss {
        SameSite::Strict => {
            assert(lower("Strict"@) =~= "strict"@);
        },
        SameSite::Lax => {
            assert(lower("Lax"@) =~= "lax"@);
        },
        SameSite::NoneSite => {
            assert(lower("None"@) =~= "none"@);
        },
    }
    assert(spec_same_site_of(lower(w)) == Some(ss));
    assert(lb == "samesite="@ + lower(w));
    assert("samesite="@.is_prefix_of(lb)) by {
        assert("samesite="@ =~= lb.take(9));
    }
    assert(lb.skip(9) =~= lower(w));
    assert(!"domain="@.is_prefix_of(lb)) by {
        if "domain="@.is_prefix_of(lb) {
            assert(lb[0] == "domain="@[0]);
            assert(false);
        }
    }
    assert(!"max-age="@.is_prefix_of(lb)) by {
        if "max-age="@.is_prefix_of(lb) {
            assert(lb[0] == "max-age="@[0]);
            assert(false);
        }
    }
    assert(!"path="@.is_prefix_of(lb)) by {
        if "path="@.is_prefix_of(lb) {
            assert(lb[0] == "path="@[0]);
            assert(false);
        }
    }
    assert(!"httponly"@.is_prefix_of(lb)) by {
        if "httponly"@.is_prefix_of(lb) {
            assert(lb[0] == "httponly"@[0]);
            assert(false);
        }
    }
    assert(!"secure"@.is_prefix_of(lb)) by {
        if "secure"@.is_prefix_of(lb) {
            assert(lb[1] == "secure"@[1]);
            assert(false);
        }
    }
    assert(lb != "httponly"@) by {
        if lb == "httponly"@ {
            assert(lb[0] == "httponly"@[0]);
            assert(false);
        }
    }
    assert(lb != "secure"@) by {
        if lb == "secure"@ {
            assert(lb[1] == "secure"@[1]);
            assert(false);
        }
    }
    assert(no_char(b, ';')) by {
        assert(w.len() >= 3);
        assert(forall|i: int| 0 <= i < b.len() && i >= 9 ==> b[i] == w[i - 9]);
        assert(forall|i: int| 0 <= i < w.len() ==> w[i] != ';');
    }
    assert(b[0] == 'S');
    assert(b.last() == w.last());
    assert(!is_space(w.last()));
    lemma_trim_identity(b);
}

/// What a bare `HttpOnly` token does.
proof fn lemma_body_http_only(x: OptionsView)
    ensures
        spec_is_attr_token("HttpOnly"@),
        opts_apply(x, "HttpOnly"@) == (OptionsView { http_only: true, ..x }),
        no_char("HttpOnly"@, ';'),
        trim("HttpOnly"@) == "HttpOnly"@,
{
    reveal_strlit("HttpOnly");
    reveal_strlit("httponly");
    reveal_strlit("domain=");
    reveal_strlit("max-age=");
    reveal_strlit("path=");
    broadcast use lemma_lower_char_shape;

    let b = "HttpOnly"@;
    let lb = lower(b);
    lemma_lower_len(b);
    assert(lb =~= "httponly"@);
    assert("httponly"@.is_prefix_of(lb)) by {
        assert("httponly"@ =~= lb.take(8));
    }
    assert(!"domain="@.is_prefix_of(lb)) by {
        if "domain="@.is_prefix_of(lb) {
            assert(lb[0] == "domain="@[0]);
            assert(false);
        }
    }
    assert(!"max-age="@.is_prefix_of(lb)) by {
        if "max-age="@.is_prefix_of(lb) {
            assert(lb[0] == "max-age="@[0]);
            assert(false);
        }
    }
    assert(!"path="@.is_prefix_of(lb)) by {
        if "path="@.is_prefix_of(lb) {
            assert(lb[0] == "path="@[0]);
            assert(false);
        }
    }
    assert(b[0] == 'H');
    assert(b.last() == 'y');
    lemma_trim_identity(b);
}

/// What a bare `Secure` token does.
proof fn lemma_body_secure(x: OptionsView)
    ensures
        spec_is_attr_token("Secure"@),
        opts_apply(x, "Secure"@) == (OptionsView { secure: true, ..x }),
        no_char("Secure"@, ';'),
        trim("Secure"@) == "Secure"@,
{
    reveal_strlit("Secure");
    reveal_strlit("secure");
    reveal_strlit("domain=");
    reveal_strlit("max-age=");
    reveal_strlit("path=");
    reveal_strlit("httponly");
    broadcast use lemma_lower_char_shape;

    let b = "Secure"@;
    let lb = lower(b);
    lemma_lower_len(b);
    assert(lb =~= "secure"@);
    assert(lb == "secure"@);
    assert(!"domain="@.is_prefix_of(lb)) by {
        if "domain="@.is_prefix_of(lb) {
            assert(lb[0] == "domain="@[0]);
            assert(false);
        }
    }
    assert(!"max-age="@.is_prefix_of(lb)) by {
        if "max-age="@.is_prefix_of(lb) {
            assert(lb[0] == "max-age="@[0]);
            assert(false);
        }
    }
    assert(!"path="@.is_prefix_of(lb)) by {
        if "path="@.is_prefix_of(lb) {
            assert(lb[0] == "path="@[0]);
            assert(false);
        }
    }
    assert(!"httponly"@.is_prefix_of(lb)) by {
        if "httponly"@.is_prefix_of(lb) {
            assert(lb[0] == "httponly"@[0]);
            assert(false);
        }
    }
    assert(b[0] == 'S');
    assert(b.last() == 'e');
    lemma_trim_identity(b);
}

/// Applying tokens one past the end is applying the last one last.
proof fn lemma_opts_from_push(x: OptionsView, s: Seq<Seq<char>>, t: Seq<char>)
    ensures
        opts_from(x, s.push(t)) == opts_apply(opts_from(x, s), t),
    decreases s.len(),
{
    if s.len() == 0 {
        assert(s.push(t).drop_first() =~= s);
        assert(opts_from(x, s.push(t)) == opts_from(opts_apply(x, t), s));
    } else {
        assert(s.push(t)[0] == s[0]);
        assert(s.push(t).drop_first() =~= s.drop_first().push(t));
        lemma_opts_from_push(opts_apply(x, s[0]), s.drop_first(), t);
    }
}

/// Appending `;` and a semicolon-free body adds one segment to the
/// split.
proof fn lemma_split_push_body(s: Seq<char>, toks: Seq<Seq<char>>, b: Seq<char>)
    requires
        split_on(s, ';') == toks,
        no_char(b, ';'),
    ensures
        split_on(s + (seq![';'] + b), ';') == toks.push(b),
{
    assert(s + (seq![';'] + b) =~= s + seq![';'] + b);
    lemma_split_concat(s, b, ';');
    lemma_split_no_sep(b, ';');
    assert(split_on(s, ';') + seq![b] =~= toks.push(b));
}

/// One optional segment, as a token list.
pub open spec fn opt_tok(b: Option<Seq<char>>) -> Seq<Seq<char>> {
    match b {
        Some(t) => seq![t],
        None => Seq::<Seq<char>>::empty(),
    }
}

/// One optional segment, as the text a formatter appends: a `;` and
/// the segment, or nothing.
pub open spec fn opt_piece(b: Option<Seq<char>>) -> Seq<char> {
    match b {
        Some(t) => seq![';'] + t,
        None => Seq::<char>::empty(),
    }
}

/// The `Domain` segment of an entry, if any.
pub open spec fn dom_body(o: OptionsView) -> Option<Seq<char>> {
    match o.domain {
        Some(d) => Some("Domain="@ + d),
        None => None,
    }
}

/// The `Max-Age` segment of an entry, if any.
pub open spec fn age_body(o: OptionsView) -> Option<Seq<char>> {
    match o.max_age {
        Some(m) => Some("Max-Age="@ + i64_dec(m as int)),
        None => None,
    }
}

/// The `Path` segment of an entry, if any.
pub open spec fn path_body(o: OptionsView) -> Option<Seq<char>> {
    match o.path {
        Some(p) => Some("Path="@ + p),
        None => None,
    }
}

/// The `SameSite` segment of an entry, if any.
pub open spec fn site_body(o: OptionsView) -> Option<Seq<char>> {
    match o.same_site {
        Some(ss) => Some("SameSite="@ + same_site_text(ss)),
        None => None,
    }
}

/// The `HttpOnly` segment of an entry, if any.
pub open spec fn honly_body(o: OptionsView) -> Option<Seq<char>> {
    if o.http_only {
        Some("HttpOnly"@)
    } else {
        None
    }
}

/// The `Secure` segment of an entry, if any.
pub open spec fn sec_body(o: OptionsView) -> Option<Seq<char>> {
    if o.secure {
        Some("Secure"@)
    } else {
        None
    }
}

/// The segments that formatting one entry lays out between the
/// semicolons, in order.
pub open spec fn fmt_tokens(k: Seq<char>, v: Seq<char>, o: OptionsView) -> Seq<Seq<char>> {
    seq![k + seq!['='] + v] + opt_tok(dom_body(o)) + opt_tok(age_body(o)) + opt_tok(
        path_body(o),
    ) + opt_tok(site_body(o)) + opt_tok(honly_body(o)) + opt_tok(sec_body(o))
}

/// The formatted line is the pair followed by each optional piece.
proof fn lemma_format_as_pieces(k: Seq<char>, v: Seq<char>, o: OptionsView)
    ensures
        spec_format_entry(k, v, o) == k + seq!['='] + v + opt_piece(dom_body(o)) + opt_piece(
            age_body(o),
        ) + opt_piece(path_body(o)) + opt_piece(site_body(o)) + opt_piece(honly_body(o))
            + opt_piece(sec_body(o)),
{
    reveal_strlit(";Domain=");
    reveal_strlit("Domain=");
    reveal_strlit(";Max-Age=");
    reveal_strlit("Max-Age=");
    reveal_strlit(";Path=");
    reveal_strlit("Path=");
    reveal_strlit(";SameSite=");
    reveal_strlit("SameSite=");
    reveal_strlit(";HttpOnly");
    reveal_strlit("HttpOnly");
    reveal_strlit(";Secure");
    reveal_strlit("Secure");
    match o.domain {
        Some(d) => {
            assert(";Domain="@ + d =~= opt_piece(dom_body(o)));
        },
        None => {
            assert(Seq::<char>::empty() =~= opt_piece(dom_body(o)));
        },
    }
    match o.max_age {
        Some(m) => {
            assert(";Max-Age="@ + i64_dec(m as int) =~= opt_piece(age_body(o)));
        },
        None => {
            assert(Seq::<char>::empty() =~= opt_piece(age_body(o)));
        },
    }
    match o.path {
        Some(p) => {
            assert(";Path="@ + p =~= opt_piece(path_body(o)));
        },
        None => {
            assert(Seq::<char>::empty() =~= opt_piece(path_body(o)));
        },
    }
    match o.same_site {
        Some(ss) => {
            assert(";SameSite="@ + same_site_text(ss) =~= opt_piece(site_body(o)));
        },
        None => {
            assert(Seq::<char>::empty() =~= opt_piece(site_body(o)));
        },
    }
    if o.http_only {
        assert(";HttpOnly"@ =~= opt_piece(honly_body(o)));
    } else {
        assert(Seq::<char>::empty() =~= opt_piece(honly_body(o)));
    }
    if o.secure {
        assert(";Secure"@ =~= opt_piece(sec_body(o)));
    } else {
        assert(Seq::<char>::empty() =~= opt_piece(sec_body(o)));
    }
}

/// Appending one optional piece extends the split by its token.
proof fn lemma_stage_split(s: Seq<char>, toks: Seq<Seq<char>>, b: Option<Seq<char>>)
    requires
        split_on(s, ';') == toks,
        match b {
            Some(t) => no_char(t, ';'),
            None => true,
        },
    ensures
        split_on(s + opt_piece(b), ';') == toks + opt_tok(b),
{
    match b {
        Some(t) => {
            assert(s + opt_piece(b) =~= s + (seq![';'] + t));
            lemma_split_push_body(s, toks, t);
            assert(toks.push(t) =~= toks + opt_tok(b));
        },
        None => {
            assert(s + opt_piece(b) =~= s);
            assert(toks + opt_tok(b) =~= toks);
        },
    }
}

/// Appending one optional token applies it last in the fold.
proof fn lemma_stage_opts(x: OptionsView, toks: Seq<Seq<char>>, b: Option<Seq<char>>)
    ensures
        match b {
            Some(t) => opts_from(x, toks + opt_tok(b)) == opts_apply(opts_from(x, toks), t),
            None => opts_from(x, toks + opt_tok(b)) == opts_from(x, toks),
        },
{
    match b {
        Some(t) => {
            assert(toks + opt_tok(b) =~= toks.push(t));
            lemma_opts_from_push(x, toks, t);
        },
        None => {
            assert(toks + opt_tok(b) =~= toks);
        },
    }
}

/// The pair token of a canonical entry is inert text: free of `;` and
/// stable under trimming.
proof fn lemma_pair_token_shape(k: Seq<char>, v: Seq<char>)
    requires
        no_char(k, ';'),
        no_char(v, ';'),
        k.len() > 0 ==> !is_space(k[0]),
        v.len() > 0 ==> !is_space(v.last()),
    ensures
        no_char(k + seq!['='] + v, ';'),
        trim(k + seq!['='] + v) == k + seq!['='] + v,
{
    let t0 = k + seq!['='] + v;
    assert(no_char(t0, ';')) by {
        assert(forall|i: int| 0 <= i < k.len() ==> t0[i] == k[i]);
        assert(t0[k.len() as int] == '=');
        assert(forall|i: int|
            k.len() + 1 <= i < t0.len() ==> t0[i] == v[i - k.len() - 1]);
    }
    if k.len() > 0 {
        assert(t0[0] == k[0]);
    } else {
        assert(t0[0] == '=');
    }
    if v.len() > 0 {
        assert(t0.last() == v.last());
    } else {
        assert(t0.last() == '=');
    }
    lemma_trim_identity(t0);
}

/// The formatted line splits into exactly the laid-out segments, and
/// each one trims to itself.
#[verifier::rlimit(100)]
#[verifier::spinoff_prover]
proof fn lemma_fmt_tokens_split(k: Seq<char>, v: Seq<char>, o: OptionsView)
    requires
        entry_stable(k, v, o),
    ensures
        split_on(spec_format_entry(k, v, o), ';') == fmt_tokens(k, v, o),
        forall|i: int|
            0 <= i < fmt_tokens(k, v, o).len() ==> trim(#[trigger] fmt_tokens(k, v, o)[i])
                == fmt_tokens(k, v, o)[i],
{
    let t0 = k + seq!['='] + v;
    lemma_pair_token_shape(k, v);
    lemma_split_no_sep(t0, ';');
    lemma_format_as_pieces(k, v, o);

    let d = default_options();
    match o.domain {
        Some(dm) => {
            lemma_body_domain(dm, d);
        },
        None => {},
    }
    match o.max_age {
        Some(m) => {
            lemma_body_max_age(m, d);
        },
        None => {},
    }
    match o.path {
        Some(p) => {
            lemma_body_path(p, d);
        },
        None => {},
    }
    match o.same_site {
        Some(ss) => {
            lemma_body_same_site(ss, d);
        },
        None => {},
    }
    lemma_body_http_only(d);
    lemma_body_secure(d);

    let s0 = t0;
    let toks0 = seq![t0];
    assert(forall|j: int| 0 <= j < toks0.len() ==> trim(#[trigger] toks0[j]) == toks0[j]);

    let s1 = s0 + opt_piece(dom_body(o));
    let toks1 = toks0 + opt_tok(dom_body(o));
    lemma_stage_split(s0, toks0, dom_body(o));
    assert forall|j: int| 0 <= j < toks1.len() implies trim(#[trigger] toks1[j]) == toks1[j] by {
        if j < toks0.len() {
            assert(toks1[j] == toks0[j]);
        } else {
            assert(toks1[j] == opt_tok(dom_body(o))[j - toks0.len()]);
        }
    }

    let s2 = s1 + opt_piece(age_body(o));
    let toks2 = toks1 + opt_tok(age_body(o));
    lemma_stage_split(s1, toks1, age_body(o));
    assert forall|j: int| 0 <= j < toks2.len() implies trim(#[trigger] toks2[j]) == toks2[j] by {
        if j < toks1.len() {
            assert(toks2[j] == toks1[j]);
        } else {
            assert(toks2[j] == opt_tok(age_body(o))[j - toks1.len()]);
        }
    }

    let s3 = s2 + opt_piece(path_body(o));
    let toks3 = toks2 + opt_tok(path_body(o));
    lemma_stage_split(s2, toks2, path_body(o));
    assert forall|j: int| 0 <= j < toks3.len() implies trim(#[trigger] toks3[j]) == toks3[j] by {
        if j < toks2.len() {
            assert(toks3[j] == toks2[j]);
        } else {
            assert(toks3[j] == opt_tok(path_body(o))[j - toks2.len()]);
        }
    }

    let s4 = s3 + opt_piece(site_body(o));
    let toks4 = toks3 + opt_tok(site_body(o));
    lemma_stage_split(s3, toks3, site_body(o));
    assert forall|j: int| 0 <= j < toks4.len() implies trim(#[trigger] toks4[j]) == toks4[j] by {
        if j < toks3.len() {
            assert(toks4[j] == toks3[j]);
        } else {
            assert(toks4[j] == opt_tok(site_body(o))[j - toks3.len()]);
        }
    }

    let s5 = s4 + opt_piece(honly_body(o));
    let toks5 = toks4 + opt_tok(honly_body(o));
    lemma_stage_split(s4, toks4, honly_body(o));
    assert forall|j: int| 0 <= j < toks5.len() implies trim(#[trigger] toks5[j]) == toks5[j] by {
        if j < toks4.len() {
            assert(toks5[j] == toks4[j]);
        } else {
            assert(toks5[j] == opt_tok(honly_body(o))[j - toks4.len()]);
        }
    }

    let s6 = s5 + opt_piece(sec_body(o));
    let toks6 = toks5 + opt_tok(sec_body(o));
    lemma_stage_split(s5, toks5, sec_body(o));
    assert forall|j: int| 0 <= j < toks6.len() implies trim(#[trigger] toks6[j]) == toks6[j] by {
        if j < toks5.len() {
            assert(toks6[j] == toks5[j]);
        } else {
            assert(toks6[j] == opt_tok(sec_body(o))[j - toks5.len()]);
        }
    }

    assert(spec_format_entry(k, v, o) == s6);
    assert(toks6 == fmt_tokens(k, v, o));
}

/// The attribute builder folds the laid-out segments back to exactly
/// the record they came from.
#[verifier::spinoff_prover]
proof fn lemma_fmt_tokens_opts(k: Seq<char>, v: Seq<char>, o: OptionsView)
    requires
        entry_stable(k, v, o),
    ensures
        opts_from(default_options(), fmt_tokens(k, v, o)) == o,
{
    let t0 = k + seq!['='] + v;
    let d = default_options();
    lemma_pair_token_apply(k, v, d);

    let toks0 = seq![t0];
    let x0 = opts_apply(d, t0);
    assert(opts_from(d, toks0) == x0) by {
        assert(toks0.drop_first() =~= Seq::<Seq<char>>::empty());
        assert(opts_from(x0, toks0.drop_first()) == x0);
    }

    let toks1 = toks0 + opt_tok(dom_body(o));
    lemma_stage_opts(d, toks0, dom_body(o));
    let x1 = match o.domain {
        Some(dm) => {
            lemma_body_domain(dm, x0);
            opts_apply(x0, "Domain="@ + dm)
        },
        None => x0,
    };
    assert(opts_from(d, toks1) == x1);

    let toks2 = toks1 + opt_tok(age_body(o));
    lemma_stage_opts(d, toks1, age_body(o));
    let x2 = match o.max_age {
        Some(m) => {
            lemma_body_max_age(m, x1);
            opts_apply(x1, "Max-Age="@ + i64_dec(m as int))
        },
        None => x1,
    };
    assert(opts_from(d, toks2) == x2);

    let toks3 = toks2 + opt_tok(path_body(o));
    lemma_stage_opts(d, toks2, path_body(o));
    let x3 = match o.path {
        Some(p) => {
            lemma_body_path(p, x2);
            opts_apply(x2, "Path="@ + p)
        },
        None => x2,
    };
    assert(opts_from(d, toks3) == x3);

    let toks4 = toks3 + opt_tok(site_body(o));
    lemma_stage_opts(d, toks3, site_body(o));
    let x4 = match o.same_site {
        Some(ss) => {
            lemma_body_same_site(ss, x3);
            opts_apply(x3, "SameSite="@ + same_site_text(ss))
        },
        None => x3,
    };
    assert(opts_from(d, toks4) == x4);

    let toks5 = toks4 + opt_tok(honly_body(o));
    lemma_stage_opts(d, toks4, honly_body(o));
    let x5 = if o.http_only {
        lemma_body_http_only(x4);
        opts_apply(x4, "HttpOnly"@)
    } else {
        x4
    };
    assert(opts_from(d, toks5) == x5);

    let toks6 = toks5 + opt_tok(sec_body(o));
    lemma_stage_opts(d, toks5, sec_body(o));
    let x6 = if o.secure {
        lemma_body_secure(x5);
        opts_apply(x5, "Secure"@)
    } else {
        x5
    };
    assert(opts_from(d, toks6) == x6);

    assert(toks6 == fmt_tokens(k, v, o));
    assert(x6 == o);
}

/// Formatting a canonical entry and parsing the line back yields
/// exactly that entry: the round trip over one `Set-Cookie` line.
#[verifier::spinoff_prover]
pub proof fn lemma_stable_entry_round(k: Seq<char>, v: Seq<char>, o: OptionsView)
    requires
        entry_stable(k, v, o),
    ensures
        spec_parse_set_cookie_line(spec_format_entry(k, v, o)) == Some((k, (v, o))),
{
    let line = spec_format_entry(k, v, o);
    let toks = fmt_tokens(k, v, o);
    let t0 = k + seq!['='] + v;
    lemma_fmt_tokens_split(k, v, o);
    lemma_fmt_tokens_opts(k, v, o);
    lemma_pair_token_apply(k, v, default_options());

    assert(token_list(line) =~= toks);

    assert(toks[0] == t0);
    assert(!spec_is_attr_token(toks[0]));
    assert(first_pair_index(toks) == Some(0int));

    assert(t0[k.len() as int] == '=');
    assert(forall|j: int| 0 <= j < k.len() ==> t0[j] == k[j] && t0[j] != '=');
    lemma_find_first_at(t0, '=', k.len() as int);
    assert(t0.take(k.len() as int) =~= k);
    assert(t0.skip(k.len() as int + 1) =~= v);

    assert(spec_options(toks) == o);
    assert(spec_parse_set_cookie_line(line) == Some((k, (v, o))));
}

/// A pair-shaped token is claimed by the classifier exactly when its
/// name is one of the three `name=` attribute words.
proof fn lemma_pair_token_classify(k: Seq<char>, v: Seq<char>)
    requires
        no_char(k, '='),
    ensures
        spec_is_attr_token(k + seq!['='] + v) == (lower(k) == "domain"@ || lower(k)
            == "max-age"@ || lower(k) == "path"@),
{
    reveal_strlit("domain=");
    reveal_strlit("max-age=");
    reveal_strlit("path=");
    reveal_strlit("httponly");
    reveal_strlit("secure");
    reveal_strlit("domain");
    reveal_strlit("max-age");
    reveal_strlit("path");
    broadcast use lemma_lower_char_shape;

    let t = k + seq!['='] + v;
    let l = lower(t);
    let kk = lower(k);
    let vv = lower(v);
    lemma_lower_len(k);
    lemma_lower_len(v);
    lemma_lower_len(t);
    lemma_lower_distributes(k + seq!['='], v);
    lemma_lower_distributes(k, seq!['=']);
    assert(lower(seq!['=']) =~= seq!['=']);
    assert(l =~= kk + seq!['='] + vv);
    let n = kk.len() as int;
    assert(forall|i: int| 0 <= i < n ==> kk[i] != '=');
    assert(l[n] == '=');
    assert(forall|i: int| 0 <= i < n ==> l[i] == kk[i]);

    assert("domain="@.is_prefix_of(l) == (kk == "domain"@)) by {
        if "domain="@.is_prefix_of(l) {
            assert(forall|i: int| 0 <= i < 7 ==> l[i] == "domain="@[i]);
            if n < 6 {
                assert(l[n] == "domain="@[n]);
                assert(false);
            } else if n > 6 {
                assert(l[6] == kk[6]);
                assert(false);
            } else {
                assert(kk =~= "domain"@);
            }
        }
        if kk == "domain"@ {
            assert("domain="@ =~= l.take(7));
        }
    }
    assert("max-age="@.is_prefix_of(l) == (kk == "max-age"@)) by {
        if "max-age="@.is_prefix_of(l) {
            assert(forall|i: int| 0 <= i < 8 ==> l[i] == "max-age="@[i]);
            if n < 7 {
                assert(l[n] == "max-age="@[n]);
                assert(false);
            } else if n > 7 {
                assert(l[7] == kk[7]);
                assert(false);
            } else {
                assert(kk =~= "max-age"@);
            }
        }
        if kk == "max-age"@ {
            assert("max-age="@ =~= l.take(8));
        }
    }
    assert("path="@.is_prefix_of(l) == (kk == "path"@)) by {
        if "path="@.is_prefix_of(l) {
            assert(forall|i: int| 0 <= i < 5 ==> l[i] == "path="@[i]);
            if n < 4 {
                assert(l[n] == "path="@[n]);
                assert(false);
            } else if n > 4 {
                assert(l[4] == kk[4]);
                assert(false);
            } else {
                assert(kk =~= "path"@);
            }
        }
        if kk == "path"@ {
            assert("path="@ =~= l.take(5));
        }
    }
    assert(l != "httponly"@) by {
        if l == "httponly"@ {
            assert(l[n] == "httponly"@[n]);
            assert(false);
        }
    }
    assert(l != "secure"@) by {
        if l == "secure"@ {
            assert(l[n] == "secure"@[n]);
            assert(false);
        }
    }
}

/// Attribute application never clears a flag, a set field, or a chosen
/// `SameSite` policy.
proof fn lemma_opts_apply_monotone(x: OptionsView, t: Seq<char>)
    ensures
        x.http_only ==> opts_apply(x, t).http_only,
        x.secure ==> opts_apply(x, t).secure,
        x.same_site is Some ==> opts_apply(x, t).same_site is Some,
        x.domain is Some ==> opts_apply(x, t).domain is Some,
        x.path is Some ==> opts_apply(x, t).path is Some,
        x.max_age is Some ==> opts_apply(x, t).max_age is Some,
{
}

/// Folding more tokens keeps everything monotone as well.
proof fn lemma_opts_from_monotone(x: OptionsView, ts: Seq<Seq<char>>)
    ensures
        x.http_only ==> opts_from(x, ts).http_only,
        x.secure ==> opts_from(x, ts).secure,
        x.same_site is Some ==> opts_from(x, ts).same_site is Some,
    decreases ts.len(),
{
    if ts.len() > 0 {
        lemma_opts_apply_monotone(x, ts[0]);
        lemma_opts_from_monotone(opts_apply(x, ts[0]), ts.drop_first());
    }
}

/// Folding a concatenation is folding one part after the other.
proof fn lemma_opts_from_concat(x: OptionsView, a: Seq<Seq<char>>, b: Seq<Seq<char>>)
    ensures
        opts_from(x, a + b) == opts_from(opts_from(x, a), b),
    decreases a.len(),
{
    if a.len() == 0 {
        assert(a + b =~= b);
    } else {
        assert((a + b)[0] == a[0]);
        assert((a + b).drop_first() =~= a.drop_first() + b);
        lemma_opts_from_concat(opts_apply(x, a[0]), a.drop_first(), b);
    }
}

/// Captured domain and path fields of a record are in canonical wire
/// form.
pub open spec fn opts_canonical(x: OptionsView) -> bool {
    &&& (match x.domain {
        Some(d) => no_char(d, ';') && lower(d) == d && (d.len() > 0 ==> !is_space(d.last())),
        None => true,
    })
    &&& (match x.path {
        Some(p) => no_char(p, ';') && lower(p) == p && p.len() > 0 && !is_space(p.last()),
        None => true,
    })
}

/// A token in wire shape keeps the record canonical.
proof fn lemma_opts_apply_canonical(x: OptionsView, t: Seq<char>)
    requires
        opts_canonical(x),
        no_char(t, ';'),
        t.len() > 0 ==> !is_space(t.last()),
    ensures
        opts_canonical(opts_apply(x, t)),
{
    reveal_strlit("domain=");
    reveal_strlit("path=");
    reveal_strlit("/");
    broadcast use lemma_lower_char_shape;

    let l = lower(t);
    lemma_lower_len(t);
    lemma_lower_idempotent(t);
    assert(no_char(l, ';'));
    assert(forall|i: int| 0 <= i < l.len() ==> lower_char(#[trigger] l[i]) == l[i]) by {
        lemma_lower_len(l);
    }
    if l.len() > 0 {
        assert(l.last() == lower_char(t.last()));
        assert(!is_space(l.last()));
    }
    if "domain="@.is_prefix_of(l) {
        let d = l.skip(7);
        assert(no_char(d, ';'));
        assert(lower(d) =~= d) by {
            lemma_lower_len(d);
        }
        if d.len() > 0 {
            assert(d.last() == l.last());
        }
    } else if "max-age="@.is_prefix_of(l) {
    } else if "path="@.is_prefix_of(l) {
        if l.len() == 5 {
            assert(no_char("/"@, ';'));
            assert(lower("/"@) =~= "/"@);
            assert("/"@.len() == 1);
            assert(!is_space("/"@.last()));
        } else {
            let p = l.skip(5);
            assert(no_char(p, ';'));
            assert(lower(p) =~= p) by {
                lemma_lower_len(p);
            }
            assert(p.len() > 0);
            assert(p.last() == l.last());
        }
    }
}

/// Folding tokens in wire shape keeps the record canonical.
proof fn lemma_opts_from_canonical(x: OptionsView, ts: Seq<Seq<char>>)
    requires
        opts_canonical(x),
        forall|i: int|
            0 <= i < ts.len() ==> no_char(#[trigger] ts[i], ';') && (ts[i].len() > 0
                ==> !is_space(ts[i].last())),
    ensures
        opts_canonical(opts_from(x, ts)),
    decreases ts.len(),
{
    if ts.len() > 0 {
        lemma_opts_apply_canonical(x, ts[0]);
        assert(forall|i: int|
            0 <= i < ts.drop_first().len() ==> ts.drop_first()[i] == ts[i + 1]);
        lemma_opts_from_canonical(opts_apply(x, ts[0]), ts.drop_first());
    }
}

/// Every token of a value is free of `;` and trimmed at both ends.
proof fn lemma_token_list_shape(raw: Seq<char>)
    ensures
        forall|i: int|
            0 <= i < token_list(raw).len() ==> no_char(#[trigger] token_list(raw)[i], ';') && (
            token_list(raw)[i].len() > 0 ==> !is_space(token_list(raw)[i][0]) && !is_space(
                token_list(raw)[i].last(),
            )),
{
    lemma_split_segments_free(raw, ';');
    assert forall|i: int|
        0 <= i < token_list(raw).len() implies no_char(#[trigger] token_list(raw)[i], ';') && (
        token_list(raw)[i].len() > 0 ==> !is_space(token_list(raw)[i][0]) && !is_space(
            token_list(raw)[i].last(),
        )) by {
        let seg = split_on(raw, ';')[i];
        assert(token_list(raw)[i] == trim(seg));
        assert(forall|x: int| 0 <= x < seg.len() ==> seg[x] != ';');
        lemma_trim_keeps_missing(seg, ';');
        lemma_trim_shape(seg);
    }
}

/// The properties of the index that `first_pair_index` names.
proof fn lemma_first_pair_props(toks: Seq<Seq<char>>)
    ensures
        match first_pair_index(toks) {
            Some(i) => 0 <= i < toks.len() && !spec_is_attr_token(toks[i]) && (forall|j: int|
                0 <= j < i ==> spec_is_attr_token(toks[j])),
            None => forall|j: int| 0 <= j < toks.len() ==> spec_is_attr_token(toks[j]),
        },
    decreases toks.len(),
{
    if toks.len() > 0 && spec_is_attr_token(toks[0]) {
        lemma_first_pair_props(toks.drop_first());
        match first_pair_index(toks.drop_first()) {
            Some(i) => {
                assert(toks.drop_first()[i] == toks[i + 1]);
                assert forall|j: int| 0 <= j < i + 1 implies spec_is_attr_token(toks[j]) by {
                    if j > 0 {
                        assert(spec_is_attr_token(toks.drop_first()[j - 1]));
                    }
                }
            },
            None => {
                assert forall|j: int|
                    0 <= j < toks.len() implies spec_is_attr_token(toks[j]) by {
                    if j > 0 {
                        assert(spec_is_attr_token(toks.drop_first()[j - 1]));
                    }
                }
            },
        }
    }
}

/// Whatever one `Set-Cookie` value parses to is in canonical wire
/// form: re-serializing and re-parsing it cannot change it.
#[verifier::rlimit(100)]
#[verifier::spinoff_prover]
pub proof fn lemma_parse_line_stable(raw: Seq<char>)
    ensures
        match spec_parse_set_cookie_line(raw) {
            Some(e) => entry_stable(e.0, e.1.0, e.1.1),
            None => true,
        },
{
    let toks = token_list(raw);
    lemma_token_list_shape(raw);
    lemma_first_pair_props(toks);
    if let Some(i) = first_pair_index(toks) {
        let tok = toks[i];
        crate::text::lemma_find_first(tok, '=');
        if let Some(j) = find_first(tok, '=') {
            let k = tok.take(j);
            let v = tok.skip(j + 1);
            let o = spec_options(toks);
            assert(tok =~= k + seq!['='] + v);
            assert(no_char(k, '='));
            assert(no_char(k, ';'));
            assert(no_char(v, ';'));
            if k.len() > 0 {
                assert(k[0] == tok[0]);
            }
            if v.len() > 0 {
                assert(v.last() == tok.last());
            }
            lemma_pair_token_classify(k, v);
            assert(lower(k) != "domain"@ && lower(k) != "max-age"@ && lower(k) != "path"@);

            // What the pair token itself switches on is already part
            // of the final record.
            let pre = opts_from(default_options(), toks.take(i));
            lemma_opts_from_concat(default_options(), toks.take(i + 1), toks.skip(i + 1));
            assert(toks.take(i + 1) + toks.skip(i + 1) =~= toks);
            lemma_opts_from_push(default_options(), toks.take(i), tok);
            assert(toks.take(i).push(tok) =~= toks.take(i + 1));
            let mid = opts_apply(pre, tok);
            assert(o == opts_from(mid, toks.skip(i + 1)));
            lemma_pair_token_apply(k, v, pre);
            lemma_opts_from_monotone(mid, toks.skip(i + 1));
            assert("httponly"@.is_prefix_of(lower(k)) ==> o.http_only);
            assert("secure"@.is_prefix_of(lower(k)) ==> o.secure);
            if lower(k) == "samesite"@ && o.same_site is None {
                assert(mid.same_site is None);
                assert(spec_same_site_of(lower(v)) is None);
            }

            // Captured fields are canonical.
            lemma_opts_from_canonical(default_options(), toks);
            assert(opts_canonical(o));
            assert(entry_stable(k, v, o));
        }
    }
}

/// The lines a store writes, one per entry, in stored order.
pub open spec fn store_lines(entries: Seq<(Seq<char>, (Seq<char>, OptionsView))>) -> Seq<
    Seq<char>,
> {
    entries.map_values(
        |e: (Seq<char>, (Seq<char>, OptionsView))| spec_format_entry(e.0, e.1.0, e.1.1),
    )
}

/// An entry in canonical wire form, as a predicate on whole entries.
pub open spec fn entry_stable_of(e: (Seq<char>, (Seq<char>, OptionsView))) -> bool {
    entry_stable(e.0, e.1.0, e.1.1)
}

/// Whatever a batch of values parses to has unique names and only
/// canonical entries.
proof fn lemma_store_from_stable(
    acc: Seq<(Seq<char>, (Seq<char>, OptionsView))>,
    raws: Seq<Seq<char>>,
)
    requires
        unique_keys(acc),
        forall|i: int| 0 <= i < acc.len() ==> entry_stable_of(#[trigger] acc[i]),
    ensures
        unique_keys(store_from(acc, raws)),
        forall|i: int|
            0 <= i < store_from(acc, raws).len() ==> entry_stable_of(
                #[trigger] store_from(acc, raws)[i],
            ),
    decreases raws.len(),
{
    if raws.len() > 0 {
        let acc2 = store_insert_line(acc, raws[0]);
        lemma_parse_line_stable(raws[0]);
        match spec_parse_set_cookie_line(raws[0]) {
            Some(e) => {
                crate::kv::lemma_upsert(acc, e.0, e.1);
                crate::kv::lemma_remove_key_subset(acc, e.0);
                assert forall|i: int|
                    0 <= i < acc2.len() implies entry_stable_of(#[trigger] acc2[i]) by {
                    let r = crate::kv::remove_key(acc, e.0);
                    if i < r.len() {
                        assert(acc2[i] == r[i]);
                        assert(acc.contains(r[i]));
                        let j = choose|j: int| 0 <= j < acc.len() && acc[j] == r[i];
                        assert(entry_stable_of(acc[j]));
                    } else {
                        assert(acc2[i] == (e.0, e.1));
                    }
                }
            },
            None => {},
        }
        lemma_store_from_stable(acc2, raws.drop_first());
    }
}

/// Parsing the lines of canonical, uniquely named entries appends them
/// untouched.
proof fn lemma_stable_store_round(
    acc: Seq<(Seq<char>, (Seq<char>, OptionsView))>,
    entries: Seq<(Seq<char>, (Seq<char>, OptionsView))>,
)
    requires
        unique_keys(acc + entries),
        forall|i: int| 0 <= i < entries.len() ==> entry_stable_of(#[trigger] entries[i]),
    ensures
        store_from(acc, store_lines(entries)) == acc + entries,
    decreases entries.len(),
{
    let lines = store_lines(entries);
    if entries.len() == 0 {
        assert(lines.len() == 0);
        assert(acc + entries =~= acc);
    } else {
        let e0 = entries[0];
        assert(entry_stable_of(e0));
        lemma_stable_entry_round(e0.0, e0.1.0, e0.1.1);
        assert(lines[0] == spec_format_entry(e0.0, e0.1.0, e0.1.1));
        assert(spec_parse_set_cookie_line(lines[0]) == Some((e0.0, (e0.1.0, e0.1.1))));
        let whole = acc + entries;
        assert forall|i: int| 0 <= i < acc.len() implies acc[i].0 != e0.0 by {
            assert(whole[i] == acc[i]);
            assert(whole[acc.len() as int] == e0);
        }
        crate::kv::lemma_remove_key(acc, e0.0);
        assert(crate::kv::remove_key(acc, e0.0) == acc);
        assert((e0.0, (e0.1.0, e0.1.1)) == e0);
        assert(store_insert_line(acc, lines[0]) == acc.push(e0));
        assert(acc.push(e0) + entries.drop_first() =~= acc + entries);
        assert(forall|i: int|
            0 <= i < entries.drop_first().len() ==> entries.drop_first()[i] == entries[i + 1]);
        lemma_stable_store_round(acc.push(e0), entries.drop_first());
        assert(lines.drop_first() =~= store_lines(entries.drop_first()));
        assert(store_from(acc, lines) == store_from(acc.push(e0), lines.drop_first()));
    }
}

/// Round trip of one entry: formatting a canonical entry and parsing
/// the line as a batch of one yields a store with exactly that entry.
pub proof fn lemma_format_parse_round_trip(k: Seq<char>, v: Seq<char>, o: OptionsView)
    requires
        entry_stable(k, v, o),
    ensures
        spec_parse_set_cookie_line(spec_format_entry(k, v, o)) == Some((k, (v, o))),
        spec_store(seq![spec_format_entry(k, v, o)]) == seq![(k, (v, o))],
{
    lemma_stable_entry_round(k, v, o);
    let line = spec_format_entry(k, v, o);
    let raws = seq![line];
    assert(raws[0] == line);
    let empty = Seq::<(Seq<char>, (Seq<char>, OptionsView))>::empty();
    crate::kv::lemma_remove_key(empty, k);
    let acc1 = store_insert_line(empty, line);
    assert(acc1 =~= seq![(k, (v, o))]);
    assert(raws.drop_first() =~= Seq::<Seq<char>>::empty());
    assert(spec_store(raws) == store_from(acc1, raws.drop_first()));
    assert(store_from(acc1, raws.drop_first()) == acc1);
}

/// Serializing a parsed store and parsing it again changes nothing:
/// one round of parsing already leaves every entry in canonical form.
pub proof fn lemma_store_round_trip(raws: Seq<Seq<char>>)
    ensures
        spec_store(store_lines(spec_store(raws))) == spec_store(raws),
{
    let s1 = spec_store(raws);
    let empty = Seq::<(Seq<char>, (Seq<char>, OptionsView))>::empty();
    lemma_store_from_stable(empty, raws);
    assert(empty + s1 =~= s1);
    lemma_stable_store_round(empty, s1);
}

} // verus!
