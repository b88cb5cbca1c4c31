//! Cookies: reading a `Cookie` header and writing a `Set-Cookie` value.
use vstd::prelude::*;

use crate::number::{decimal, decimal_string};
use crate::text::{
    chars_of, char_pos, find_char, pieces, same_text, spans_text, spans_within, split_on,
    substring, trim, trim_bounds,
};

verus! {

/// One `;`-separated piece of a cookie header: trimmed name and value
/// around the first `=`.
pub open spec fn cookie_pair_of(piece: Seq<char>) -> Option<(Seq<char>, Seq<char>)> {
    let k = char_pos(piece, '=');
    if k < piece.len() {
        Some((trim(piece.take(k as int)), trim(piece.skip(k + 1 as int))))
    } else {
        None
    }
}

/// The pairs of a cookie header, in order, or `None` when a piece has no `=`.
pub open spec fn cookie_pairs_of(ps: Seq<Seq<char>>, acc: Seq<(Seq<char>, Seq<char>)>) -> Option<
    Seq<(Seq<char>, Seq<char>)>,
>
    decreases ps.len(),
{
    if ps.len() == 0 {
        Some(acc)
    } else {
        match cookie_pair_of(ps[0]) {
            None => None,
            Some(p) => cookie_pairs_of(ps.drop_first(), acc.push(p)),
        }
    }
}

pub open spec fn pairs_view(v: Seq<(String, String)>) -> Seq<(Seq<char>, Seq<char>)> {
    v.map_values(|p: (String, String)| (p.0@, p.1@))
}

/// Reads a `Cookie` header value into its name-value pairs, in order.
/// Fails when a `;`-separated piece has no `=`.
pub fn parse_header(string: &str) -> (r: Result<Vec<(String, String)>, ()>)
    ensures
        match r {
            Ok(v) => cookie_pairs_of(pieces(string@, ';'), seq![]) == Some(pairs_view(v@)),
            Err(_) => cookie_pairs_of(pieces(string@, ';'), seq![]) is None,
        },
{
    let t = chars_of(string);
    let spans = split_on(&t, ';');
    let ghost ps = pieces(t@, ';');
    assert(spans_text(t@, spans@).len() == spans@.len());
    let mut out: Vec<(String, String)> = Vec::new();
    let mut k: usize = 0;
    assert(ps.skip(0) =~= ps);
    assert(pairs_view(out@) =~= Seq::<(Seq<char>, Seq<char>)>::empty());
    while k < spans.len()
        invariant
            k <= spans@.len(),
            t@ == string@,
            ps == pieces(t@, ';'),
            spans_text(t@, spans@) == ps,
            spans_within(spans@, 0, t@.len() as int),
            cookie_pairs_of(ps, seq![]) == cookie_pairs_of(ps.skip(k as int), pairs_view(out@)),
        decreases spans@.len() - k,
    {
        let (a, b) = spans[k];
        let ghost piece = t@.subrange(a as int, b as int);
        assert(ps.skip(k as int)[0] == piece);
        assert(ps.skip(k as int).drop_first() =~= ps.skip(k + 1));
        let e = find_char(&t, a, b, '=');
        if e == b {
            return Err(());
        }
        assert(piece.take(e - a) =~= t@.subrange(a as int, e as int));
        assert(piece.skip(e - a + 1) =~= t@.subrange(e + 1, b as int));
        let (ka, kb) = trim_bounds(&t, a, e);
        let (va, vb) = trim_bounds(&t, e + 1, b);
        let ghost before = pairs_view(out@);
        out.push((substring(&t, ka, kb), substring(&t, va, vb)));
        assert(pairs_view(out@) =~= before.push(
            (t@.subrange(ka as int, kb as int), t@.subrange(va as int, vb as int)),
        ));
        k = k + 1;
    }
    assert(ps.skip(k as int) =~= Seq::<Seq<char>>::empty());
    Ok(out)
}

/// The value that a cookie map holds for `name`: the last pair with that name wins.
pub open spec fn cookie_lookup(pairs: Seq<(Seq<char>, Seq<char>)>, name: Seq<char>) -> Option<
    Seq<char>,
>
    decreases pairs.len(),
{
    if pairs.len() == 0 {
        None
    } else if pairs.last().0 == name {
        Some(pairs.last().1)
    } else {
        cookie_lookup(pairs.drop_last(), name)
    }
}

/// The value of the cookie `name` among parsed pairs; a later pair overrides an earlier one.
pub fn cookie_value<'a>(pairs: &'a Vec<(String, String)>, name: &str) -> (r: Option<&'a str>)
    ensures
        match r {
            Some(v) => cookie_lookup(pairs_view(pairs@), name@) == Some(v@),
            None => cookie_lookup(pairs_view(pairs@), name@) is None,
        },
{
    let ghost pv = pairs_view(pairs@);
    let mut k: usize = pairs.len();
    assert(pv.take(k as int) =~= pv);
    while k > 0
        invariant
            k <= pairs@.len(),
            pv == pairs_view(pairs@),
            cookie_lookup(pv, name@) == cookie_lookup(pv.take(k as int), name@),
        decreases k,
    {
        assert(pv.take(k as int).last() == pv[k - 1]);
        assert(pv.take(k as int).drop_last() =~= pv.take(k - 1));
        if same_text(pairs[k - 1].0.as_str(), name) {
            return Some(pairs[k - 1].1.as_str());
        }
        k = k - 1;
    }
    None
}

/// The value of a `Set-Cookie` header under construction.
pub struct SetCookie {
    key: String,
    value: String,
    max_age: Option<u64>,
    secure: bool,
    httponly: bool,
    path: Option<String>,
}

pub struct SetCookieView {
    pub key: Seq<char>,
    pub value: Seq<char>,
    pub max_age: Option<u64>,
    pub secure: bool,
    pub httponly: bool,
    pub path: Option<Seq<char>>,
}

impl View for SetCookie {
    type V = SetCookieView;

    closed spec fn view(&self) -> SetCookieView {
        SetCookieView {
            key: self.key@,
            value: self.value@,
            max_age: self.max_age,
            secure: self.secure,
            httponly: self.httponly,
            path: match self.path {
                Some(p) => Some(p@),
                None => None,
            },
        }
    }
}

/// `key=value`, then `; Max-Age=<seconds>`, `; Secure`, `; HttpOnly` and
/// `; Path=<path>` for the attributes that are set.
pub open spec fn set_cookie_text(c: SetCookieView) -> Seq<char> {
    c.key + "="@ + c.value + match c.max_age {
        Some(s) => "; Max-Age="@ + decimal(s as nat),
        None => seq![],
    } + if c.secure {
        "; Secure"@
    } else {
        seq![]
    } + if c.httponly {
        "; HttpOnly"@
    } else {
        seq![]
    } + match c.path {
        Some(p) => "; Path="@ + p,
        None => seq![],
    }
}

impl SetCookie {
    /// A cookie `key=value`, secure and HTTP-only, with no max age and no path.
    pub fn new(key: String, value: String) -> (r: SetCookie)
        ensures
            r@ == (SetCookieView {
                key: key@,
                value: value@,
                max_age: None,
                secure: true,
                httponly: true,
                path: None,
            }),
    {
        SetCookie { key, value, max_age: None, secure: true, httponly: true, path: None }
    }

    pub fn secure(self, flag: bool) -> (r: SetCookie)
        ensures
            r@ == (SetCookieView { secure: flag, ..self@ }),
    {
        SetCookie { secure: flag, ..self }
    }

    pub fn httponly(self, flag: bool) -> (r: SetCookie)
        ensures
            r@ == (SetCookieView { httponly: flag, ..self@ }),
    {
        SetCookie { httponly: flag, ..self }
    }

    /// Sets the max age, in seconds.
    pub fn max_age(self, seconds: Option<u64>) -> (r: SetCookie)
        ensures
            r@ == (SetCookieView { max_age: seconds, ..self@ }),
    {
        SetCookie { max_age: seconds, ..self }
    }

    pub fn path(self, path: Option<String>) -> (r: SetCookie)
        ensures
            r@ == (SetCookieView {
                path: match path {
                    Some(p) => Some(p@),
                    None => None,
                },
                ..self@
            }),
    {
        SetCookie { path, ..self }
    }

    /// The header value.
    pub fn as_string(&self) -> (r: String)
        ensures
            r@ == set_cookie_text(self@),
    {
        let mut cookie = self.key.clone();
        cookie.append("=");
        cookie.append(self.value.as_str());
        if let Some(s) = self.max_age {
            cookie.append("; Max-Age=");
            let d = decimal_string(s);
            cookie.append(d.as_str());
        }
        if self.secure {
            cookie.append("; Secure");
        }
        if self.httponly {
            cookie.append("; HttpOnly");
        }
        if let Some(p) = &self.path {
            cookie.append("; Path=");
            cookie.append(p.as_str());
        }
        assert(cookie@ =~= set_cookie_text(self@));
        cookie
    }
}

} // verus!
