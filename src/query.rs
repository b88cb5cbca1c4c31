//! Query strings: flags and key-value pairs, and the percent-encoding codec.
use vstd::prelude::*;
use vstd::utf8::{decode_utf8, encode_utf8, valid_utf8};

use crate::text::{
    char_pos, push_bytes, string_from_utf8,
    chars_of, find_char, pieces, same_text, spans_text, spans_within, split_on, string_of,
    substring,
};

verus! {

/// One parameter of a query: a bare flag or a key with its decoded value.
#[derive(Clone, Debug, PartialEq, Eq)]
pub enum Parameter {
    Bool(String),
    Value(String, String),
}

pub enum ParameterView {
    Bool(Seq<char>),
    Value(Seq<char>, Seq<char>),
}

impl View for Parameter {
    type V = ParameterView;

    open spec fn view(&self) -> ParameterView {
        match self {
            Parameter::Bool(k) => ParameterView::Bool(k@),
            Parameter::Value(k, v) => ParameterView::Value(k@, v@),
        }
    }
}

/// Why a query string could not be read.
#[derive(Clone, Copy, Debug, PartialEq, Eq, Structural)]
pub enum QueryParseError {
    /// Percent-decoding gave bytes that are not UTF-8.
    InvalidUtf8,
}

impl QueryParseError {
    /// A sentence that describes the failure.
    pub fn message(&self) -> (r: String)
        ensures
            r@ == "the query did not resolve to valid utf8"@,
    {
        String::from_str("the query did not resolve to valid utf8")
    }
}

/// The parameters of a query string, in order.
#[derive(Debug)]
pub struct Query {
    parameters: Vec<Parameter>,
}

impl View for Query {
    type V = Seq<ParameterView>;

    closed spec fn view(&self) -> Seq<ParameterView> {
        self.parameters@.map_values(|p: Parameter| p@)
    }
}

pub open spec fn is_hex_char(c: char) -> bool {
    ('0' <= c && c <= '9') || ('a' <= c && c <= 'f') || ('A' <= c && c <= 'F')
}

pub open spec fn hex_char_value(c: char) -> nat {
    if c <= '9' {
        (c as u32 - '0' as u32) as nat
    } else if c <= 'F' {
        (c as u32 - 'A' as u32 + 10) as nat
    } else {
        (c as u32 - 'a' as u32 + 10) as nat
    }
}

/// The bytes that percent-decoding `s` gives: `%xx` is the byte `xx`, `+`
/// is a space when `plus_as_space` holds, and anything else stands for its
/// own UTF-8 bytes (a `%` without two hex digits included).
pub open spec fn decoded_bytes(s: Seq<char>, plus_as_space: bool) -> Seq<u8>
    decreases s.len(),
{
    if s.len() == 0 {
        seq![]
    } else if s[0] == '+' {
        seq![if plus_as_space { 32u8 } else { 43u8 }] + decoded_bytes(s.drop_first(), plus_as_space)
    } else if s[0] == '%' {
        if s.len() >= 3 && is_hex_char(s[1]) && is_hex_char(s[2]) {
            seq![(hex_char_value(s[1]) * 16 + hex_char_value(s[2])) as u8] + decoded_bytes(
                s.skip(3),
                plus_as_space,
            )
        } else if s.len() >= 2 && is_hex_char(s[1]) {
            seq![37u8] + encode_utf8(seq![s[1]]) + decoded_bytes(s.skip(2), plus_as_space)
        } else {
            seq![37u8] + decoded_bytes(s.drop_first(), plus_as_space)
        }
    } else {
        encode_utf8(seq![s[0]]) + decoded_bytes(s.drop_first(), plus_as_space)
    }
}

/// What `url_decode` gives for `s`.
pub open spec fn url_decoded(s: Seq<char>, plus_as_space: bool) -> Result<Seq<char>, QueryParseError> {
    if valid_utf8(decoded_bytes(s, plus_as_space)) {
        Ok(decode_utf8(decoded_bytes(s, plus_as_space)))
    } else {
        Err(QueryParseError::InvalidUtf8)
    }
}

/// The characters that `url_encode` writes as `%xx`: all but the printable
/// ASCII characters, and the reserved ones among those.
pub open spec fn must_encode(c: char) -> bool {
    !('!' <= c && c <= '~') || c == '!' || c == '#' || c == '$' || c == '%' || c == '\'' || c
        == '(' || c == ')' || c == '*' || c == '+' || c == ',' || c == '/' || c == ':' || c == ';'
        || c == '=' || c == '?' || c == '@' || c == '[' || c == ']'
}

pub open spec fn hex_lower(d: nat) -> char {
    if d < 10 {
        ((d + 48) as u8) as char
    } else {
        ((d + 87) as u8) as char
    }
}

/// `%xx` with lower-case hex digits for each byte.
pub open spec fn percent_bytes(b: Seq<u8>) -> Seq<char>
    decreases b.len(),
{
    if b.len() == 0 {
        seq![]
    } else {
        seq!['%', hex_lower((b[0] / 16) as nat), hex_lower((b[0] % 16) as nat)] + percent_bytes(
            b.drop_first(),
        )
    }
}

/// What `url_encode` gives for `s`.
pub open spec fn url_encoded(s: Seq<char>) -> Seq<char>
    decreases s.len(),
{
    if s.len() == 0 {
        seq![]
    } else if must_encode(s[0]) {
        percent_bytes(encode_utf8(seq![s[0]])) + url_encoded(s.drop_first())
    } else {
        seq![s[0]] + url_encoded(s.drop_first())
    }
}

/// One `&`-separated piece of a query: a pair when it holds `=`, whose value
/// is percent-decoded with `+` as space, else a flag.
pub open spec fn parameter_of(seg: Seq<char>) -> Result<ParameterView, QueryParseError> {
    let k = char_pos(seg, '=');
    if k < seg.len() {
        match url_decoded(seg.skip(k + 1 as int), true) {
            Ok(v) => Ok(ParameterView::Value(seg.take(k as int), v)),
            Err(e) => Err(e),
        }
    } else {
        Ok(ParameterView::Bool(seg))
    }
}

/// Reads the pieces `segs` in order after the parameters `acc`; the first failure stops it.
pub open spec fn parameters_of(segs: Seq<Seq<char>>, acc: Seq<ParameterView>) -> Result<
    Seq<ParameterView>,
    QueryParseError,
>
    decreases segs.len(),
{
    if segs.len() == 0 {
        Ok(acc)
    } else {
        match parameter_of(segs[0]) {
            Err(e) => Err(e),
            Ok(p) => parameters_of(segs.drop_first(), acc.push(p)),
        }
    }
}

/// The parameters of the query string `s`.
pub open spec fn query_of(s: Seq<char>) -> Result<Seq<ParameterView>, QueryParseError> {
    parameters_of(pieces(s, '&'), seq![])
}

fn hex_char_in(c: char) -> (r: Option<u8>)
    ensures
        r is Some <==> is_hex_char(c),
        r matches Some(v) ==> v == hex_char_value(c) && v < 16,
{
    if '0' <= c && c <= '9' {
        Some((c as u32 - '0' as u32) as u8)
    } else if 'A' <= c && c <= 'F' {
        Some((c as u32 - 'A' as u32 + 10) as u8)
    } else if 'a' <= c && c <= 'f' {
        Some((c as u32 - 'a' as u32 + 10) as u8)
    } else {
        None
    }
}

impl Query {
    /// The UTF-8 bytes of `c`.
    fn char_bytes(c: char) -> (r: Vec<u8>)
        ensures
            r@ == encode_utf8(seq![c]),
    {
        let v = c as u32;
        let mut out: Vec<u8> = Vec::new();
        if v <= 0x7F {
            out.push((v & 0x7F) as u8);
        } else if v <= 0x7FF {
            out.push(0xC0 | ((v >> 6) & 0x1F) as u8);
            out.push(0x80 | (v & 0x3F) as u8);
        } else if v <= 0xFFFF && !(0xD800 <= v && v <= 0xDFFF) {
            out.push(0xE0 | ((v >> 12) & 0x0F) as u8);
            out.push(0x80 | ((v >> 6) & 0x3F) as u8);
            out.push(0x80 | (v & 0x3F) as u8);
        } else {
            out.push(0xF0 | ((v >> 18) & 0x7) as u8);
            out.push(0x80 | ((v >> 12) & 0x3F) as u8);
            out.push(0x80 | ((v >> 6) & 0x3F) as u8);
            out.push(0x80 | (v & 0x3F) as u8);
        }
        assert(seq![c].drop_first() =~= Seq::<char>::empty());
        assert(encode_utf8(seq![c]) == vstd::utf8::encode_scalar(c as u32) + encode_utf8(
            Seq::<char>::empty(),
        ));
        assert(out@ =~= encode_utf8(seq![c]));
        out
    }

    /// Whether some parameter, flag or pair, has the name `key`.
    pub fn has(&self, key: &str) -> (r: bool)
        ensures
            r == exists|i: int|
                0 <= i < self@.len() && match #[trigger] self@[i] {
                    ParameterView::Bool(k) => k == key@,
                    ParameterView::Value(k, _) => k == key@,
                },
    {
        let mut i: usize = 0;
        while i < self.parameters.len()
            invariant
                i <= self@.len() == self.parameters@.len(),
                forall|j: int|
                    0 <= j < i ==> match #[trigger] self@[j] {
                        ParameterView::Bool(k) => k != key@,
                        ParameterView::Value(k, _) => k != key@,
                    },
            decreases self.parameters@.len() - i,
        {
            assert(self@[i as int] == self.parameters@[i as int]@);
            match &self.parameters[i] {
                Parameter::Bool(k) => {
                    if same_text(k.as_str(), key) {
                        return true;
                    }
                },
                Parameter::Value(k, _) => {
                    if same_text(k.as_str(), key) {
                        return true;
                    }
                },
            }
            i = i + 1;
        }
        false
    }

    /// Whether some key-value pair has the key `key`.
    pub fn has_value(&self, key: &str) -> (r: bool)
        ensures
            r == exists|i: int|
                0 <= i < self@.len() && (#[trigger] self@[i] matches ParameterView::Value(k, _)
                    && k == key@),
    {
        let mut i: usize = 0;
        while i < self.parameters.len()
            invariant
                i <= self@.len() == self.parameters@.len(),
                forall|j: int|
                    0 <= j < i ==> !(#[trigger] self@[j] matches ParameterView::Value(k, _) && k
                        == key@),
            decreases self.parameters@.len() - i,
        {
            assert(self@[i as int] == self.parameters@[i as int]@);
            if let Parameter::Value(k, _) = &self.parameters[i] {
                if same_text(k.as_str(), key) {
                    return true;
                }
            }
            i = i + 1;
        }
        false
    }

    /// Whether some flag has the name `name`.
    pub fn has_bool(&self, name: &str) -> (r: bool)
        ensures
            r == exists|i: int|
                0 <= i < self@.len() && (#[trigger] self@[i] matches ParameterView::Bool(k) && k
                    == name@),
    {
        let mut i: usize = 0;
        while i < self.parameters.len()
            invariant
                i <= self@.len() == self.parameters@.len(),
                forall|j: int|
                    0 <= j < i ==> !(#[trigger] self@[j] matches ParameterView::Bool(k) && k
                        == name@),
            decreases self.parameters@.len() - i,
        {
            assert(self@[i as int] == self.parameters@[i as int]@);
            if let Parameter::Bool(k) = &self.parameters[i] {
                if same_text(k.as_str(), name) {
                    return true;
                }
            }
            i = i + 1;
        }
        false
    }

    /// The value of the first key-value pair with the key `search`.
    pub fn get_first_value(&self, search: &str) -> (r: Option<&str>)
        ensures
            match r {
                None => forall|i: int|
                    0 <= i < self@.len() ==> !(#[trigger] self@[i] matches ParameterView::Value(
                        k,
                        _,
                    ) && k == search@),
                Some(v) => exists|i: int|
                    0 <= i < self@.len() && (#[trigger] self@[i] matches ParameterView::Value(
                        k,
                        w,
                    ) && k == search@ && w == v@) && forall|j: int|
                        0 <= j < i ==> !(#[trigger] self@[j] matches ParameterView::Value(k, _)
                            && k == search@),
            },
    {
        let mut i: usize = 0;
        while i < self.parameters.len()
            invariant
                i <= self@.len() == self.parameters@.len(),
                forall|j: int|
                    0 <= j < i ==> !(#[trigger] self@[j] matches ParameterView::Value(k, _) && k
                        == search@),
            decreases self.parameters@.len() - i,
        {
            assert(self@[i as int] == self.parameters@[i as int]@);
            if let Parameter::Value(k, v) = &self.parameters[i] {
                if same_text(k.as_str(), search) {
                    return Some(v.as_str());
                }
            }
            i = i + 1;
        }
        None
    }

    /// Percent-decodes `urlencoded`; with `plus_as_space`, a `+` becomes a
    /// space (an encoded `%2B` stays a plus).
    pub fn url_decode(urlencoded: &str, plus_as_space: bool) -> (r: Result<String, QueryParseError>)
        ensures
            match r {
                Ok(s) => url_decoded(urlencoded@, plus_as_space) == Ok::<
                    Seq<char>,
                    QueryParseError,
                >(s@),
                Err(e) => url_decoded(urlencoded@, plus_as_space) == Err::<
                    Seq<char>,
                    QueryParseError,
                >(e),
            },
    {
        let s = chars_of(urlencoded);
        let n = s.len();
        let mut out: Vec<u8> = Vec::new();
        let mut i: usize = 0;
        assert(s@.skip(0) =~= s@);
        assert(out@ + decoded_bytes(s@, plus_as_space) =~= decoded_bytes(s@, plus_as_space));
        while i < n
            invariant
                i <= n == s@.len(),
                s@ == urlencoded@,
                decoded_bytes(s@, plus_as_space) == out@ + decoded_bytes(
                    s@.skip(i as int),
                    plus_as_space,
                ),
            decreases n - i,
        {
            let ghost rest = s@.skip(i as int);
            let ghost before = out@;
            let c = s[i];
            if c == '+' {
                out.push(if plus_as_space { 32u8 } else { 43u8 });
                assert(rest.drop_first() =~= s@.skip(i + 1));
                i = i + 1;
            } else if c == '%' {
                let up = if n - i >= 2 { hex_char_in(s[i + 1]) } else { None };
                match up {
                    None => {
                        out.push(37u8);
                        assert(rest.drop_first() =~= s@.skip(i + 1));
                        i = i + 1;
                    },
                    Some(u) => {
                        let low = if n - i >= 3 { hex_char_in(s[i + 2]) } else { None };
                        match low {
                            Some(l) => {
                                out.push(u * 16 + l);
                                assert(rest.skip(3) =~= s@.skip(i + 3));
                                i = i + 3;
                            },
                            None => {
                                out.push(37u8);
                                let b = Self::char_bytes(s[i + 1]);
                                push_bytes(&mut out, b.as_slice());
                                assert(rest.skip(2) =~= s@.skip(i + 2));
                                i = i + 2;
                            },
                        }
                    },
                }
            } else {
                let b = Self::char_bytes(c);
                push_bytes(&mut out, b.as_slice());
                assert(rest.drop_first() =~= s@.skip(i + 1));
                i = i + 1;
            }
            assert(decoded_bytes(s@, plus_as_space) =~= out@ + decoded_bytes(
                s@.skip(i as int),
                plus_as_space,
            ));
        }
        assert(s@.skip(n as int) =~= Seq::<char>::empty());
        assert(out@ =~= decoded_bytes(s@, plus_as_space));
        match string_from_utf8(out) {
            Some(t) => Ok(t),
            None => Err(QueryParseError::InvalidUtf8),
        }
    }

    /// Percent-encodes `raw`: every byte of a character outside printable
    /// ASCII, or of one of `! # $ % ' ( ) * + , / : ; = ? @ [ ]`, becomes
    /// `%xx` with lower-case hex digits.
    pub fn url_encode(raw: &str) -> (r: String)
        ensures
            r@ == url_encoded(raw@),
    {
        let s = chars_of(raw);
        let n = s.len();
        let mut out: Vec<char> = Vec::new();
        let mut i: usize = 0;
        assert(s@.skip(0) =~= s@);
        assert(out@ + url_encoded(s@) =~= url_encoded(s@));
        while i < n
            invariant
                i <= n == s@.len(),
                s@ == raw@,
                url_encoded(s@) == out@ + url_encoded(s@.skip(i as int)),
            decreases n - i,
        {
            let ghost rest = s@.skip(i as int);
            let c = s[i];
            let enc = !('!' <= c && c <= '~') || c == '!' || c == '#' || c == '$' || c == '%' || c
                == '\'' || c == '(' || c == ')' || c == '*' || c == '+' || c == ',' || c == '/' || c
                == ':' || c == ';' || c == '=' || c == '?' || c == '@' || c == '[' || c == ']';
            if enc {
                let b = Self::char_bytes(c);
                let ghost start = out@;
                let mut k: usize = 0;
                assert(b@.skip(0) =~= b@);
                assert(start + percent_bytes(b@) =~= out@ + percent_bytes(b@.skip(0)));
                while k < b.len()
                    invariant
                        k <= b@.len(),
                        start + percent_bytes(b@) == out@ + percent_bytes(b@.skip(k as int)),
                    decreases b@.len() - k,
                {
                    let x = b[k];
                    out.push('%');
                    out.push(Self::hex_digit(x / 16));
                    out.push(Self::hex_digit(x % 16));
                    assert(b@.skip(k as int).drop_first() =~= b@.skip(k + 1));
                    assert(start + percent_bytes(b@) =~= out@ + percent_bytes(b@.skip(k + 1)));
                    k = k + 1;
                }
                assert(b@.skip(k as int) =~= Seq::<u8>::empty());
            } else {
                out.push(c);
            }
            assert(rest.drop_first() =~= s@.skip(i + 1));
            assert(url_encoded(s@) =~= out@ + url_encoded(s@.skip(i + 1)));
            i = i + 1;
        }
        assert(s@.skip(n as int) =~= Seq::<char>::empty());
        assert(out@ =~= url_encoded(raw@));
        string_of(out.as_slice())
    }

    fn hex_digit(d: u8) -> (r: char)
        requires
            d < 16,
        ensures
            r == hex_lower(d as nat),
    {
        if d < 10 {
            (d + 48) as char
        } else {
            (d + 87) as char
        }
    }
}

impl Query {
    /// Reads a query string: `&`-separated flags and `key=value` pairs.
    pub fn parse(s: &str) -> (r: Result<Query, QueryParseError>)
        ensures
            match r {
                Ok(q) => query_of(s@) == Ok::<Seq<ParameterView>, QueryParseError>(q@),
                Err(e) => query_of(s@) == Err::<Seq<ParameterView>, QueryParseError>(e),
            },
    {
        let t = chars_of(s);
        let spans = split_on(&t, '&');
        let ghost segs = pieces(t@, '&');
        assert(spans_text(t@, spans@).len() == spans@.len());
        let mut parameters: Vec<Parameter> = Vec::new();
        let mut k: usize = 0;
        assert(segs.skip(0) =~= segs);
        assert(parameters@.map_values(|p: Parameter| p@) =~= Seq::<ParameterView>::empty());
        while k < spans.len()
            invariant
                k <= spans@.len(),
                t@ == s@,
                segs == pieces(t@, '&'),
                spans_text(t@, spans@) == segs,
                spans_within(spans@, 0, t@.len() as int),
                query_of(s@) == parameters_of(
                    segs.skip(k as int),
                    parameters@.map_values(|p: Parameter| p@),
                ),
            decreases spans@.len() - k,
        {
            let (a, b) = spans[k];
            let ghost seg = t@.subrange(a as int, b as int);
            assert(segs.skip(k as int)[0] == seg);
            assert(segs.skip(k as int).drop_first() =~= segs.skip(k + 1));
            let e = find_char(&t, a, b, '=');
            let ghost before = parameters@.map_values(|p: Parameter| p@);
            if e < b {
                let key = substring(&t, a, e);
                let raw = substring(&t, e + 1, b);
                assert(seg.take(e - a) =~= key@);
                assert(seg.skip(e - a + 1) =~= raw@);
                match Self::url_decode(raw.as_str(), true) {
                    Ok(v) => {
                        parameters.push(Parameter::Value(key, v));
                    },
                    Err(err) => {
                        return Err(err);
                    },
                }
            } else {
                assert(seg =~= t@.subrange(a as int, b as int));
                parameters.push(Parameter::Bool(substring(&t, a, b)));
            }
            assert(parameters@.map_values(|p: Parameter| p@) =~= before.push(
                parameters@.last()@,
            ));
            k = k + 1;
        }
        assert(segs.skip(k as int) =~= Seq::<Seq<char>>::empty());
        Ok(Query { parameters })
    }

    /// The parameters, in order.
    pub fn into_parameters(self) -> (r: Vec<Parameter>)
        ensures
            r@.map_values(|p: Parameter| p@) == self@,
    {
        self.parameters
    }
}

impl std::str::FromStr for Query {
    type Err = QueryParseError;

    fn from_str(s: &str) -> Result<Query, QueryParseError> {
        Query::parse(s)
    }
}

} // verus!
