//! Pages rendered from bempline templates and sent as responses.
use vstd::prelude::*;
use vstd::utf8::encode_utf8;

use bempline::Document;

use crate::request::Version;
use crate::response::{guess_mime, guessed_mime, opt_view, Response, ResponseView};
use crate::text::push_bytes;

verus! {

#[verifier::external_type_specification]
#[verifier::external_body]
pub struct ExDocument(Document);

/// Relies on bempline's `Document::set`: binds the variable `key` to `value`
/// for the next compile.
#[verifier::external_body]
fn document_set(document: &mut Document, key: &str, value: &str) {
    document.set(key, value)
}

/// Relies on bempline's `Document::compile`: the text with the variables
/// that are set filled in.
#[verifier::external_body]
fn document_compile(document: Document) -> (r: String) {
    document.compile()
}

/// A parsed template and the media type guessed from its file name.
pub struct Template {
    pub document: Document,
    pub guess: Option<String>,
}

/// The content type header of a rendered page, if its media type is known.
pub open spec fn page_headers(guess: Option<Seq<char>>) -> Seq<(Seq<char>, Seq<char>)> {
    match guess {
        Some(g) => seq![("content-type"@, g + "; charset=utf-8"@)],
        None => seq![],
    }
}

impl Template {
    /// Wraps a parsed document; the media type is guessed from `path`'s extension.
    pub fn from_document(document: Document, path: &str) -> (r: Template)
        ensures
            opt_view(r.guess) == guessed_mime(path@),
    {
        let guess = guess_mime(path);
        Template { document, guess }
    }

    /// Sets a template variable.
    pub fn set(&mut self, key: &str, value: &str)
        ensures
            final(self).guess == old(self).guess,
    {
        document_set(&mut self.document, key, value);
    }

    /// The rendered page as a 200 response, typed as UTF-8 text of the
    /// guessed media type when there is one.
    pub fn as_response(self) -> (r: Response)
        ensures
            exists|text: Seq<char>| r@ == page_response_of(opt_view(self.guess), text),
    {
        let text = document_compile(self.document);
        page_response(self.guess, text)
    }
}

/// The response that carries a rendered page.
pub open spec fn page_response_of(guess: Option<Seq<char>>, text: Seq<char>) -> ResponseView {
    ResponseView {
        version: Version::Http11,
        status: 200,
        headers: page_headers(guess),
        body: encode_utf8(text),
    }
}

/// Builds the response for the rendered text of a page whose media type
/// was guessed as `guess`.
pub fn page_response(guess: Option<String>, text: String) -> (r: Response)
    ensures
        r@ == page_response_of(opt_view(guess), text@),
{
    let ghost g = opt_view(guess);
    let mut headers: Vec<(String, String)> = Vec::new();
    if let Some(m) = guess {
        let mut value = m;
        value.append("; charset=utf-8");
        headers.push((String::from_str("content-type"), value));
    }
    let mut body: Vec<u8> = Vec::new();
    push_bytes(&mut body, text.as_str().as_bytes());
    assert(body@ =~= encode_utf8(text@));
    let r = Response { version: Version::Http11, status: 200, headers, body };
    assert(r@.headers =~= page_headers(g));
    r
}

} // verus!
