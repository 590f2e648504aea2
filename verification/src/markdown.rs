//! Text that is kept as Markdown.

use crate::text::{chars_of, replace_all, replaced, string_of, trim, trimmed};
use vstd::prelude::*;

verus! {

/// A piece of Markdown.
#[derive(Debug, PartialEq, Eq, PartialOrd, Ord)]
pub struct Markdown(pub String);

impl View for Markdown {
    type V = Seq<char>;

    open spec fn view(&self) -> Seq<char> {
        self.0@
    }
}

impl Clone for Markdown {
    fn clone(&self) -> (r: Self)
        ensures
            r == *self,
    {
        Markdown(self.0.clone())
    }
}

impl Default for Markdown {
    fn default() -> (r: Self)
        ensures
            r@ == Seq::<char>::empty(),
    {
        Markdown(String::new())
    }
}

/// The HTML that `pulldown_cmark` renders a piece of Markdown to.
pub uninterp spec fn markdown_as_html(md: Seq<char>) -> Seq<char>;

/// Renders Markdown as HTML: the events of `pulldown_cmark::Parser::new`,
/// written by `pulldown_cmark::html::push_html`.
#[verifier::external_body]
fn render_html(md: &str) -> (html: String)
    ensures
        html@ == markdown_as_html(md@),
{
    let parser = pulldown_cmark::Parser::new(md);
    let mut html_buf = String::new();
    pulldown_cmark::html::push_html(&mut html_buf, parser);
    html_buf
}

/// The Markdown that is kept for a piece of HTML, where a converter has made
/// `md` of the HTML: every two backslashes doubled, then a backslash put before every `\[`, then one
/// before every `\]` (mathematics needs them), and the whole trimmed.
pub open spec fn tidied(md: Seq<char>) -> Seq<char> {
    let a = replaced(md, seq!['\\', '\\'], seq!['\\', '\\', '\\', '\\']);
    let b = replaced(a, seq!['\\', '['], seq!['\\', '\\', '[']);
    let c = replaced(b, seq!['\\', ']'], seq!['\\', '\\', ']']);
    trimmed(c)
}

fn pair(a: char, b: char) -> (v: Vec<char>)
    ensures
        v@ == seq![a, b],
{
    let mut v: Vec<char> = Vec::new();
    v.push(a);
    v.push(b);
    assert(v@ =~= seq![a, b]);
    v
}

impl Markdown {
    /// The text `md`, taken as Markdown.
    pub fn new(md: &str) -> (m: Markdown)
        ensures
            m@ == md@,
    {
        Markdown(md.to_owned())
    }

    /// The length of the text in bytes (of its UTF-8 form).
    pub fn len(&self) -> (n: usize)
        ensures
            n == vstd::utf8::encode_utf8(self@).len() as usize,
    {
        self.0.as_str().len()
    }

    /// The Markdown that is kept for a piece of HTML, where a converter has
    /// made `md` of the HTML.
    pub fn tidy(md: &str) -> (m: Markdown)
        ensures
            m@ == tidied(md@),
    {
        let chars = chars_of(md);
        let mut two = pair('\\', '\\');
        let mut four = pair('\\', '\\');
        four.push('\\');
        four.push('\\');
        assert(four@ =~= seq!['\\', '\\', '\\', '\\']);
        let a = replace_all(&chars, &two, &four);
        two.push('[');
        assert(two@ =~= seq!['\\', '\\', '[']);
        let b = replace_all(&a, &pair('\\', '['), &two);
        two.pop();
        two.push(']');
        assert(two@ =~= seq!['\\', '\\', ']']);
        let c = replace_all(&b, &pair('\\', ']'), &two);
        let s = string_of(&c);
        Markdown(trim(s.as_str()))
    }


    /// The text as HTML.
    pub fn html(&self) -> (out: String)
        ensures
            out@ == markdown_as_html(self@),
    {
        render_html(self.0.as_str())
    }
}

impl From<&str> for Markdown {
    fn from(x: &str) -> (m: Self)
        ensures
            m@ == x@,
    {
        Markdown::new(x)
    }
}

impl vstd::std_specs::convert::FromSpecImpl<&str> for Markdown {
    open spec fn obeys_from_spec() -> bool {
        false
    }

    open spec fn from_spec(x: &str) -> Self {
        arbitrary()
    }
}

} // verus!
