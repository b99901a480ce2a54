//! Social embeddings: the tweets and Instagram posts that a page quotes.

use vstd::prelude::*;

use crate::dom::{attr_of, subtree_end, text_of, Document, Tree};
use crate::predicate::{
    all_matches, find_all, find_first, first_match, indices, And, Child, ChildOf, Class, Name,
};
use crate::strings::{collapsed, from_chars, to_chars, trim, trimmed};

verus! {

/// A quoted post: where it lives and what it says.
#[derive(PartialEq, Debug, Clone)]
pub struct Embedding {
    pub url: String,
    pub text: String,
}

/// The mathematical form of `Embedding`.
pub struct EmbeddingModel {
    pub url: Seq<char>,
    pub text: Seq<char>,
}

impl View for Embedding {
    type V = EmbeddingModel;

    open spec fn view(&self) -> EmbeddingModel {
        EmbeddingModel { url: self.url@, text: self.text@ }
    }
}

impl Default for Embedding {
    fn default() -> (r: Self)
        ensures
            r@.url.len() == 0,
            r@.text.len() == 0,
    {
        Embedding { url: String::new(), text: String::new() }
    }
}

/// A list of embeddings as specifications see it.
pub open spec fn embeddings_view(list: Seq<Embedding>) -> Seq<EmbeddingModel> {
    Seq::new(list.len(), |k: int| list[k]@)
}

/// The pattern is the one for a run of two or more white-space characters,
/// and the replacement is one space.
pub open spec fn replaces_runs(pattern: Seq<char>, rep: Seq<char>) -> bool {
    pattern == "\\s\\s+"@ && rep == " "@
}

/// `Regex::new` and `Regex::replace_all` of the crate `regex`: compiles
/// `pattern` and replaces each of its matches in `text` by `rep`; nothing
/// comes back if `pattern` is no regular expression.
///
/// Of the one pattern that the library uses the contract says what comes
/// back. In `\s\s+` the class `\s` is the white space of Unicode and `+`
/// takes as many characters as it can, and matches are taken from left to
/// right without overlap: so each match is a whole run of two or more
/// white-space characters, and a white-space character that stands alone
/// is left as it is.
#[verifier::external_body]
fn regex_replace_all(pattern: &str, text: &str, rep: &str) -> (r: Option<String>)
    ensures
        replaces_runs(pattern@, rep@) ==> (r is Some && r->0@ == collapsed(text@)),
{
    match regex::Regex::new(pattern) {
        Ok(re) => Some(re.replace_all(text, rep).into_owned()),
        Err(_) => None,
    }
}

/// `text` without its leading and trailing white space and with each run
/// of two or more white-space characters inside it replaced by one space.
pub open spec fn sanitized(text: Seq<char>) -> Seq<char> {
    collapsed(trimmed(text))
}

/// Trims a text and collapses the runs of white space inside it.
pub fn sanitize(text: &str) -> (r: String)
    ensures
        r@ == sanitized(text@),
{
    let trimmed_text = from_chars(&trim(&to_chars(text)));
    match regex_replace_all("\\s\\s+", trimmed_text.as_str(), " ") {
        Some(collapsed_text) => collapsed_text,
        None => trimmed_text,
    }
}

/// The `href` of node `i`, or the empty string if it has none.
pub open spec fn href_of(t: Tree, i: int) -> Seq<char> {
    match attr_of(t, i, "href"@) {
        Some(href) => href,
        None => Seq::empty(),
    }
}

/// The `href` of a node, or the empty string if it has none.
pub fn get_href(document: &Document, node: usize) -> (r: String)
    requires
        node < document@.len(),
    ensures
        r@ == href_of(document@, node as int),
{
    match document.attr(node, "href") {
        Some(href) => href.to_owned(),
        None => String::new(),
    }
}

/// The sanitized text of the subtree of a node.
pub fn get_sanitized_text(document: &Document, node: usize) -> (r: String)
    requires
        node < document@.len(),
    ensures
        r@ == sanitized(text_of(document@, node as int)),
{
    sanitize(document.text(node).as_str())
}

/// The block quotes that embed a tweet, in document order.
pub open spec fn tweet_quotes(t: Tree) -> Seq<int> {
    all_matches(And(Name("blockquote"), Class("twitter-tweet")), t, 0, t.len() as int)
}

/// The tweet that the block quote `b` embeds: its text is the sanitized
/// text of the first paragraph below `b`, its URL the `href` of the first
/// anchor that is a child of `b`; what is missing is empty.
pub open spec fn tweet_at(t: Tree, b: int) -> EmbeddingModel {
    EmbeddingModel {
        url: match first_match(And(Name("a"), ChildOf(b as usize)), t, b + 1, subtree_end(t, b)) {
            Some(a) => href_of(t, a),
            None => Seq::empty(),
        },
        text: match first_match(Name("p"), t, b + 1, subtree_end(t, b)) {
            Some(p) => sanitized(text_of(t, p)),
            None => Seq::empty(),
        },
    }
}

/// The tweets that a document embeds, in document order.
pub open spec fn tweets(t: Tree) -> Seq<EmbeddingModel> {
    Seq::new(tweet_quotes(t).len(), |k: int| tweet_at(t, tweet_quotes(t)[k]))
}

/// Finds the tweets that a document embeds: one for each
/// `<blockquote class="twitter-tweet">`.
pub fn get_tweets(document: &Document) -> (r: Vec<Embedding>)
    ensures
        embeddings_view(r@) == tweets(document@),
{
    let ghost t = document@;
    let tags = find_all(
        document,
        &And(Name("blockquote"), Class("twitter-tweet")),
        0,
        document.len(),
    );
    let mut embeddings: Vec<Embedding> = Vec::new();
    let mut k: usize = 0;
    while k < tags.len()
        invariant
            k <= tags.len(),
            t == document@,
            indices(tags@) == tweet_quotes(t),
            forall|j: int| 0 <= j < tags@.len() ==> #[trigger] tags@[j] < t.len(),
            embeddings@.len() == k,
            forall|j: int|
                0 <= j < k ==> (#[trigger] embeddings@[j])@ == tweet_at(t, tweet_quotes(t)[j]),
        decreases tags.len() - k,
    {
        let tag = tags[k];
        assert(tweet_quotes(t)[k as int] == tag as int) by {
            assert(indices(tags@)[k as int] == tag as int);
        }
        let end = document.subtree_end(tag);
        let text = match find_first(document, &Name("p"), tag + 1, end) {
            Some(node) => get_sanitized_text(document, node),
            None => String::new(),
        };
        let url = match find_first(document, &And(Name("a"), ChildOf(tag)), tag + 1, end) {
            Some(node) => get_href(document, node),
            None => String::new(),
        };
        embeddings.push(Embedding { url, text });
        k = k + 1;
    }
    assert(embeddings_view(embeddings@) =~= tweets(t));
    embeddings
}

/// The block quotes that embed an Instagram post, in document order.
pub open spec fn instagram_quotes(t: Tree) -> Seq<int> {
    all_matches(And(Name("blockquote"), Class("instagram-media")), t, 0, t.len() as int)
}

/// The anchor that names the post of the block quote `b`: the first anchor
/// below `b` that is a child of a paragraph.
pub open spec fn instagram_link(t: Tree, b: int) -> Option<int> {
    first_match(Child(Name("p"), Name("a")), t, b + 1, subtree_end(t, b))
}

/// The post that the anchor `a` names: its `href` and its sanitized text.
pub open spec fn post_at(t: Tree, a: int) -> EmbeddingModel {
    EmbeddingModel { url: href_of(t, a), text: sanitized(text_of(t, a)) }
}

/// The posts of the first `k` Instagram block quotes; a block quote
/// without such an anchor has no post.
pub open spec fn instagram_upto(t: Tree, k: int) -> Seq<EmbeddingModel>
    decreases k,
{
    if k <= 0 {
        Seq::empty()
    } else {
        match instagram_link(t, instagram_quotes(t)[k - 1]) {
            Some(a) => instagram_upto(t, k - 1).push(post_at(t, a)),
            None => instagram_upto(t, k - 1),
        }
    }
}

/// The Instagram posts that a document embeds, in document order.
pub open spec fn instagram_posts(t: Tree) -> Seq<EmbeddingModel> {
    instagram_upto(t, instagram_quotes(t).len() as int)
}

/// Finds the Instagram posts that a document embeds: one for each
/// `<blockquote class="instagram-media">` that holds an anchor in a
/// paragraph.
pub fn get_instagram_posts(document: &Document) -> (r: Vec<Embedding>)
    ensures
        embeddings_view(r@) == instagram_posts(document@),
{
    let ghost t = document@;
    let tags = find_all(
        document,
        &And(Name("blockquote"), Class("instagram-media")),
        0,
        document.len(),
    );
    let mut embeddings: Vec<Embedding> = Vec::new();
    assert(embeddings_view(embeddings@) =~= instagram_upto(t, 0));
    let mut k: usize = 0;
    while k < tags.len()
        invariant
            k <= tags.len(),
            t == document@,
            indices(tags@) == instagram_quotes(t),
            forall|j: int| 0 <= j < tags@.len() ==> #[trigger] tags@[j] < t.len(),
            embeddings_view(embeddings@) == instagram_upto(t, k as int),
        decreases tags.len() - k,
    {
        let tag = tags[k];
        assert(instagram_quotes(t)[k as int] == tag as int) by {
            assert(indices(tags@)[k as int] == tag as int);
        }
        let end = document.subtree_end(tag);
        match find_first(document, &Child(Name("p"), Name("a")), tag + 1, end) {
            Some(node) => {
                let ghost before = embeddings_view(embeddings@);
                let post = Embedding {
                    url: get_href(document, node),
                    text: get_sanitized_text(document, node),
                };
                embeddings.push(post);
                assert(embeddings_view(embeddings@) =~= before.push(post_at(t, node as int)));
            },
            None => {},
        }
        k = k + 1;
    }
    embeddings
}

} // verus!
