//! The fields of an article, each drawn from a document by its chain of
//! extractors.

use vstd::prelude::*;

use crate::content::{
    cleaned_links, cleaned_text, get_cleaned_text_and_links, get_top_node, top_node,
};
use crate::dom::{Document, Tree};
use crate::strings::{
    find_from, first_occurrence, from_chars_range, lemma_first_occurrence, occurs_at, to_chars,
};
use crate::text::{
    extracted_or_empty, get_text_from_single_extractor, strings_view, DualTagBasedExtractor,
    LinkRelContainsHrefBasedExtractor, LinkRelEqualsHrefBasedExtractor,
    MetaContentBasedExtractor, Or, TagAttributeBasedExtractor, TagBasedExtractor,
    TopImageExtractor,
};

verus! {

/// The chain that finds a title: the `<title>` tag, then the `og:title`
/// meta tag, then a `<post-title>` or `<headline>` tag.
pub open spec fn title_chain() -> Or<
    Or<TagBasedExtractor, MetaContentBasedExtractor>,
    DualTagBasedExtractor,
> {
    Or(
        Or(
            TagBasedExtractor { tag: "title" },
            MetaContentBasedExtractor { attr: "property", value: "og:title" },
        ),
        DualTagBasedExtractor { tag1: "post-title", tag2: "headline" },
    )
}

/// The title of a document; empty if it has none.
pub open spec fn title_of(t: Tree) -> Seq<char> {
    extracted_or_empty(title_chain(), t)
}

/// The title as the document gives it.
pub fn get_raw_title(document: &Document) -> (r: String)
    ensures
        r@ == title_of(document@),
{
    let extractor = Or(
        Or(
            TagBasedExtractor { tag: "title" },
            MetaContentBasedExtractor { attr: "property", value: "og:title" },
        ),
        DualTagBasedExtractor { tag1: "post-title", tag2: "headline" },
    );
    get_text_from_single_extractor(document, extractor)
}

/// The title of a document; empty if it has none.
pub fn get_title(document: &Document) -> (r: String)
    ensures
        r@ == title_of(document@),
{
    get_raw_title(document)
}

/// The chain that finds a language: the `lang` attribute of `<html>`, then
/// the `content-language` meta tag.
pub open spec fn language_chain() -> Or<TagAttributeBasedExtractor, MetaContentBasedExtractor> {
    Or(
        TagAttributeBasedExtractor { tag: "html", attr: "lang" },
        MetaContentBasedExtractor { attr: "http-equiv", value: "content-language" },
    )
}

/// The primary subtag of a language tag: what stands before its first
/// hyphen, or all of it if it has none.
pub open spec fn primary_subtag(full: Seq<char>) -> Seq<char> {
    match first_occurrence(full, seq!['-'], 0) {
        Some(i) => full.take(i),
        None => full,
    }
}

/// The language of a document, without any region; empty if the document
/// names none.
pub open spec fn language_of(t: Tree) -> Seq<char> {
    primary_subtag(extracted_or_empty(language_chain(), t))
}

/// A primary subtag holds no hyphen.
pub proof fn lemma_primary_subtag_plain(full: Seq<char>)
    ensures
        !primary_subtag(full).contains('-'),
{
    let dash = seq!['-'];
    let r = primary_subtag(full);
    lemma_first_occurrence(full, dash, 0);
    assert forall|j: int| 0 <= j < r.len() implies r[j] != '-' by {
        if r[j] == '-' {
            assert(full.subrange(j, j + 1) =~= dash);
            assert(occurs_at(full, dash, j));
        }
    }
}

/// The language of a document, without any region: it holds no hyphen.
pub fn get_language(document: &Document) -> (r: String)
    ensures
        r@ == language_of(document@),
        !r@.contains('-'),
{
    let extractor = Or(
        TagAttributeBasedExtractor { tag: "html", attr: "lang" },
        MetaContentBasedExtractor { attr: "http-equiv", value: "content-language" },
    );
    let full_language = get_text_from_single_extractor(document, extractor);
    let chars = to_chars(full_language.as_str());
    let mut dash: Vec<char> = Vec::new();
    dash.push('-');
    assert(dash@ =~= seq!['-']);
    proof {
        lemma_primary_subtag_plain(full_language@);
        lemma_first_occurrence(full_language@, dash@, 0);
    }
    match find_from(&chars, &dash, 0) {
        Some(idx) => from_chars_range(&chars, 0, idx),
        None => full_language,
    }
}

/// The favicon of a document: the `href` of the first `<link>` whose `rel`
/// contains `" icon"`.
pub open spec fn favico_of(t: Tree) -> Seq<char> {
    extracted_or_empty(LinkRelContainsHrefBasedExtractor { attr: "rel", value: " icon" }, t)
}

/// The favicon of a document; empty if it has none.
pub fn get_favico(document: &Document) -> (r: String)
    ensures
        r@ == favico_of(document@),
{
    let extractor = LinkRelContainsHrefBasedExtractor { attr: "rel", value: " icon" };
    get_text_from_single_extractor(document, extractor)
}

/// The canonical link of a document: the `href` of the first
/// `<link rel="canonical">`.
pub open spec fn canonical_link_of(t: Tree) -> Seq<char> {
    extracted_or_empty(LinkRelEqualsHrefBasedExtractor { attr: "rel", value: "canonical" }, t)
}

/// The canonical link of a document; empty if it has none.
pub fn get_canonical_link(document: &Document) -> (r: String)
    ensures
        r@ == canonical_link_of(document@),
{
    let extractor = LinkRelEqualsHrefBasedExtractor { attr: "rel", value: "canonical" };
    get_text_from_single_extractor(document, extractor)
}

/// The keywords of a document: the `content` of the first
/// `<meta name="keywords">`.
pub open spec fn meta_keywords_of(t: Tree) -> Seq<char> {
    extracted_or_empty(MetaContentBasedExtractor { attr: "name", value: "keywords" }, t)
}

/// The keywords of a document; empty if it has none.
pub fn get_meta_keywords(document: &Document) -> (r: String)
    ensures
        r@ == meta_keywords_of(document@),
{
    let extractor = MetaContentBasedExtractor { attr: "name", value: "keywords" };
    get_text_from_single_extractor(document, extractor)
}

/// The representative image of a document.
pub open spec fn top_image_of(t: Tree) -> Seq<char> {
    extracted_or_empty(TopImageExtractor, t)
}

/// The representative image of a document; empty if it names none.
pub fn get_top_image(document: &Document) -> (r: String)
    ensures
        r@ == top_image_of(document@),
{
    let extractor = TopImageExtractor {  };
    get_text_from_single_extractor(document, extractor)
}

/// The body text of a document in the language `lang`: the cleaned text of
/// its top node, empty if it has no top node.
pub open spec fn body_text(t: Tree, lang: Seq<char>) -> Seq<char> {
    match top_node(t, lang) {
        Some(node) => cleaned_text(t, node),
        None => Seq::empty(),
    }
}

/// The links of a document in the language `lang`: the cleaned links of
/// its top node, none if it has no top node.
pub open spec fn body_links(t: Tree, lang: Seq<char>) -> Seq<Seq<char>> {
    match top_node(t, lang) {
        Some(node) => cleaned_links(t, node),
        None => Seq::empty(),
    }
}

/// The body text and the links of a document in the language `lang`.
pub fn get_text_and_links(document: &Document, lang: &str) -> (r: (String, Vec<String>))
    ensures
        r.0@ == body_text(document@, lang@),
        strings_view(r.1@) == body_links(document@, lang@),
{
    let top_node = get_top_node(document, lang);
    match top_node {
        Some(node) => get_cleaned_text_and_links(document, node, lang),
        None => {
            let links: Vec<String> = Vec::new();
            assert(strings_view(links@) =~= Seq::<Seq<char>>::empty());
            (String::new(), links)
        },
    }
}

} // verus!
