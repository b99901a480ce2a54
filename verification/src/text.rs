//! Field extractors: each one probes a document for one shape of tag or
//! attribute and yields the string found there, if any.

use vstd::prelude::*;

use crate::dom::{attr_of, name_of, text_of, Document, Tree};
use crate::predicate::{
    all_matches, find_all, find_first, first_match, indices, And, Attr, AttrContains, ImageTag,
    Name, Or as EitherNode, Predicate,
};
use crate::strings::str_eq;

verus! {

/// A strategy that yields one string from a document, or nothing.
pub trait TextExtractor {
    /// What the extractor yields on the document `t`.
    spec fn extracted(&self, t: Tree) -> Option<Seq<char>>;

    /// Probes `document`.
    fn extract(&self, document: &Document) -> (r: Option<String>)
        ensures
            r is Some <==> self.extracted(document@) is Some,
            r matches Some(s) ==> self.extracted(document@) == Some(s@),
    ;
}

/// The subtree text of the first node of `t` that passes `p`.
pub open spec fn first_text<P: Predicate>(p: P, t: Tree) -> Option<Seq<char>> {
    match first_match(p, t, 0, t.len() as int) {
        Some(i) => Some(text_of(t, i)),
        None => None,
    }
}

/// The attribute `key` of the first node of `t` that passes `p`; nothing if
/// no node passes or if that first node lacks the attribute.
pub open spec fn first_attr<P: Predicate>(p: P, t: Tree, key: Seq<char>) -> Option<Seq<char>> {
    match first_match(p, t, 0, t.len() as int) {
        Some(i) => attr_of(t, i, key),
        None => None,
    }
}

/// The subtree text of the first node that passes `p`.
fn extract_text<P: Predicate>(document: &Document, p: &P) -> (r: Option<String>)
    ensures
        r is Some <==> first_text(*p, document@) is Some,
        r matches Some(s) ==> first_text(*p, document@) == Some(s@),
{
    match find_first(document, p, 0, document.len()) {
        Some(i) => Some(document.text(i)),
        None => None,
    }
}

/// The attribute `key` of the first node that passes `p`.
fn extract_attr<P: Predicate>(document: &Document, p: &P, key: &str) -> (r: Option<String>)
    ensures
        r is Some <==> first_attr(*p, document@, key@) is Some,
        r matches Some(s) ==> first_attr(*p, document@, key@) == Some(s@),
{
    match find_first(document, p, 0, document.len()) {
        Some(i) => match document.attr(i, key) {
            Some(value) => Some(value.to_owned()),
            None => None,
        },
        None => None,
    }
}

/// Yields the subtree text of the first element named `tag`.
#[derive(Debug)]
pub struct TagBasedExtractor {
    pub tag: &'static str,
}

impl TextExtractor for TagBasedExtractor {
    open spec fn extracted(&self, t: Tree) -> Option<Seq<char>> {
        first_text(Name(self.tag), t)
    }

    fn extract(&self, document: &Document) -> (r: Option<String>) {
        extract_text(document, &Name(self.tag))
    }
}

/// Yields the subtree text of the first element named `tag1` or `tag2`.
#[derive(Debug)]
pub struct DualTagBasedExtractor {
    pub tag1: &'static str,
    pub tag2: &'static str,
}

impl TextExtractor for DualTagBasedExtractor {
    open spec fn extracted(&self, t: Tree) -> Option<Seq<char>> {
        first_text(EitherNode(Name(self.tag1), Name(self.tag2)), t)
    }

    fn extract(&self, document: &Document) -> (r: Option<String>) {
        extract_text(document, &EitherNode(Name(self.tag1), Name(self.tag2)))
    }
}

/// Yields the `content` of the first `<meta>` whose attribute `attr` has the
/// value `value`.
#[derive(Debug)]
pub struct MetaContentBasedExtractor {
    pub attr: &'static str,
    pub value: &'static str,
}

impl TextExtractor for MetaContentBasedExtractor {
    open spec fn extracted(&self, t: Tree) -> Option<Seq<char>> {
        first_attr(And(Name("meta"), Attr(self.attr, self.value)), t, "content"@)
    }

    fn extract(&self, document: &Document) -> (r: Option<String>) {
        extract_attr(document, &And(Name("meta"), Attr(self.attr, self.value)), "content")
    }
}

/// Yields the attribute `attr` of the first element named `tag`.
#[derive(Debug)]
pub struct TagAttributeBasedExtractor {
    pub tag: &'static str,
    pub attr: &'static str,
}

impl TextExtractor for TagAttributeBasedExtractor {
    open spec fn extracted(&self, t: Tree) -> Option<Seq<char>> {
        first_attr(Name(self.tag), t, self.attr@)
    }

    fn extract(&self, document: &Document) -> (r: Option<String>) {
        extract_attr(document, &Name(self.tag), self.attr)
    }
}

/// Yields the `href` of the first `<link>` whose attribute `attr` has the
/// value `value`.
#[derive(Debug)]
pub struct LinkRelEqualsHrefBasedExtractor {
    pub attr: &'static str,
    pub value: &'static str,
}

impl TextExtractor for LinkRelEqualsHrefBasedExtractor {
    open spec fn extracted(&self, t: Tree) -> Option<Seq<char>> {
        first_attr(And(Name("link"), Attr(self.attr, self.value)), t, "href"@)
    }

    fn extract(&self, document: &Document) -> (r: Option<String>) {
        extract_attr(document, &And(Name("link"), Attr(self.attr, self.value)), "href")
    }
}

/// Yields the `href` of the first `<link>` whose attribute `attr` has a
/// value that contains `value`.
#[derive(Debug)]
pub struct LinkRelContainsHrefBasedExtractor {
    pub attr: &'static str,
    pub value: &'static str,
}

impl TextExtractor for LinkRelContainsHrefBasedExtractor {
    open spec fn extracted(&self, t: Tree) -> Option<Seq<char>> {
        first_attr(And(Name("link"), AttrContains(self.attr, self.value)), t, "href"@)
    }

    fn extract(&self, document: &Document) -> (r: Option<String>) {
        extract_attr(document, &And(Name("link"), AttrContains(self.attr, self.value)), "href")
    }
}

/// Tries `.0`, and `.1` only if `.0` yields nothing.
pub struct Or<A, B>(pub A, pub B);

impl<A: TextExtractor, B: TextExtractor> TextExtractor for Or<A, B> {
    open spec fn extracted(&self, t: Tree) -> Option<Seq<char>> {
        match self.0.extracted(t) {
            Some(s) => Some(s),
            None => self.1.extracted(t),
        }
    }

    fn extract(&self, document: &Document) -> (r: Option<String>) {
        match self.0.extract(document) {
            Some(s) => Some(s),
            None => self.1.extract(document),
        }
    }
}

/// What the extractor yields, or the empty string if it yields nothing.
pub open spec fn extracted_or_empty<T: TextExtractor>(extractor: T, t: Tree) -> Seq<char> {
    match extractor.extracted(t) {
        Some(s) => s,
        None => Seq::empty(),
    }
}

/// Runs one extractor; the empty string stands for "nothing found".
pub fn get_text_from_single_extractor<T: TextExtractor>(document: &Document, extractor: T) -> (r:
    String)
    ensures
        r@ == extracted_or_empty(extractor, document@),
{
    match extractor.extract(document) {
        Some(s) => s,
        None => String::new(),
    }
}

/// The URL that a node passing `ImageTag` names: the `href` of a `<link>`,
/// the `content` of a `<meta>`; the empty string if the attribute is absent.
pub open spec fn image_url(t: Tree, i: int) -> Seq<char> {
    let key = if name_of(t, i) == Some("link"@) {
        "href"@
    } else {
        "content"@
    };
    match attr_of(t, i, key) {
        Some(url) => url,
        None => Seq::empty(),
    }
}

/// The image URLs that the document names, one for each node passing
/// `ImageTag`, in document order.
pub open spec fn image_urls(t: Tree) -> Seq<Seq<char>> {
    let nodes = all_matches(ImageTag, t, 0, t.len() as int);
    Seq::new(nodes.len(), |k: int| image_url(t, nodes[k]))
}

/// How often `u` occurs in `urls`.
pub open spec fn occurrences(urls: Seq<Seq<char>>, u: Seq<char>) -> nat
    decreases urls.len(),
{
    if urls.len() == 0 {
        0
    } else {
        occurrences(urls.drop_last(), u) + if urls.last() == u {
            1nat
        } else {
            0nat
        }
    }
}

/// `urls[i]` does not occur before index `i`.
pub open spec fn is_first(urls: Seq<Seq<char>>, i: int) -> bool {
    &&& 0 <= i < urls.len()
    &&& forall|j: int| 0 <= j < i ==> urls[j] != urls[i]
}

/// Index `w` holds the first occurrence of the most frequent URL; of
/// several URLs that are equally frequent, `w` holds the one that came
/// first.
pub open spec fn is_top(urls: Seq<Seq<char>>, w: int) -> bool {
    &&& is_first(urls, w)
    &&& forall|i: int|
        0 <= i < urls.len() ==> {
            &&& occurrences(urls, #[trigger] urls[i]) <= occurrences(urls, urls[w])
            &&& (occurrences(urls, urls[i]) == occurrences(urls, urls[w]) ==> w <= i)
        }
}

/// The winner among the first `n` URLs: going through them in order, a URL
/// at its first occurrence takes the lead only if it is strictly more
/// frequent in `urls` than the one that leads.
pub open spec fn top_upto(urls: Seq<Seq<char>>, n: int) -> Option<int>
    decreases n,
{
    if n <= 0 {
        None
    } else {
        let prev = top_upto(urls, n - 1);
        let i = n - 1;
        if is_first(urls, i) && (prev matches Some(w) ==> occurrences(urls, urls[i])
            > occurrences(urls, urls[w])) {
            Some(i)
        } else {
            prev
        }
    }
}

/// The index of the winning URL, if there is any URL.
pub open spec fn top_index(urls: Seq<Seq<char>>) -> Option<int> {
    top_upto(urls, urls.len() as int)
}

/// Every URL has a first occurrence.
proof fn lemma_has_first(urls: Seq<Seq<char>>, i: int) -> (f: int)
    requires
        0 <= i < urls.len(),
    ensures
        0 <= f <= i,
        is_first(urls, f),
        urls[f] == urls[i],
    decreases i,
{
    if is_first(urls, i) {
        i
    } else {
        let j = choose|j: int| 0 <= j < i && urls[j] == urls[i];
        lemma_has_first(urls, j)
    }
}

/// The winner among the first `n` URLs stands at a first occurrence, is at
/// least as frequent as any URL met so far, and comes before those that
/// are as frequent.
proof fn lemma_top_upto(urls: Seq<Seq<char>>, n: int)
    requires
        0 <= n <= urls.len(),
    ensures
        top_upto(urls, n) is None <==> n == 0,
        top_upto(urls, n) matches Some(w) ==> {
            &&& 0 <= w < n
            &&& is_first(urls, w)
            &&& forall|f: int|
                0 <= f < n && is_first(urls, f) ==> {
                    &&& occurrences(urls, #[trigger] urls[f]) <= occurrences(urls, urls[w])
                    &&& (occurrences(urls, urls[f]) == occurrences(urls, urls[w]) ==> w <= f)
                }
        },
    decreases n,
{
    if n > 0 {
        lemma_top_upto(urls, n - 1);
        if n == 1 {
            assert(is_first(urls, 0));
        }
    }
}

/// The winning URL is the most frequent one, and among equally frequent
/// URLs the one that was met first wins.
pub proof fn lemma_top_index(urls: Seq<Seq<char>>)
    ensures
        top_index(urls) is None <==> urls.len() == 0,
        top_index(urls) matches Some(w) ==> is_top(urls, w),
{
    lemma_top_upto(urls, urls.len() as int);
    if top_index(urls) is Some {
        let w = top_index(urls)->0;
        assert forall|i: int| 0 <= i < urls.len() implies {
            &&& occurrences(urls, #[trigger] urls[i]) <= occurrences(urls, urls[w])
            &&& (occurrences(urls, urls[i]) == occurrences(urls, urls[w]) ==> w <= i)
        } by {
            let f = lemma_has_first(urls, i);
            assert(occurrences(urls, urls[f]) <= occurrences(urls, urls[w]));
        }
    }
}

/// A list of strings as specifications see it.
pub open spec fn strings_view(v: Seq<String>) -> Seq<Seq<char>> {
    Seq::new(v.len(), |k: int| v[k]@)
}

/// How often `u` occurs in `urls`.
fn count_occurrences(urls: &Vec<String>, u: &str) -> (n: usize)
    ensures
        n == occurrences(strings_view(urls@), u@),
{
    let ghost all = strings_view(urls@);
    let mut n: usize = 0;
    let mut k: usize = 0;
    while k < urls.len()
        invariant
            k <= urls.len(),
            all == strings_view(urls@),
            n <= k,
            n == occurrences(all.take(k as int), u@),
        decreases urls.len() - k,
    {
        assert(all.take(k + 1).drop_last() =~= all.take(k as int));
        if str_eq(urls[k].as_str(), u) {
            n = n + 1;
        }
        k = k + 1;
    }
    assert(all.take(urls.len() as int) =~= all);
    n
}

/// Whether `urls[i]` does not occur before index `i`.
fn first_occurrence_at(urls: &Vec<String>, i: usize) -> (r: bool)
    requires
        i < urls.len(),
    ensures
        r == is_first(strings_view(urls@), i as int),
{
    let mut j: usize = 0;
    while j < i
        invariant
            j <= i < urls.len(),
            forall|k: int| 0 <= k < j ==> strings_view(urls@)[k] != strings_view(urls@)[i as int],
        decreases i - j,
    {
        if str_eq(urls[j].as_str(), urls[i].as_str()) {
            assert(strings_view(urls@)[j as int] == strings_view(urls@)[i as int]);
            return false;
        }
        j = j + 1;
    }
    true
}

/// The index of the winning URL of `urls`.
pub fn most_frequent(urls: &Vec<String>) -> (r: Option<usize>)
    ensures
        r is Some <==> top_index(strings_view(urls@)) is Some,
        r matches Some(w) ==> top_index(strings_view(urls@)) == Some(w as int) && w < urls.len(),
{
    let ghost all = strings_view(urls@);
    let mut best: Option<usize> = None;
    let mut best_count: usize = 0;
    let mut i: usize = 0;
    while i < urls.len()
        invariant
            i <= urls.len(),
            all == strings_view(urls@),
            best is Some <==> top_upto(all, i as int) is Some,
            best matches Some(w) ==> top_upto(all, i as int) == Some(w as int) && w < i
                && best_count == occurrences(all, all[w as int]),
        decreases urls.len() - i,
    {
        if first_occurrence_at(urls, i) {
            let count = count_occurrences(urls, urls[i].as_str());
            let leads = match best {
                Some(_) => count > best_count,
                None => true,
            };
            if leads {
                best = Some(i);
                best_count = count;
            }
        }
        i = i + 1;
    }
    best
}

/// Yields the image URL that the document names most often; of several
/// that it names equally often, the one it names first.
#[derive(Debug)]
pub struct TopImageExtractor;

impl TextExtractor for TopImageExtractor {
    open spec fn extracted(&self, t: Tree) -> Option<Seq<char>> {
        match top_index(image_urls(t)) {
            Some(w) => Some(image_urls(t)[w]),
            None => None,
        }
    }

    fn extract(&self, document: &Document) -> (r: Option<String>) {
        let nodes = find_all(document, &ImageTag, 0, document.len());
        let ghost model = all_matches(ImageTag, document@, 0, document@.len() as int);
        let mut urls: Vec<String> = Vec::new();
        let mut k: usize = 0;
        while k < nodes.len()
            invariant
                k <= nodes.len(),
                indices(nodes@) == model,
                model == all_matches(ImageTag, document@, 0, document@.len() as int),
                forall|j: int| 0 <= j < nodes@.len() ==> #[trigger] nodes@[j] < document@.len(),
                strings_view(urls@) == image_urls(document@).take(k as int),
            decreases nodes.len() - k,
        {
            let i = nodes[k];
            assert(indices(nodes@)[k as int] == i as int);
            let key = if Name("link").matches(document, i) {
                "href"
            } else {
                "content"
            };
            let url = match document.attr(i, key) {
                Some(value) => value.to_owned(),
                None => String::new(),
            };
            assert(url@ == image_url(document@, i as int));
            let ghost before = strings_view(urls@);
            urls.push(url);
            assert(strings_view(urls@) =~= before.push(url@));
            assert(image_urls(document@).take(k + 1) =~= image_urls(document@).take(
                k as int,
            ).push(image_url(document@, model[k as int])));
            k = k + 1;
        }
        assert(image_urls(document@).take(nodes.len() as int) =~= image_urls(document@));
        match most_frequent(&urls) {
            Some(w) => Some(urls[w].clone()),
            None => None,
        }
    }
}

/// What `TitleTagExtractor` yields: a text, and whether it is a title.
pub struct TextExtraction {
    pub successful: bool,
    pub text: String,
}

/// Yields the subtree text of the first `<title>`; an empty text is no
/// title.
pub struct TitleTagExtractor;

impl TitleTagExtractor {
    /// Probes `document` for its title.
    pub fn extract(&self, document: &Document) -> (r: TextExtraction)
        ensures
            r.text@ == extracted_or_empty(TagBasedExtractor { tag: "title" }, document@),
            r.successful == (r.text@.len() > 0),
    {
        let text = get_text_from_single_extractor(document, TagBasedExtractor { tag: "title" });
        TextExtraction { successful: !text.as_str().is_empty(), text }
    }
}

} // verus!
