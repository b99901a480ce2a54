//! Tests on single nodes, and searches for the nodes that pass one.

use vstd::prelude::*;

use crate::dom::{attr_of, name_of, Document, Tree};
use crate::strings::{contains, contains_sub, contains_word, has_word, str_eq, to_chars};

verus! {

/// A test on a node of a document.
pub trait Predicate {
    /// Whether node `i` of `t` passes the test.
    spec fn holds(&self, t: Tree, i: int) -> bool;

    /// Whether node `index` of `document` passes the test.
    fn matches(&self, document: &Document, index: usize) -> (r: bool)
        requires
            index < document@.len(),
        ensures
            r == self.holds(document@, index as int),
    ;
}

/// Passes elements with the given tag name.
#[derive(Copy, Clone, Debug, PartialEq)]
pub struct Name<'a>(pub &'a str);

impl<'a> Predicate for Name<'a> {
    open spec fn holds(&self, t: Tree, i: int) -> bool {
        name_of(t, i) == Some(self.0@)
    }

    fn matches(&self, document: &Document, index: usize) -> (r: bool) {
        match document.name(index) {
            Some(name) => {
                let r = str_eq(name, self.0);
                assert(r == self.holds(document@, index as int));
                r
            },
            None => false,
        }
    }
}

/// Passes elements whose attribute `.0` has exactly the value `.1`.
#[derive(Copy, Clone, Debug, PartialEq)]
pub struct Attr<'a>(pub &'a str, pub &'a str);

impl<'a> Predicate for Attr<'a> {
    open spec fn holds(&self, t: Tree, i: int) -> bool {
        attr_of(t, i, self.0@) == Some(self.1@)
    }

    fn matches(&self, document: &Document, index: usize) -> (r: bool) {
        match document.attr(index, self.0) {
            Some(value) => str_eq(value, self.1),
            None => false,
        }
    }
}

/// Passes elements that have an attribute `.0`, whatever its value.
#[derive(Copy, Clone, Debug, PartialEq)]
pub struct HasAttr<'a>(pub &'a str);

impl<'a> Predicate for HasAttr<'a> {
    open spec fn holds(&self, t: Tree, i: int) -> bool {
        attr_of(t, i, self.0@) is Some
    }

    fn matches(&self, document: &Document, index: usize) -> (r: bool) {
        document.attr(index, self.0).is_some()
    }
}

/// Passes elements whose attribute `.0` has a value that contains `.1`.
#[derive(Copy, Clone, Debug, PartialEq)]
pub struct AttrContains<'a>(pub &'a str, pub &'a str);

impl<'a> Predicate for AttrContains<'a> {
    open spec fn holds(&self, t: Tree, i: int) -> bool {
        attr_of(t, i, self.0@) matches Some(value) && contains_sub(value, self.1@)
    }

    fn matches(&self, document: &Document, index: usize) -> (r: bool) {
        match document.attr(index, self.0) {
            Some(value) => contains(&to_chars(value), &to_chars(self.1)),
            None => false,
        }
    }
}

/// Passes elements whose `class` attribute lists the given class among the
/// words that white space parts it into.
#[derive(Copy, Clone, Debug, PartialEq)]
pub struct Class<'a>(pub &'a str);

impl<'a> Predicate for Class<'a> {
    open spec fn holds(&self, t: Tree, i: int) -> bool {
        attr_of(t, i, "class"@) matches Some(classes) && has_word(classes, self.0@)
    }

    fn matches(&self, document: &Document, index: usize) -> (r: bool) {
        match document.attr(index, "class") {
            Some(classes) => contains_word(&to_chars(classes), &to_chars(self.0)),
            None => false,
        }
    }
}

/// Passes text nodes.
#[derive(Copy, Clone, Debug, PartialEq)]
pub struct Text;

impl Predicate for Text {
    open spec fn holds(&self, t: Tree, i: int) -> bool {
        t[i].data is Text
    }

    fn matches(&self, document: &Document, index: usize) -> (r: bool) {
        document.as_text(index).is_some()
    }
}

/// Passes the nodes that pass either test.
pub struct Or<A, B>(pub A, pub B);

impl<A: Predicate, B: Predicate> Predicate for Or<A, B> {
    open spec fn holds(&self, t: Tree, i: int) -> bool {
        self.0.holds(t, i) || self.1.holds(t, i)
    }

    fn matches(&self, document: &Document, index: usize) -> (r: bool) {
        self.0.matches(document, index) || self.1.matches(document, index)
    }
}

/// Passes the nodes that pass both tests.
pub struct And<A, B>(pub A, pub B);

impl<A: Predicate, B: Predicate> Predicate for And<A, B> {
    open spec fn holds(&self, t: Tree, i: int) -> bool {
        self.0.holds(t, i) && self.1.holds(t, i)
    }

    fn matches(&self, document: &Document, index: usize) -> (r: bool) {
        self.0.matches(document, index) && self.1.matches(document, index)
    }
}

/// Passes the nodes that pass `.1` and whose parent passes `.0`.
pub struct Child<A, B>(pub A, pub B);

impl<A: Predicate, B: Predicate> Predicate for Child<A, B> {
    open spec fn holds(&self, t: Tree, i: int) -> bool {
        t[i].parent matches Some(p) && self.1.holds(t, i) && self.0.holds(t, p)
    }

    fn matches(&self, document: &Document, index: usize) -> (r: bool) {
        match document.parent(index) {
            Some(parent) => self.1.matches(document, index) && self.0.matches(document, parent),
            None => false,
        }
    }
}

/// Passes the children of the node `.0`.
#[derive(Copy, Clone, Debug, PartialEq)]
pub struct ChildOf(pub usize);

impl Predicate for ChildOf {
    open spec fn holds(&self, t: Tree, i: int) -> bool {
        t[i].parent == Some(self.0 as int)
    }

    fn matches(&self, document: &Document, index: usize) -> (r: bool) {
        match document.parent(index) {
            Some(parent) => parent == self.0,
            None => false,
        }
    }
}

/// Passes the nodes that name the representative image of a page:
/// `<link rel="image_src">`, `<meta property="og:image">`,
/// `<meta name="twitter:image">` and `<meta name="twitter:image:src">`.
#[derive(Copy, Clone, Debug, PartialEq)]
pub struct ImageTag;

impl Predicate for ImageTag {
    open spec fn holds(&self, t: Tree, i: int) -> bool {
        if name_of(t, i) == Some("link"@) {
            attr_of(t, i, "rel"@) == Some("image_src"@)
        } else if name_of(t, i) == Some("meta"@) {
            ||| attr_of(t, i, "property"@) == Some("og:image"@)
            ||| attr_of(t, i, "name"@) == Some("twitter:image"@)
            ||| attr_of(t, i, "name"@) == Some("twitter:image:src"@)
        } else {
            false
        }
    }

    fn matches(&self, document: &Document, index: usize) -> (r: bool) {
        if Name("link").matches(document, index) {
            Attr("rel", "image_src").matches(document, index)
        } else if Name("meta").matches(document, index) {
            Attr("property", "og:image").matches(document, index) || Attr(
                "name",
                "twitter:image",
            ).matches(document, index) || Attr("name", "twitter:image:src").matches(
                document,
                index,
            )
        } else {
            false
        }
    }
}

/// Passes the anchors that carry a link: elements `a` with an attribute
/// `href`.
#[derive(Copy, Clone, Debug, PartialEq)]
pub struct ImageWithLink();

impl Predicate for ImageWithLink {
    open spec fn holds(&self, t: Tree, i: int) -> bool {
        name_of(t, i) == Some("a"@) && attr_of(t, i, "href"@) is Some
    }

    fn matches(&self, document: &Document, index: usize) -> (r: bool) {
        Name("a").matches(document, index) && document.attr(index, "href").is_some()
    }
}

/// The first node among `lo .. hi` that passes `p`.
pub open spec fn first_match<P: Predicate>(p: P, t: Tree, lo: int, hi: int) -> Option<int>
    decreases hi - lo,
{
    if lo >= hi {
        None
    } else if p.holds(t, lo) {
        Some(lo)
    } else {
        first_match(p, t, lo + 1, hi)
    }
}

/// The nodes among `lo .. hi` that pass `p`, in document order.
pub open spec fn all_matches<P: Predicate>(p: P, t: Tree, lo: int, hi: int) -> Seq<int>
    decreases hi - lo,
{
    if lo >= hi {
        Seq::empty()
    } else if p.holds(t, hi - 1) {
        all_matches(p, t, lo, hi - 1).push(hi - 1)
    } else {
        all_matches(p, t, lo, hi - 1)
    }
}

/// A list of node indices as specifications see it.
pub open spec fn indices(v: Seq<usize>) -> Seq<int> {
    Seq::new(v.len(), |k: int| v[k] as int)
}

/// Finds the first node among `lo .. hi` that passes `p`.
pub fn find_first<P: Predicate>(document: &Document, p: &P, lo: usize, hi: usize) -> (r: Option<
    usize,
>)
    requires
        lo <= hi <= document@.len(),
    ensures
        r is Some <==> first_match(*p, document@, lo as int, hi as int) is Some,
        r matches Some(i) ==> first_match(*p, document@, lo as int, hi as int) == Some(i as int)
            && lo <= i < hi,
{
    let mut k: usize = lo;
    while k < hi
        invariant
            lo <= k <= hi <= document@.len(),
            first_match(*p, document@, lo as int, hi as int) == first_match(
                *p,
                document@,
                k as int,
                hi as int,
            ),
        decreases hi - k,
    {
        if p.matches(document, k) {
            return Some(k);
        }
        k = k + 1;
    }
    None
}

/// Finds the nodes among `lo .. hi` that pass `p`, in document order.
pub fn find_all<P: Predicate>(document: &Document, p: &P, lo: usize, hi: usize) -> (r: Vec<usize>)
    requires
        lo <= hi <= document@.len(),
    ensures
        indices(r@) == all_matches(*p, document@, lo as int, hi as int),
        forall|k: int| 0 <= k < r@.len() ==> lo <= #[trigger] r@[k] < hi,
        forall|j: int, k: int| 0 <= j < k < r@.len() ==> r@[j] < r@[k],
        r@.len() <= hi - lo,
{
    let mut out: Vec<usize> = Vec::new();
    let mut k: usize = lo;
    while k < hi
        invariant
            lo <= k <= hi <= document@.len(),
            indices(out@) == all_matches(*p, document@, lo as int, k as int),
            forall|j: int| 0 <= j < out@.len() ==> lo <= #[trigger] out@[j] < k,
            forall|i: int, j: int| 0 <= i < j < out@.len() ==> out@[i] < out@[j],
            out@.len() <= k - lo,
        decreases hi - k,
    {
        if p.matches(document, k) {
            out.push(k);
            assert(indices(out@) =~= all_matches(*p, document@, lo as int, k as int).push(
                k as int,
            ));
        }
        k = k + 1;
    }
    out
}

/// `all_matches` holds exactly the nodes of the range that pass the test,
/// each once, in ascending order.
pub proof fn lemma_all_matches<P: Predicate>(p: P, t: Tree, lo: int, hi: int)
    ensures
        forall|k: int|
            0 <= k < all_matches(p, t, lo, hi).len() ==> {
                let i = #[trigger] all_matches(p, t, lo, hi)[k];
                lo <= i < hi && p.holds(t, i)
            },
        forall|j: int, k: int|
            0 <= j < k < all_matches(p, t, lo, hi).len() ==> all_matches(p, t, lo, hi)[j]
                < all_matches(p, t, lo, hi)[k],
        forall|i: int| lo <= i < hi && p.holds(t, i) ==> all_matches(p, t, lo, hi).contains(i),
    decreases hi - lo,
{
    if lo < hi {
        lemma_all_matches(p, t, lo, hi - 1);
        let before = all_matches(p, t, lo, hi - 1);
        let all = all_matches(p, t, lo, hi);
        assert forall|i: int| lo <= i < hi && p.holds(t, i) implies all.contains(i) by {
            if i < hi - 1 {
                let k = choose|k: int| 0 <= k < before.len() && before[k] == i;
                assert(all[k] == i);
            } else {
                assert(all[all.len() - 1] == i);
            }
        }
    }
}

} // verus!
