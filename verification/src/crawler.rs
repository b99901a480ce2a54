//! Preprocessing of raw HTML, and what a page says of its own character
//! set.

use vstd::prelude::*;

use crate::article::{empty_article, Article, ArticleModel};
use crate::charset::{normalize, normalized};
use crate::dom::{attr_of, fits_parser, parsable, parsed_html, Document, Tree, MAX_NODES};
use crate::extraction::{
    body_text, canonical_link_of, favico_of, get_canonical_link, get_favico, get_language,
    get_meta_keywords, get_text_and_links, get_title, get_top_image, language_of,
    meta_keywords_of, title_of, top_image_of,
};
use crate::predicate::{
    all_matches, find_all, find_first, first_match, indices, And, Attr, HasAttr, Name,
};
use crate::strings::{
    absent, contains, contains_sub, find_from, first_occurrence, from_chars, from_chars_range,
    lemma_contains_sub, lemma_first_occurrence, lemma_replaced_absent, lower, occurs_at, replace,
    replaced, to_ascii_lowercase, to_chars,
};

verus! {

/// `text` with white space put between tags that touch: a line feed before
/// each `<img `, a line feed after each `</blockquote>`, `</li>` and
/// `</p>`, and then a space between each `>` and the `<` that follows it.
pub open spec fn spaced(text: Seq<char>) -> Seq<char> {
    let with_img = replaced(text, "<img "@, "\n<img "@);
    let with_blockquote = replaced(with_img, "</blockquote>"@, "</blockquote>\n"@);
    let with_li = replaced(with_blockquote, "</li>"@, "</li>\n"@);
    let with_p = replaced(with_li, "</p>"@, "</p>\n"@);
    replaced(with_p, "><"@, "> <"@)
}

/// Puts white space between tags that touch, so that the text of one does
/// not run into the text of the next.
pub fn add_spaces_between_tags(text: String) -> (r: String)
    ensures
        r@ == spaced(text@),
{
    let chars = to_chars(text.as_str());
    let with_img = replace(&chars, &to_chars("<img "), &to_chars("\n<img "));
    let with_blockquote = replace(
        &with_img,
        &to_chars("</blockquote>"),
        &to_chars("</blockquote>\n"),
    );
    let with_li = replace(&with_blockquote, &to_chars("</li>"), &to_chars("</li>\n"));
    let with_p = replace(&with_li, &to_chars("</p>"), &to_chars("</p>\n"));
    let spaced = replace(&with_p, &to_chars("><"), &to_chars("> <"));
    from_chars(&spaced)
}

/// The test that the meta tags naming a content type pass.
pub open spec fn content_type_tag() -> And<Name<'static>, Attr<'static>> {
    And(Name("meta"), Attr("http-equiv", "Content-Type"))
}

/// The `content` of the last of the first `k` nodes `tags` that has one;
/// empty if none has.
pub open spec fn last_content(t: Tree, tags: Seq<int>, k: int) -> Seq<char>
    decreases k,
{
    if k <= 0 {
        Seq::empty()
    } else {
        match attr_of(t, tags[k - 1], "content"@) {
            Some(content) => content,
            None => last_content(t, tags, k - 1),
        }
    }
}

/// The content type that a document declares: the `content` of its last
/// `<meta http-equiv="Content-Type">` that has one.
pub open spec fn content_type_of(t: Tree) -> Seq<char> {
    let tags = all_matches(content_type_tag(), t, 0, t.len() as int);
    last_content(t, tags, tags.len() as int)
}

/// The content type that a document declares; empty if it declares none.
pub fn get_content_type(document: &Document) -> (r: String)
    ensures
        r@ == content_type_of(document@),
{
    let ghost t = document@;
    let tags = find_all(
        document,
        &And(Name("meta"), Attr("http-equiv", "Content-Type")),
        0,
        document.len(),
    );
    let ghost model = all_matches(content_type_tag(), t, 0, t.len() as int);
    let mut content_type = String::new();
    let mut k: usize = 0;
    while k < tags.len()
        invariant
            k <= tags.len(),
            t == document@,
            indices(tags@) == model,
            forall|j: int| 0 <= j < tags@.len() ==> #[trigger] tags@[j] < t.len(),
            content_type@ == last_content(t, model, k as int),
        decreases tags.len() - k,
    {
        let node = tags[k];
        assert(model[k as int] == node as int) by {
            assert(indices(tags@)[k as int] == node as int);
        }
        match document.attr(node, "content") {
            Some(content) => {
                content_type = content.to_owned();
            },
            None => {},
        }
        k = k + 1;
    }
    content_type
}

/// The character set that a content type names: what follows `charset=`
/// in the lower-cased content type, under its canonical name; the
/// lower-cased content type itself if it names none.
pub open spec fn charset_of_content_type(content_type: Seq<char>) -> Seq<char> {
    let cs = lower(content_type);
    match first_occurrence(cs, "charset="@, 0) {
        Some(i) => normalized(cs.skip(i + "charset="@.len())),
        None => cs,
    }
}

/// The character set that a content type names.
pub fn get_charset_from_content_type(content_type: String) -> (r: String)
    ensures
        r@ == charset_of_content_type(content_type@),
{
    let cs = to_ascii_lowercase(content_type.as_str());
    let chars = to_chars(cs.as_str());
    let key = to_chars("charset=");
    proof {
        lemma_first_occurrence(chars@, key@, 0);
    }
    match find_from(&chars, &key, 0) {
        Some(i) => {
            assert(occurs_at(chars@, key@, i as int));
            let end = chars.len();
            let rest = from_chars_range(&chars, i + key.len(), end);
            assert(chars@.subrange(i + key@.len(), chars@.len() as int) =~= chars@.skip(
                i + key@.len(),
            ));
            normalize(rest.as_str())
        },
        None => cs,
    }
}

/// The character set that a document declares: the one its content type
/// names, if it has a content type that mentions `charset`; else the
/// canonical name of the `charset` attribute of its first `<meta>` that
/// has one; else nothing.
pub open spec fn charset_of(t: Tree) -> Seq<char> {
    let ct = content_type_of(t);
    if ct.len() > 0 && contains_sub(lower(ct), "charset"@) {
        charset_of_content_type(ct)
    } else {
        match first_match(And(Name("meta"), HasAttr("charset")), t, 0, t.len() as int) {
            Some(i) => match attr_of(t, i, "charset"@) {
                Some(label) => normalized(label),
                None => Seq::empty(),
            },
            None => Seq::empty(),
        }
    }
}

/// The character set that a document declares; empty if it declares none.
pub fn get_charset(document: &Document) -> (r: String)
    ensures
        r@ == charset_of(document@),
{
    let ct = get_content_type(document);
    if !ct.as_str().is_empty() && contains(
        &to_chars(to_ascii_lowercase(ct.as_str()).as_str()),
        &to_chars("charset"),
    ) {
        return get_charset_from_content_type(ct);
    }
    match find_first(document, &And(Name("meta"), HasAttr("charset")), 0, document.len()) {
        Some(node) => match document.attr(node, "charset") {
            Some(label) => normalize(label),
            None => String::new(),
        },
        None => String::new(),
    }
}

/// Whether preprocessing yields a document: the text is not empty, and
/// the spaced text is within the two limits of the parser and of a
/// document.
pub open spec fn parses(raw_html: Seq<char>) -> bool {
    raw_html.len() > 0 && parsable(spaced(raw_html))
}

/// Turns raw HTML into a document: empty input is rejected, tags that
/// touch are spaced, and the result is parsed. A text that is not empty
/// yields a document, unless the spaced text has more than
/// `MAX_HTML_BYTES` bytes or the parser makes more than `MAX_NODES` nodes
/// of it.
pub fn pre_process(raw_html: String) -> (r: Option<Document>)
    ensures
        r is Some <==> parses(raw_html@),
        r is None <==> raw_html@.len() == 0 || !fits_parser(spaced(raw_html@)) || parsed_html(
            spaced(raw_html@),
        ).len() > MAX_NODES,
        r matches Some(d) ==> d@ == parsed_html(spaced(raw_html@)),
{
    if raw_html.as_str().is_empty() {
        return None;
    }
    let sanitized_html = add_spaces_between_tags(raw_html);
    Document::from_html(sanitized_html.as_str())
}

/// What `crawl` makes of a document: its title, language, metadata and
/// body text; no links and no embeddings.
pub open spec fn crawled(t: Tree) -> ArticleModel {
    ArticleModel {
        title: title_of(t),
        text: body_text(t, language_of(t)),
        language: language_of(t),
        favico: favico_of(t),
        canonical_link: canonical_link_of(t),
        meta_keywords: meta_keywords_of(t),
        top_image: top_image_of(t),
        links: Seq::empty(),
        tweets: Seq::empty(),
        instagram_posts: Seq::empty(),
    }
}

/// Extracts title, language, metadata and body text from raw HTML. The
/// string that comes with the article is empty on success; where the HTML
/// yields no document, the article is empty and the string says so.
pub fn crawl(raw_html: String) -> (r: (Article, String))
    ensures
        parses(raw_html@) ==> r.0@ == crawled(parsed_html(spaced(raw_html@))) && r.1@.len() == 0,
        !parses(raw_html@) ==> r.0@ == empty_article() && r.1@
            == "Impossible to pre-process html"@,
{
    match pre_process(raw_html) {
        Some(document) => {
            let mut article = Article::new();
            article.title = get_title(&document);
            article.language = get_language(&document);
            article.favico = get_favico(&document);
            article.canonical_link = get_canonical_link(&document);
            article.meta_keywords = get_meta_keywords(&document);
            article.top_image = get_top_image(&document);
            let (text, _links) = get_text_and_links(&document, article.language.as_str());
            article.text = text;
            (article, String::new())
        },
        None => (Article::new(), "Impossible to pre-process html".to_owned()),
    }
}

/// A `>` stands at index `i` of `x`, and a `<` right after it.
spec fn gap(x: Seq<char>, i: int) -> bool {
    0 <= i && i + 1 < x.len() && x[i] == '>' && x[i + 1] == '<'
}

/// `x[i..]` with a space in each gap.
spec fn spread_from(x: Seq<char>, i: int) -> Seq<char>
    decreases x.len() - i,
{
    if i < 0 || i >= x.len() {
        Seq::empty()
    } else if gap(x, i) {
        seq![x[i], ' '] + spread_from(x, i + 1)
    } else {
        seq![x[i]] + spread_from(x, i + 1)
    }
}

/// No `>` stands in `q` but, at most, at its end.
spec fn closes_at_end(q: Seq<char>) -> bool {
    forall|m: int| 0 <= m < q.len() - 1 ==> q[m] != '>'
}

/// Replacing `><` by `> <` puts a space in each gap.
proof fn lemma_replaced_spreads(x: Seq<char>, i: int)
    requires
        0 <= i <= x.len(),
    ensures
        replaced(x.skip(i), "><"@, "> <"@) == spread_from(x, i),
    decreases x.len() - i,
{
    reveal_strlit("><");
    reveal_strlit("> <");
    let pat = "><"@;
    let rep = "> <"@;
    let s = x.skip(i);
    assert(pat =~= seq!['>', '<']);
    assert(rep =~= seq!['>', ' ', '<']);
    assert(pat.len() == 2 && rep.len() == 3);
    if s.len() < 2 {
        assert(replaced(s, pat, rep) == s);
        if i < x.len() {
            assert(spread_from(x, i + 1) =~= Seq::<char>::empty());
            assert(!gap(x, i));
            assert(seq![x[i]] + Seq::<char>::empty() =~= s);
        } else {
            assert(s =~= Seq::<char>::empty());
        }
    } else if occurs_at(s, pat, 0) {
        assert(s.subrange(0, 2)[0] == '>' && s.subrange(0, 2)[1] == '<');
        assert(gap(x, i));
        assert(!gap(x, i + 1));
        lemma_replaced_spreads(x, i + 2);
        assert(s.skip(2) =~= x.skip(i + 2));
        assert(replaced(s, pat, rep) == rep + replaced(s.skip(2), pat, rep));
        assert(spread_from(x, i + 1) == seq![x[i + 1]] + spread_from(x, i + 2));
        assert(rep + spread_from(x, i + 2) =~= seq![x[i], ' '] + (seq![x[i + 1]] + spread_from(
            x,
            i + 2,
        )));
    } else {
        if gap(x, i) {
            assert(s.subrange(0, 2) =~= pat);
        }
        lemma_replaced_spreads(x, i + 1);
        assert(s.skip(1) =~= x.skip(i + 1));
        assert(replaced(s, pat, rep) == seq![s[0]] + replaced(s.skip(1), pat, rep));
    }
}

/// What `spread_from` starts with, if it holds no `>` before its end, is
/// what `x[j..]` starts with.
proof fn lemma_spread_prefix(x: Seq<char>, j: int, q: Seq<char>)
    requires
        0 <= j <= x.len(),
        closes_at_end(q),
        occurs_at(spread_from(x, j), q, 0),
    ensures
        occurs_at(x, q, j),
    decreases q.len(),
{
    let y = spread_from(x, j);
    if q.len() == 0 {
        assert(x.subrange(j, j + 0) =~= q);
    } else {
        assert(y.subrange(0, q.len() as int)[0] == q[0]);
        assert(j < x.len());
        assert(y[0] == x[j]);
        if q.len() == 1 {
            assert(x.subrange(j, j + 1) =~= q);
        } else {
            assert(!gap(x, j));
            let rest = spread_from(x, j + 1);
            assert(y =~= seq![x[j]] + rest);
            let tail = q.skip(1);
            assert(rest.subrange(0, tail.len() as int) =~= y.subrange(0, q.len() as int).skip(1));
            assert(closes_at_end(tail)) by {
                assert forall|m: int| 0 <= m < tail.len() - 1 implies tail[m] != '>' by {
                    assert(tail[m] == q[m + 1]);
                }
            }
            lemma_spread_prefix(x, j + 1, tail);
            assert(x.subrange(j, j + q.len()) =~= seq![x[j]] + x.subrange(
                j + 1,
                j + 1 + tail.len(),
            ));
            assert(q =~= seq![q[0]] + tail);
        }
    }
}

/// A pattern that starts with no space and holds no `>` before its end
/// occurs in the spread text only where it occurs in the text.
proof fn lemma_spread_keeps_absent(x: Seq<char>, i: int, p: Seq<char>)
    requires
        0 <= i <= x.len(),
        p.len() >= 1,
        p[0] != ' ',
        closes_at_end(p),
        absent(x, p),
    ensures
        absent(spread_from(x, i), p),
    decreases x.len() - i,
{
    let y = spread_from(x, i);
    if i < x.len() {
        lemma_spread_keeps_absent(x, i + 1, p);
        let rest = spread_from(x, i + 1);
        let head: int = if gap(x, i) {
            2
        } else {
            1
        };
        assert(y.len() == head + rest.len());
        assert forall|k: int| !occurs_at(y, p, k) by {
            if occurs_at(y, p, k) {
                if k >= head {
                    assert(rest.subrange(k - head, k - head + p.len()) =~= y.subrange(
                        k,
                        k + p.len(),
                    ));
                    assert(occurs_at(rest, p, k - head));
                } else if k == 0 {
                    lemma_spread_prefix(x, i, p);
                } else {
                    assert(y.subrange(k, k + p.len())[0] == y[1]);
                }
            }
        }
    }
}

/// The spread text has no gap.
proof fn lemma_spread_has_no_gap(x: Seq<char>, i: int)
    requires
        0 <= i <= x.len(),
    ensures
        absent(spread_from(x, i), "><"@),
    decreases x.len() - i,
{
    reveal_strlit("><");
    let pat = "><"@;
    assert(pat =~= seq!['>', '<']);
    let y = spread_from(x, i);
    if i < x.len() {
        lemma_spread_has_no_gap(x, i + 1);
        let rest = spread_from(x, i + 1);
        let head: int = if gap(x, i) {
            2
        } else {
            1
        };
        assert(y.len() == head + rest.len());
        assert forall|k: int| !occurs_at(y, pat, k) by {
            if occurs_at(y, pat, k) {
                assert(y.subrange(k, k + 2)[0] == '>' && y.subrange(k, k + 2)[1] == '<');
                if k >= head {
                    assert(rest.subrange(k - head, k - head + 2) =~= y.subrange(k, k + 2));
                    assert(occurs_at(rest, pat, k - head));
                } else if k == 0 {
                    if !gap(x, i) {
                        assert(y[1] == rest[0]);
                        assert(i + 1 < x.len());
                        assert(rest[0] == x[i + 1]);
                    }
                } else {
                    assert(y[1] == ' ');
                }
            }
        }
    }
}

/// Spacing a text a second time changes nothing, and so yields the same
/// document, if the text holds none of the four tags before or after which
/// a line feed is due.
pub proof fn lemma_spacing_idempotent(text: Seq<char>)
    requires
        !contains_sub(text, "<img "@),
        !contains_sub(text, "</blockquote>"@),
        !contains_sub(text, "</li>"@),
        !contains_sub(text, "</p>"@),
    ensures
        spaced(spaced(text)) == spaced(text),
        parsed_html(spaced(spaced(text))) == parsed_html(spaced(text)),
{
    let img = "<img "@;
    let blockquote = "</blockquote>"@;
    let li = "</li>"@;
    let par = "</p>"@;
    reveal_strlit("<img ");
    reveal_strlit("</blockquote>");
    reveal_strlit("</li>");
    reveal_strlit("</p>");
    lemma_contains_sub(text, img);
    lemma_contains_sub(text, blockquote);
    lemma_contains_sub(text, li);
    lemma_contains_sub(text, par);
    lemma_replaced_absent(text, img, "\n<img "@);
    lemma_replaced_absent(text, blockquote, "</blockquote>\n"@);
    lemma_replaced_absent(text, li, "</li>\n"@);
    lemma_replaced_absent(text, par, "</p>\n"@);
    assert(text.skip(0) =~= text);
    lemma_replaced_spreads(text, 0);
    let once = spread_from(text, 0);
    assert(spaced(text) == once);
    assert(closes_at_end(img) && closes_at_end(blockquote) && closes_at_end(li) && closes_at_end(
        par,
    )) by {
        assert(img =~= seq!['<', 'i', 'm', 'g', ' ']);
        assert(li =~= seq!['<', '/', 'l', 'i', '>']);
        assert(par =~= seq!['<', '/', 'p', '>']);
        assert(blockquote =~= seq![
            '<',
            '/',
            'b',
            'l',
            'o',
            'c',
            'k',
            'q',
            'u',
            'o',
            't',
            'e',
            '>',
        ]);
    }
    lemma_spread_keeps_absent(text, 0, img);
    lemma_spread_keeps_absent(text, 0, blockquote);
    lemma_spread_keeps_absent(text, 0, li);
    lemma_spread_keeps_absent(text, 0, par);
    lemma_spread_has_no_gap(text, 0);
    lemma_replaced_absent(once, img, "\n<img "@);
    lemma_replaced_absent(once, blockquote, "</blockquote>\n"@);
    lemma_replaced_absent(once, li, "</li>\n"@);
    lemma_replaced_absent(once, par, "</p>\n"@);
    lemma_replaced_absent(once, "><"@, "> <"@);
}

} // verus!
