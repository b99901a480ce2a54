//! The extractor: from raw HTML, as a string or as bytes, to an article.

use vstd::prelude::*;
use vstd::utf8::{decode_utf8, valid_utf8};

use crate::article::{Article, ArticleModel, Embeddings};
use crate::charset::{normalize, normalized};
use crate::configuration::Configuration;
use crate::crawler::{parses, pre_process, spaced};
use crate::dom::{fits_parser, parsed_html, Document, Tree, MAX_NODES};
use crate::embedding::{get_instagram_posts, get_tweets, instagram_posts, tweets};
use crate::extraction::{
    body_links, body_text, canonical_link_of, favico_of, get_canonical_link, get_favico,
    get_language, get_meta_keywords, get_text_and_links, get_title, get_top_image, language_of,
    meta_keywords_of, title_of, top_image_of,
};

verus! {

/// The text that a sequence of bytes encodes in UTF-8, if it is valid
/// UTF-8: `str::from_utf8` of the standard library, the text copied into a
/// string of its own.
#[verifier::external_body]
fn utf8_text(bytes: &[u8]) -> (r: Option<String>)
    ensures
        r is Some <==> valid_utf8(bytes@),
        r matches Some(s) ==> s@ == decode_utf8(bytes@),
{
    std::str::from_utf8(bytes).ok().map(|s| s.to_string())
}

/// The byte tells detection that the text is not ASCII: it is above 0x7f
/// and is not 0xa0.
pub open spec fn is_high_byte(byte: u8) -> bool {
    byte >= 0x80 && byte != 0xa0
}

/// Detection can be run on the bytes: they hold a byte that tells that the
/// text is not ASCII, or they hold no escape character. On other bytes
/// detection looks for an encoding that escape sequences announce, and
/// does not return where it finds none.
pub open spec fn detectable(bytes: Seq<u8>) -> bool {
    (exists|i: int| 0 <= i < bytes.len() && is_high_byte(bytes[i])) || (forall|i: int|
        0 <= i < bytes.len() ==> bytes[i] != 0x1b)
}

/// Whether detection can be run on the bytes.
pub fn can_detect(bytes: &Vec<u8>) -> (r: bool)
    ensures
        r == detectable(bytes@),
{
    let mut escape = false;
    let mut i: usize = 0;
    while i < bytes.len()
        invariant
            i <= bytes.len(),
            forall|j: int| 0 <= j < i ==> !is_high_byte(bytes@[j]),
            escape <==> exists|j: int| 0 <= j < i && bytes@[j] == 0x1b,
        decreases bytes.len() - i,
    {
        let byte = bytes[i];
        if byte >= 0x80 && byte != 0xa0 {
            return true;
        }
        if byte == 0x1b {
            escape = true;
        }
        i = i + 1;
    }
    !escape
}

/// `detect` of the crate `chardet`: of what it returns, the name of the
/// character set. On bytes with an escape character and without a byte
/// that tells that the text is not ASCII it may end in a panic: those are
/// left out. Detection weighs its guesses in floating point, so that
/// nothing is said of the name that comes back: callers hold for every
/// name.
#[verifier::external_body]
fn detect_charset(bytes: &[u8]) -> (r: String)
    requires
        detectable(bytes@),
{
    chardet::detect(bytes).0
}

/// The text that a sequence of bytes stands for in the encoding that a
/// label names, each malformed sequence replaced by U+FFFD; nothing if the
/// label names no encoding.
pub uninterp spec fn decoded_as(label: Seq<char>, bytes: Seq<u8>) -> Option<Seq<char>>;

/// `encoding_from_whatwg_label` of the crate `encoding`, and `decode` of
/// the encoding it finds, with the trap that replaces what is malformed.
/// The two stand in one function because the encoding found is a value
/// that only the crate can hold.
#[verifier::external_body]
fn decode_with_label(label: &str, bytes: &[u8]) -> (r: Option<String>)
    ensures
        r is Some <==> decoded_as(label@, bytes@) is Some,
        r matches Some(s) ==> decoded_as(label@, bytes@) == Some(s@),
{
    match encoding::label::encoding_from_whatwg_label(label) {
        Some(found) => found.decode(bytes, encoding::DecoderTrap::Replace).ok(),
        None => None,
    }
}

/// The article that a configuration asks of a document. The language is
/// always there; the other fields are there if their switch is on, and
/// empty if it is off or if the document gives no signal for them.
pub open spec fn article_of(config: Configuration, t: Tree) -> ArticleModel {
    let language = language_of(t);
    let meta = config.enable_meta_extraction;
    let text = config.enable_text_extraction;
    let embeddings = config.enable_embeddings_extraction;
    ArticleModel {
        title: if text {
            title_of(t)
        } else {
            Seq::empty()
        },
        text: if text {
            body_text(t, language)
        } else {
            Seq::empty()
        },
        language,
        favico: if meta {
            favico_of(t)
        } else {
            Seq::empty()
        },
        canonical_link: if meta {
            canonical_link_of(t)
        } else {
            Seq::empty()
        },
        meta_keywords: if meta {
            meta_keywords_of(t)
        } else {
            Seq::empty()
        },
        top_image: if meta {
            top_image_of(t)
        } else {
            Seq::empty()
        },
        links: if text {
            body_links(t, language)
        } else {
            Seq::empty()
        },
        tweets: if embeddings {
            tweets(t)
        } else {
            Seq::empty()
        },
        instagram_posts: if embeddings {
            instagram_posts(t)
        } else {
            Seq::empty()
        },
    }
}

/// The article keeps to the configuration: its language holds no hyphen,
/// and the fields of each switch that is off are empty: of text extraction
/// the title, the text and the links; of meta extraction the favicon, the
/// canonical link, the keywords and the top image; of embeddings
/// extraction the tweets and the Instagram posts.
pub open spec fn gated(config: Configuration, article: ArticleModel) -> bool {
    &&& !article.language.contains('-')
    &&& !config.enable_text_extraction ==> article.title.len() == 0 && article.text.len() == 0
        && article.links.len() == 0
    &&& !config.enable_meta_extraction ==> article.favico.len() == 0
        && article.canonical_link.len() == 0 && article.meta_keywords.len() == 0
        && article.top_image.len() == 0
    &&& !config.enable_embeddings_extraction ==> article.tweets.len() == 0
        && article.instagram_posts.len() == 0
}

/// The article that a configuration asks of a text: none if the text
/// yields no document.
pub open spec fn article_of_text(config: Configuration, text: Seq<char>) -> Option<ArticleModel> {
    if parses(text) {
        Some(article_of(config, parsed_html(spaced(text))))
    } else {
        None
    }
}

/// The article that a configuration asks of bytes in the character set
/// that `label` names: the article of the text that the bytes decode to
/// under the canonical name of the label; none if that names no encoding
/// or if the text yields no document.
pub open spec fn article_of_labelled(
    config: Configuration,
    label: Seq<char>,
    bytes: Seq<u8>,
) -> Option<ArticleModel> {
    match decoded_as(normalized(label), bytes) {
        Some(text) => article_of_text(config, text),
        None => None,
    }
}

/// What extraction from bytes may return. Of bytes that are valid UTF-8 it
/// is the article of the text they encode. Of other bytes it is the
/// article of the bytes in some character set, the one that detection
/// names; and nothing if detection cannot be run on them.
pub open spec fn article_of_bytes(
    config: Configuration,
    bytes: Seq<u8>,
    article: Option<ArticleModel>,
) -> bool {
    if valid_utf8(bytes) {
        article == article_of_text(config, decode_utf8(bytes))
    } else if detectable(bytes) {
        exists|label: Seq<char>| article == article_of_labelled(config, label, bytes)
    } else {
        article is None
    }
}

/// An article seen as its mathematical form, if there is one.
pub open spec fn article_view(article: Option<Article>) -> Option<ArticleModel> {
    match article {
        Some(a) => Some(a@),
        None => None,
    }
}

/// Extracts articles from HTML as its configuration asks.
pub struct HtmlExtractor {
    pub configuration: Configuration,
}

impl Default for HtmlExtractor {
    fn default() -> (r: Self)
        ensures
            r.configuration.enable_text_extraction,
            r.configuration.enable_embeddings_extraction,
            r.configuration.enable_meta_extraction,
    {
        HtmlExtractor { configuration: Configuration::default() }
    }
}

impl HtmlExtractor {
    /// Extracts an article from HTML given as a string. Empty HTML yields
    /// no article; a text that is not empty yields one, unless the spaced
    /// text has more than `MAX_HTML_BYTES` bytes or the parser makes more
    /// than `MAX_NODES` nodes of it. In the article every field without a
    /// signal is empty, and so is every field whose switch is off.
    pub fn from_string(&self, raw_html: String) -> (r: Option<Article>)
        ensures
            article_view(r) == article_of_text(self.configuration, raw_html@),
            r is None <==> raw_html@.len() == 0 || !fits_parser(spaced(raw_html@))
                || parsed_html(spaced(raw_html@)).len() > MAX_NODES,
            r matches Some(a) ==> gated(self.configuration, a@),
    {
        match self.pre_process(raw_html) {
            Some(document) => Some(self.process(&document)),
            None => None,
        }
    }

    /// Extracts an article from HTML given as bytes: as UTF-8 if the bytes
    /// are valid UTF-8, else in the character set that detection finds.
    /// Which character set detection finds is not stated; what is returned
    /// for each is what `from_labelled_bytes` returns.
    pub fn from_bytes(&self, bytes: Vec<u8>) -> (r: Option<Article>)
        ensures
            article_of_bytes(self.configuration, bytes@, article_view(r)),
            r matches Some(a) ==> gated(self.configuration, a@),
    {
        match utf8_text(bytes.as_slice()) {
            Some(text) => self.from_string(text),
            None => self.from_non_utf8_bytes(bytes),
        }
    }

    /// Extracts an article from bytes that are not valid UTF-8: detects
    /// their character set and goes on with its name.
    fn from_non_utf8_bytes(&self, bytes: Vec<u8>) -> (r: Option<Article>)
        ensures
            detectable(bytes@) ==> exists|label: Seq<char>|
                article_view(r) == article_of_labelled(self.configuration, label, bytes@),
            !detectable(bytes@) ==> r is None,
            r matches Some(a) ==> gated(self.configuration, a@),
    {
        if !can_detect(&bytes) {
            return None;
        }
        let detected = detect_charset(bytes.as_slice());
        self.from_labelled_bytes(detected.as_str(), bytes)
    }

    /// Extracts an article from bytes in the character set that `label`
    /// names: the label is taken under its canonical name, the bytes are
    /// decoded in the encoding of that name, each malformed sequence
    /// replaced, and the text goes the way of a string. A label that names
    /// no encoding yields no article.
    pub fn from_labelled_bytes(&self, label: &str, bytes: Vec<u8>) -> (r: Option<Article>)
        ensures
            article_view(r) == article_of_labelled(self.configuration, label@, bytes@),
            r matches Some(a) ==> gated(self.configuration, a@),
    {
        let canonical = normalize(label);
        match decode_with_label(canonical.as_str(), bytes.as_slice()) {
            Some(text) => self.from_string(text),
            None => None,
        }
    }

    /// Turns raw HTML into a document.
    fn pre_process(&self, raw_html: String) -> (r: Option<Document>)
        ensures
            r is Some <==> parses(raw_html@),
            r matches Some(d) ==> d@ == parsed_html(spaced(raw_html@)),
    {
        pre_process(raw_html)
    }

    /// Extracts from a document the article that the configuration asks
    /// for. A switch that is off leaves its fields empty: text extraction
    /// the title, the text and the links; meta extraction the favicon, the
    /// canonical link, the keywords and the top image; embeddings
    /// extraction the tweets and the Instagram posts.
    pub fn process(&self, document: &Document) -> (article: Article)
        ensures
            article@ == article_of(self.configuration, document@),
            gated(self.configuration, article@),
    {
        let config = &self.configuration;
        let mut article = Article::new();
        article.language = get_language(document);
        if config.enable_meta_extraction {
            article.favico = get_favico(document);
            article.canonical_link = get_canonical_link(document);
            article.meta_keywords = get_meta_keywords(document);
            article.top_image = get_top_image(document);
        }
        if config.enable_text_extraction {
            article.title = get_title(document);
            let (text, links) = get_text_and_links(document, article.language.as_str());
            article.text = text;
            article.links = links;
        }
        if config.enable_embeddings_extraction {
            article.embeddings = Embeddings {
                tweets: get_tweets(document),
                instagram_posts: get_instagram_posts(document),
            };
        }
        article
    }
}

} // verus!
