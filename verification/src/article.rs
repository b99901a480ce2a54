//! The article: what an extraction returns.

use vstd::prelude::*;

use crate::embedding::{embeddings_view, Embedding, EmbeddingModel};
use crate::text::strings_view;

verus! {

/// The posts that a page quotes.
#[derive(PartialEq, Debug, Clone)]
pub struct Embeddings {
    pub tweets: Vec<Embedding>,
    pub instagram_posts: Vec<Embedding>,
}

/// The editorial content of a page. A field for which the page gives no
/// signal is empty.
#[derive(PartialEq, Debug, Clone)]
pub struct Article {
    pub title: String,
    pub text: String,
    pub language: String,
    pub favico: String,
    pub canonical_link: String,
    pub meta_keywords: String,
    pub top_image: String,
    pub links: Vec<String>,
    pub embeddings: Embeddings,
}

/// The mathematical form of `Article`.
pub struct ArticleModel {
    pub title: Seq<char>,
    pub text: Seq<char>,
    pub language: Seq<char>,
    pub favico: Seq<char>,
    pub canonical_link: Seq<char>,
    pub meta_keywords: Seq<char>,
    pub top_image: Seq<char>,
    pub links: Seq<Seq<char>>,
    pub tweets: Seq<EmbeddingModel>,
    pub instagram_posts: Seq<EmbeddingModel>,
}

impl View for Article {
    type V = ArticleModel;

    open spec fn view(&self) -> ArticleModel {
        ArticleModel {
            title: self.title@,
            text: self.text@,
            language: self.language@,
            favico: self.favico@,
            canonical_link: self.canonical_link@,
            meta_keywords: self.meta_keywords@,
            top_image: self.top_image@,
            links: strings_view(self.links@),
            tweets: embeddings_view(self.embeddings.tweets@),
            instagram_posts: embeddings_view(self.embeddings.instagram_posts@),
        }
    }
}

/// The article of which every field is empty.
pub open spec fn empty_article() -> ArticleModel {
    ArticleModel {
        title: Seq::empty(),
        text: Seq::empty(),
        language: Seq::empty(),
        favico: Seq::empty(),
        canonical_link: Seq::empty(),
        meta_keywords: Seq::empty(),
        top_image: Seq::empty(),
        links: Seq::empty(),
        tweets: Seq::empty(),
        instagram_posts: Seq::empty(),
    }
}

impl Default for Embeddings {
    fn default() -> (r: Self)
        ensures
            r.tweets@.len() == 0,
            r.instagram_posts@.len() == 0,
    {
        Embeddings { tweets: Vec::new(), instagram_posts: Vec::new() }
    }
}

impl Default for Article {
    fn default() -> (r: Self)
        ensures
            r@ == empty_article(),
    {
        Article::new()
    }
}

impl Article {
    /// An article of which every field is empty.
    pub fn new() -> (r: Self)
        ensures
            r@ == empty_article(),
    {
        let r = Article {
            title: String::new(),
            text: String::new(),
            language: String::new(),
            favico: String::new(),
            canonical_link: String::new(),
            meta_keywords: String::new(),
            top_image: String::new(),
            links: Vec::new(),
            embeddings: Embeddings { tweets: Vec::new(), instagram_posts: Vec::new() },
        };
        assert(r@.links =~= Seq::<Seq<char>>::empty());
        assert(r@.tweets =~= Seq::<EmbeddingModel>::empty());
        assert(r@.instagram_posts =~= Seq::<EmbeddingModel>::empty());
        r
    }
}

} // verus!
