//! The article record and its mathematical image.

use vstd::prelude::*;

verus! {

/// A single blog post: the only persisted entity. The identifier is
/// unique and never reused; `views` counts single-article fetches.
#[derive(Debug, PartialEq, Eq)]
pub struct Article {
    pub id: u128,
    pub filename: String,
    pub title: String,
    pub author: String,
    pub content: String,
    pub created_at: String,
    pub views: u64,
}

/// The mathematical image of an article: strings as character
/// sequences, the view counter as an unbounded integer.
#[verifier::ext_equal]
pub struct ArticleView {
    pub id: u128,
    pub filename: Seq<char>,
    pub title: Seq<char>,
    pub author: Seq<char>,
    pub content: Seq<char>,
    pub created_at: Seq<char>,
    pub views: int,
}

impl View for Article {
    type V = ArticleView;

    open spec fn view(&self) -> ArticleView {
        ArticleView {
            id: self.id,
            filename: self.filename@,
            title: self.title@,
            author: self.author@,
            content: self.content@,
            created_at: self.created_at@,
            views: self.views as int,
        }
    }
}

impl Clone for Article {
    fn clone(&self) -> (r: Self)
        ensures
            r@ == self@,
    {
        Article {
            id: self.id,
            filename: self.filename.clone(),
            title: self.title.clone(),
            author: self.author.clone(),
            content: self.content.clone(),
            created_at: self.created_at.clone(),
            views: self.views,
        }
    }
}

/// The image of a sequence of articles.
pub open spec fn seq_view(v: Seq<Article>) -> Seq<ArticleView> {
    v.map_values(|a: Article| a@)
}

/// An article with its view counter replaced.
pub open spec fn with_views(a: ArticleView, v: int) -> ArticleView {
    ArticleView { views: v, ..a }
}

/// An article with its content replaced.
pub open spec fn with_content(a: ArticleView, c: Seq<char>) -> ArticleView {
    ArticleView { content: c, ..a }
}

} // verus!
