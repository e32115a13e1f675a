//! The article store: a table of articles keyed by a unique identifier,
//! with create/read/update/delete and case-insensitive title search.

use vstd::prelude::*;
use crate::article::{seq_view, with_content, with_views, Article, ArticleView};
use crate::text::{contains_ci, str_contains_ci};

verus! {

/// How a store operation can fail: a point lookup found no row, or an
/// insert hit an identifier that already exists.
#[derive(Clone, Copy, Debug, PartialEq, Eq, Structural)]
pub enum StoreError {
    NotFound,
    Conflict,
}

/// Index of the first article carrying `id`, or -1 when none does.
pub open spec fn find_id(s: Seq<ArticleView>, id: u128) -> int
    decreases s.len(),
{
    if s.len() == 0 {
        -1
    } else if s[0].id == id {
        0
    } else {
        let r = find_id(s.drop_first(), id);
        if r < 0 {
            -1
        } else {
            r + 1
        }
    }
}

/// Some article carries `id`.
pub open spec fn has_id(s: Seq<ArticleView>, id: u128) -> bool {
    find_id(s, id) >= 0
}

/// `find_id` returns the first index carrying `id`, or -1 when no index does.
pub proof fn lemma_find_id(s: Seq<ArticleView>, id: u128)
    ensures
        find_id(s, id) == -1 || 0 <= find_id(s, id) < s.len(),
        find_id(s, id) >= 0 ==> s[find_id(s, id)].id == id,
        forall|j: int| 0 <= j < find_id(s, id) ==> s[j].id != id,
        find_id(s, id) == -1 ==> forall|j: int| 0 <= j < s.len() ==> s[j].id != id,
    decreases s.len(),
{
    if s.len() > 0 && s[0].id != id {
        let d = s.drop_first();
        lemma_find_id(d, id);
        assert forall|j: int| 0 <= j < find_id(s, id) implies s[j].id != id by {
            if j > 0 {
                assert(d[j - 1] == s[j]);
            }
        }
        if find_id(s, id) == -1 {
            assert forall|j: int| 0 <= j < s.len() implies s[j].id != id by {
                if j > 0 {
                    assert(d[j - 1] == s[j]);
                }
            }
        }
    }
}

/// Index of the first article whose title is `t`, or -1 when none is.
pub open spec fn find_title(s: Seq<ArticleView>, t: Seq<char>) -> int
    decreases s.len(),
{
    if s.len() == 0 {
        -1
    } else if s[0].title == t {
        0
    } else {
        let r = find_title(s.drop_first(), t);
        if r < 0 {
            -1
        } else {
            r + 1
        }
    }
}

/// `find_title` returns the first index titled `t`, or -1 when no index is.
pub proof fn lemma_find_title(s: Seq<ArticleView>, t: Seq<char>)
    ensures
        find_title(s, t) == -1 || 0 <= find_title(s, t) < s.len(),
        find_title(s, t) >= 0 ==> s[find_title(s, t)].title == t,
        forall|j: int| 0 <= j < find_title(s, t) ==> s[j].title != t,
        find_title(s, t) == -1 ==> forall|j: int| 0 <= j < s.len() ==> s[j].title != t,
    decreases s.len(),
{
    if s.len() > 0 && s[0].title != t {
        let d = s.drop_first();
        lemma_find_title(d, t);
        assert forall|j: int| 0 <= j < find_title(s, t) implies s[j].title != t by {
            if j > 0 {
                assert(d[j - 1] == s[j]);
            }
        }
        if find_title(s, t) == -1 {
            assert forall|j: int| 0 <= j < s.len() implies s[j].title != t by {
                if j > 0 {
                    assert(d[j - 1] == s[j]);
                }
            }
        }
    }
}

/// No two articles share an identifier.
pub open spec fn unique_ids(s: Seq<ArticleView>) -> bool {
    forall|i: int, j: int| 0 <= i < j < s.len() ==> s[i].id != s[j].id
}

/// The sequence at `i` with that article's view counter one higher.
pub open spec fn bump_at(s: Seq<ArticleView>, i: int) -> Seq<ArticleView> {
    s.update(i, with_views(s[i], s[i].views + 1))
}

/// The sequence at `i` with that article's content replaced by `c`.
pub open spec fn set_content_at(s: Seq<ArticleView>, i: int, c: Seq<char>) -> Seq<ArticleView> {
    s.update(i, with_content(s[i], c))
}

/// The row a single-article fetch returns: the first article carrying
/// `id`, with its view counter already incremented.
pub open spec fn fetched(s: Seq<ArticleView>, id: u128) -> ArticleView {
    with_views(s[find_id(s, id)], s[find_id(s, id)].views + 1)
}

/// The articles whose title contains `text` up to ASCII case, in store order.
pub open spec fn spec_search(s: Seq<ArticleView>, text: Seq<char>) -> Seq<ArticleView> {
    s.filter(|a: ArticleView| contains_ci(a.title, text))
}

/// The article table. Its view is the sequence of stored articles.
pub struct Store {
    articles: Vec<Article>,
}

impl View for Store {
    type V = Seq<ArticleView>;

    closed spec fn view(&self) -> Seq<ArticleView> {
        seq_view(self.articles@)
    }
}

impl Store {
    /// Identifiers are unique: the store's invariant.
    pub open spec fn wf(&self) -> bool {
        unique_ids(self@)
    }

    /// An empty store.
    pub fn new() -> (s: Store)
        ensures
            s@ == Seq::<ArticleView>::empty(),
            s.wf(),
    {
        let s = Store { articles: Vec::new() };
        proof {
            assert(s@ =~= Seq::<ArticleView>::empty());
        }
        s
    }

    /// Whether some stored article carries `id`.
    #[verifier::loop_isolation(false)]
    pub fn contains_id(&self, id: u128) -> (r: bool)
        ensures
            r == has_id(self@, id),
    {
        proof {
            lemma_find_id(self@, id);
        }
        let mut i: usize = 0;
        while i < self.articles.len()
            invariant
                i <= self.articles.len(),
                self@ == seq_view(self.articles@),
                forall|j: int| 0 <= j < i ==> self@[j].id != id,
            decreases self.articles.len() - i,
        {
            if self.articles[i].id == id {
                assert(self@[i as int].id == id);
                return true;
            }
            i += 1;
        }
        false
    }

    /// Every article, in store order.
    #[verifier::loop_isolation(false)]
    pub fn get_blogs(&self) -> (r: Vec<Article>)
        ensures
            seq_view(r@) == self@,
    {
        let mut r: Vec<Article> = Vec::new();
        let mut i: usize = 0;
        while i < self.articles.len()
            invariant
                i <= self.articles.len(),
                r@.len() == i,
                forall|j: int| 0 <= j < i ==> r@[j]@ == self@[j],
            decreases self.articles.len() - i,
        {
            let a = self.articles[i].clone();
            r.push(a);
            i += 1;
        }
        proof {
            assert(seq_view(r@) =~= self@);
        }
        r
    }

    /// Insert a fully formed article; refuse an identifier that already
    /// exists and leave the store unchanged in that case.
    pub fn create_blog(&mut self, article: Article) -> (r: Result<Article, StoreError>)
        requires
            old(self).wf(),
        ensures
            final(self).wf(),
            match r {
                Ok(a) => {
                    &&& !has_id(old(self)@, article@.id)
                    &&& final(self)@ == old(self)@.push(article@)
                    &&& a@ == article@
                },
                Err(e) => {
                    &&& e == StoreError::Conflict
                    &&& has_id(old(self)@, article@.id)
                    &&& final(self)@ == old(self)@
                },
            },
    {
        proof {
            lemma_find_id(self@, article.id);
        }
        if self.contains_id(article.id) {
            return Err(StoreError::Conflict);
        }
        let stored = article.clone();
        self.articles.push(article);
        proof {
            assert(self@ =~= old(self)@.push(stored@));
        }
        Ok(stored)
    }

    /// Increment and persist the view counter of the article carrying
    /// `id`, returning the post-increment row; `NotFound` when absent.
    #[verifier::loop_isolation(false)]
    pub fn update_views(&mut self, id: u128) -> (r: Result<Article, StoreError>)
        requires
            old(self).wf(),
            has_id(old(self)@, id) ==> old(self)@[find_id(old(self)@, id)].views < u64::MAX,
        ensures
            final(self).wf(),
            match r {
                Ok(a) => {
                    &&& has_id(old(self)@, id)
                    &&& final(self)@ == bump_at(old(self)@, find_id(old(self)@, id))
                    &&& a@ == fetched(old(self)@, id)
                },
                Err(e) => {
                    &&& e == StoreError::NotFound
                    &&& !has_id(old(self)@, id)
                    &&& final(self)@ == old(self)@
                },
            },
    {
        proof {
            lemma_find_id(self@, id);
        }
        let mut i: usize = 0;
        while i < self.articles.len()
            invariant
                i <= self.articles.len(),
                self@ == seq_view(self.articles@),
                self@ == old(self)@,
                forall|j: int| 0 <= j < i ==> self@[j].id != id,
            decreases self.articles.len() - i,
        {
            if self.articles[i].id == id {
                assert(self@[i as int].id == id);
                assert(find_id(self@, id) == i as int);
                let prev = self.articles.remove(i);
                let bumped = Article { views: prev.views + 1, ..prev };
                let out = bumped.clone();
                self.articles.insert(i, bumped);
                proof {
                    assert(self@ =~= bump_at(old(self)@, i as int));
                }
                return Ok(out);
            }
            i += 1;
        }
        Err(StoreError::NotFound)
    }

    /// Fetch one article by identifier; as a side effect its view
    /// counter is incremented and the post-increment row is returned.
    pub fn get_blog_by_id(&mut self, id: u128) -> (r: Result<Article, StoreError>)
        requires
            old(self).wf(),
            has_id(old(self)@, id) ==> old(self)@[find_id(old(self)@, id)].views < u64::MAX,
        ensures
            final(self).wf(),
            match r {
                Ok(a) => {
                    &&& has_id(old(self)@, id)
                    &&& final(self)@ == bump_at(old(self)@, find_id(old(self)@, id))
                    &&& a@ == fetched(old(self)@, id)
                },
                Err(e) => {
                    &&& e == StoreError::NotFound
                    &&& !has_id(old(self)@, id)
                    &&& final(self)@ == old(self)@
                },
            },
    {
        if !self.contains_id(id) {
            return Err(StoreError::NotFound);
        }
        self.update_views(id)
    }

    /// Replace only the content of the article carrying `id`, leaving
    /// every other field untouched; `NotFound` when absent.
    #[verifier::loop_isolation(false)]
    pub fn update_article_content(&mut self, id: u128, content: String) -> (r: Result<
        Article,
        StoreError,
    >)
        requires
            old(self).wf(),
        ensures
            final(self).wf(),
            match r {
                Ok(a) => {
                    &&& has_id(old(self)@, id)
                    &&& final(self)@ == set_content_at(old(self)@, find_id(old(self)@, id), content@)
                    &&& a@ == with_content(old(self)@[find_id(old(self)@, id)], content@)
                },
                Err(e) => {
                    &&& e == StoreError::NotFound
                    &&& !has_id(old(self)@, id)
                    &&& final(self)@ == old(self)@
                },
            },
    {
        proof {
            lemma_find_id(self@, id);
        }
        let mut i: usize = 0;
        while i < self.articles.len()
            invariant
                i <= self.articles.len(),
                self@ == seq_view(self.articles@),
                self@ == old(self)@,
                forall|j: int| 0 <= j < i ==> self@[j].id != id,
            decreases self.articles.len() - i,
        {
            if self.articles[i].id == id {
                assert(self@[i as int].id == id);
                assert(find_id(self@, id) == i as int);
                let prev = self.articles.remove(i);
                let updated = Article { content, ..prev };
                let out = updated.clone();
                self.articles.insert(i, updated);
                proof {
                    assert(self@ =~= set_content_at(old(self)@, i as int, out@.content));
                }
                return Ok(out);
            }
            i += 1;
        }
        Err(StoreError::NotFound)
    }

    /// Remove the article carrying `id` and return its last state;
    /// `NotFound` when absent.
    #[verifier::loop_isolation(false)]
    pub fn delete_blog(&mut self, id: u128) -> (r: Result<Article, StoreError>)
        requires
            old(self).wf(),
        ensures
            final(self).wf(),
            match r {
                Ok(a) => {
                    &&& has_id(old(self)@, id)
                    &&& final(self)@ == old(self)@.remove(find_id(old(self)@, id))
                    &&& a@ == old(self)@[find_id(old(self)@, id)]
                },
                Err(e) => {
                    &&& e == StoreError::NotFound
                    &&& !has_id(old(self)@, id)
                    &&& final(self)@ == old(self)@
                },
            },
    {
        proof {
            lemma_find_id(self@, id);
        }
        let mut i: usize = 0;
        while i < self.articles.len()
            invariant
                i <= self.articles.len(),
                self@ == seq_view(self.articles@),
                self@ == old(self)@,
                forall|j: int| 0 <= j < i ==> self@[j].id != id,
            decreases self.articles.len() - i,
        {
            if self.articles[i].id == id {
                assert(self@[i as int].id == id);
                assert(find_id(self@, id) == i as int);
                let removed = self.articles.remove(i);
                proof {
                    assert(self@ =~= old(self)@.remove(i as int));
                }
                return Ok(removed);
            }
            i += 1;
        }
        Err(StoreError::NotFound)
    }

    /// The identifier of the first article titled `title`, when one exists.
    #[verifier::loop_isolation(false)]
    pub fn find_by_title(&self, title: &String) -> (r: Option<u128>)
        ensures
            match r {
                Some(id) => {
                    &&& find_title(self@, title@) >= 0
                    &&& self@[find_title(self@, title@)].id == id
                },
                None => find_title(self@, title@) == -1,
            },
    {
        proof {
            lemma_find_title(self@, title@);
        }
        let mut i: usize = 0;
        while i < self.articles.len()
            invariant
                i <= self.articles.len(),
                self@ == seq_view(self.articles@),
                forall|j: int| 0 <= j < i ==> self@[j].title != title@,
            decreases self.articles.len() - i,
        {
            if self.articles[i].title == *title {
                assert(self@[i as int].title == title@);
                assert(find_title(self@, title@) == i as int);
                return Some(self.articles[i].id);
            }
            i += 1;
        }
        None
    }

    /// Every article whose title contains `search_text` as a substring,
    /// up to ASCII case; the empty text matches everything.
    #[verifier::loop_isolation(false)]
    pub fn search_blogs(&self, search_text: String) -> (r: Vec<Article>)
        ensures
            seq_view(r@) == spec_search(self@, search_text@),
    {
        let mut r: Vec<Article> = Vec::new();
        let mut i: usize = 0;
        while i < self.articles.len()
            invariant
                i <= self.articles.len(),
                self@ == seq_view(self.articles@),
                seq_view(r@) == spec_search(self@.take(i as int), search_text@),
            decreases self.articles.len() - i,
        {
            let ghost pre = self@.take(i as int);
            let ghost pred = |a: ArticleView| contains_ci(a.title, search_text@);
            if str_contains_ci(self.articles[i].title.as_str(), search_text.as_str()) {
                let a = self.articles[i].clone();
                r.push(a);
            }
            proof {
                assert(self@.take(i + 1) =~= pre.push(self@[i as int]));
                reveal_with_fuel(Seq::filter, 2);
                assert(pre.push(self@[i as int]).drop_last() =~= pre);
                if pred(self@[i as int]) {
                    assert(seq_view(r@) =~= spec_search(self@.take(i + 1), search_text@));
                } else {
                    assert(seq_view(r@) =~= spec_search(self@.take(i + 1), search_text@));
                }
            }
            i += 1;
        }
        proof {
            assert(self@.take(self@.len() as int) =~= self@);
        }
        r
    }
}

/// Creating a fresh article and then fetching it by identifier returns
/// that article with its view counter exactly one higher, and leaves
/// the store holding the created article with the incremented counter.
pub proof fn lemma_create_then_get(s: Seq<ArticleView>, a: ArticleView)
    requires
        unique_ids(s),
        !has_id(s, a.id),
    ensures
        has_id(s.push(a), a.id),
        fetched(s.push(a), a.id) == with_views(a, a.views + 1),
        bump_at(s.push(a), find_id(s.push(a), a.id)) == s.push(with_views(a, a.views + 1)),
    decreases s.len(),
{
    lemma_find_id(s, a.id);
    lemma_find_id(s.push(a), a.id);
    let s1 = s.push(a);
    assert(s1[s.len() as int] == a);
    let r = find_id(s1, a.id);
    assert(r >= 0);
    assert(r == s.len());
    assert(bump_at(s1, r) =~= s.push(with_views(a, a.views + 1)));
}

/// Fetching the same article twice in a row returns view counters that
/// increase by exactly one between consecutive fetches.
pub proof fn lemma_get_twice(s: Seq<ArticleView>, id: u128)
    requires
        unique_ids(s),
        has_id(s, id),
    ensures
        has_id(bump_at(s, find_id(s, id)), id),
        fetched(bump_at(s, find_id(s, id)), id).views == fetched(s, id).views + 1,
{
    lemma_find_id(s, id);
    let i = find_id(s, id);
    let s1 = bump_at(s, i);
    lemma_find_id(s1, id);
    assert(s1[i].id == id);
    let r = find_id(s1, id);
    assert(r >= 0);
    assert(forall|j: int| 0 <= j < i ==> s1[j] == s[j]);
    assert(r == i);
}

/// The store after `n` single-article fetches of `id`, each of which
/// increments that article's view counter in place.
pub open spec fn bump_n(s: Seq<ArticleView>, id: u128, n: nat) -> Seq<ArticleView>
    decreases n,
{
    if n == 0 {
        s
    } else {
        bump_at(bump_n(s, id, (n - 1) as nat), find_id(bump_n(s, id, (n - 1) as nat), id))
    }
}

/// Any number of fetches of the same article returns view counters
/// that are strictly increasing by exactly one per call: after `n`
/// fetches the next one returns the initial counter plus `n` and one.
pub proof fn lemma_get_n_times(s: Seq<ArticleView>, id: u128, n: nat)
    requires
        unique_ids(s),
        has_id(s, id),
    ensures
        unique_ids(bump_n(s, id, n)),
        has_id(bump_n(s, id, n), id),
        fetched(bump_n(s, id, n), id).views == fetched(s, id).views + n,
    decreases n,
{
    if n > 0 {
        lemma_get_n_times(s, id, (n - 1) as nat);
        let s1 = bump_n(s, id, (n - 1) as nat);
        lemma_find_id(s1, id);
        let s2 = bump_at(s1, find_id(s1, id));
        lemma_get_twice(s1, id);
        assert(forall|j: int| 0 <= j < s2.len() ==> s2[j].id == s1[j].id);
        assert forall|p: int, q: int| 0 <= p < q < s2.len() implies s2[p].id != s2[q].id by {
            assert(s1[p].id != s1[q].id);
        }
    }
}

/// Search returns exactly the subset of the full listing whose title
/// contains the text, in listing order.
pub proof fn lemma_search_is_filter(s: Seq<ArticleView>, text: Seq<char>)
    ensures
        spec_search(s, text) == s.filter(|a: ArticleView| contains_ci(a.title, text)),
{
}

/// Matching is case-insensitive in the pattern as well as in the
/// title: two search texts equal up to ASCII case return the same
/// articles.
pub proof fn lemma_search_pattern_case(s: Seq<ArticleView>, t1: Seq<char>, t2: Seq<char>)
    requires
        t1.len() == t2.len(),
        forall|k: int| 0 <= k < t1.len() ==> crate::text::chars_eq_ci(t1[k], t2[k]),
    ensures
        spec_search(s, t1) == spec_search(s, t2),
    decreases s.len(),
{
    reveal_with_fuel(Seq::filter, 2);
    if s.len() == 0 {
        assert(spec_search(s, t1) =~= spec_search(s, t2));
    } else {
        lemma_search_pattern_case(s.drop_last(), t1, t2);
        crate::text::lemma_contains_ci_fold(s.last().title, t1, t2);
        assert(spec_search(s, t1) =~= spec_search(s, t2));
    }
}

/// Searching for the empty text returns the full article listing.
pub proof fn lemma_search_empty(s: Seq<ArticleView>)
    ensures
        spec_search(s, Seq::<char>::empty()) == s,
    decreases s.len(),
{
    reveal_with_fuel(Seq::filter, 2);
    if s.len() == 0 {
        assert(spec_search(s, Seq::<char>::empty()) =~= s);
    } else {
        lemma_search_empty(s.drop_last());
        crate::text::lemma_contains_ci_empty(s.last().title, Seq::<char>::empty());
        assert(spec_search(s, Seq::<char>::empty()) =~= s);
    }
}

} // verus!
