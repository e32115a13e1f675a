//! The reconciler: mirror a directory of markdown files into the
//! article store. Articles whose backing file is gone are deleted
//! first; then each file, in directory order, updates the content of
//! the first article bearing its title, or inserts a new article.

use vstd::prelude::*;
use crate::article::{seq_view, Article, ArticleView};
use crate::store::{
    find_id, find_title, has_id, lemma_find_id, lemma_find_title, set_content_at, Store,
    StoreError,
};
use crate::title::{extract_title, spec_title};
use crate::trusted::{fresh_id, html_of, markdown_to_html, now_rfc3339};

verus! {

/// A source file handed to the reconciler: its directory entry name
/// and its full text.
pub struct SourceFile {
    pub filename: String,
    pub content: String,
}

/// The mathematical image of a source file.
pub struct SourceFileView {
    pub filename: Seq<char>,
    pub content: Seq<char>,
}

impl View for SourceFile {
    type V = SourceFileView;

    open spec fn view(&self) -> SourceFileView {
        SourceFileView { filename: self.filename@, content: self.content@ }
    }
}

/// The image of a sequence of source files.
pub open spec fn files_view(v: Seq<SourceFile>) -> Seq<SourceFileView> {
    v.map_values(|f: SourceFile| f@)
}

/// The fixed author recorded on every ingested article.
pub open spec fn spec_author() -> Seq<char> {
    "Maneesh Wijewardhana"@
}

/// Some file in `files` is named `name`.
pub open spec fn has_file_named(files: Seq<SourceFileView>, name: Seq<char>) -> bool {
    exists|i: int| 0 <= i < files.len() && files[i].filename == name
}

/// The deletion pass: keep exactly the articles whose backing file is
/// still present, in store order.
pub open spec fn delete_pass(s: Seq<ArticleView>, files: Seq<SourceFileView>) -> Seq<ArticleView> {
    s.filter(|a: ArticleView| has_file_named(files, a.filename))
}

/// The article a file inserts when its title matches no stored article.
pub open spec fn article_of_file(f: SourceFileView, id: u128, now: Seq<char>) -> ArticleView {
    ArticleView {
        id: id,
        filename: f.filename,
        title: spec_title(f.content),
        author: spec_author(),
        content: html_of(f.content),
        created_at: now,
        views: 0,
    }
}

/// One upsert step: replace the content of the first article bearing
/// the file's title, or insert a new article when no title matches.
pub open spec fn upsert_step(
    s: Seq<ArticleView>,
    f: SourceFileView,
    id: u128,
    now: Seq<char>,
) -> Seq<ArticleView> {
    let t = spec_title(f.content);
    if find_title(s, t) >= 0 {
        set_content_at(s, find_title(s, t), html_of(f.content))
    } else {
        s.push(article_of_file(f, id, now))
    }
}

/// The upsert pass, file by file in directory order.
pub open spec fn upsert_pass(
    s: Seq<ArticleView>,
    files: Seq<SourceFileView>,
    ids: Seq<u128>,
    now: Seq<char>,
) -> Seq<ArticleView>
    decreases files.len(),
{
    if files.len() == 0 {
        s
    } else {
        upsert_pass(
            upsert_step(s, files[0], ids[0], now),
            files.drop_first(),
            ids.drop_first(),
            now,
        )
    }
}

/// What one reconciliation run leaves in the store.
pub open spec fn reconcile_spec(
    s: Seq<ArticleView>,
    files: Seq<SourceFileView>,
    ids: Seq<u128>,
    now: Seq<char>,
) -> Seq<ArticleView> {
    upsert_pass(delete_pass(s, files), files, ids, now)
}

/// The titles borne by a sequence of articles, in order.
pub open spec fn titles_of(s: Seq<ArticleView>) -> Seq<Seq<char>> {
    s.map_values(|a: ArticleView| a.title)
}

/// What one upsert step does to the borne titles: an update leaves
/// them alone, an insert appends the file's title.
pub open spec fn titles_step(ts: Seq<Seq<char>>, t: Seq<char>) -> Seq<Seq<char>> {
    if ts.contains(t) {
        ts
    } else {
        ts.push(t)
    }
}

/// The titles borne after the deletion pass and the first `k` upsert
/// steps of a run. Which titles are borne depends on neither the
/// drawn identifiers nor the timestamp.
pub open spec fn titles_after(s: Seq<ArticleView>, files: Seq<SourceFileView>, k: int) -> Seq<
    Seq<char>,
>
    decreases k,
{
    if k <= 0 {
        titles_of(delete_pass(s, files))
    } else {
        titles_step(titles_after(s, files, k - 1), spec_title(files[k - 1].content))
    }
}

/// Whether the file at position `k` of a run inserts a new article:
/// its extracted title is borne by nothing when the pass reaches it.
pub open spec fn needs_insert(s: Seq<ArticleView>, files: Seq<SourceFileView>, k: int) -> bool {
    !titles_after(s, files, k).contains(spec_title(files[k].content))
}

/// The identifiers a run actually uses — those at inserting positions
/// — are not yet stored and pairwise distinct.
pub open spec fn ids_fresh_where_needed(
    ids: Seq<u128>,
    s: Seq<ArticleView>,
    files: Seq<SourceFileView>,
) -> bool {
    forall|k: int|
        #![trigger needs_insert(s, files, k)]
        0 <= k < ids.len() && needs_insert(s, files, k) ==> !has_id(s, ids[k]) && (forall|j: int|
            0 <= j < k && needs_insert(s, files, j) ==> ids[j] != ids[k])
}

/// Processing one more file at the end of a pass runs that file last.
pub proof fn lemma_upsert_pass_snoc(
    s: Seq<ArticleView>,
    files: Seq<SourceFileView>,
    ids: Seq<u128>,
    now: Seq<char>,
    f: SourceFileView,
    id: u128,
)
    requires
        files.len() == ids.len(),
    ensures
        upsert_pass(s, files.push(f), ids.push(id), now) == upsert_step(
            upsert_pass(s, files, ids, now),
            f,
            id,
            now,
        ),
    decreases files.len(),
{
    reveal_with_fuel(upsert_pass, 3);
    if files.len() == 0 {
        assert(files.push(f)[0] == f);
        assert(ids.push(id)[0] == id);
        assert(files.push(f).drop_first() =~= files);
        assert(ids.push(id).drop_first() =~= ids);
    } else {
        assert(files.push(f)[0] == files[0]);
        assert(ids.push(id)[0] == ids[0]);
        assert(files.push(f).drop_first() =~= files.drop_first().push(f));
        assert(ids.push(id).drop_first() =~= ids.drop_first().push(id));
        lemma_upsert_pass_snoc(
            upsert_step(s, files[0], ids[0], now),
            files.drop_first(),
            ids.drop_first(),
            now,
            f,
            id,
        );
    }
}

/// A title is found by `find_title` exactly when some article bears it.
pub proof fn lemma_find_title_contains(s: Seq<ArticleView>, t: Seq<char>)
    ensures
        find_title(s, t) >= 0 <==> titles_of(s).contains(t),
{
    lemma_find_title(s, t);
    if find_title(s, t) >= 0 {
        assert(titles_of(s)[find_title(s, t)] == t);
    }
    if titles_of(s).contains(t) {
        let i = choose|i: int| 0 <= i < titles_of(s).len() && titles_of(s)[i] == t;
        assert(s[i].title == t);
    }
}

/// The titles borne after `k` upsert steps are `titles_after`, whatever
/// identifiers and timestamp the run was given.
pub proof fn lemma_titles_after(
    s0: Seq<ArticleView>,
    files: Seq<SourceFileView>,
    ids: Seq<u128>,
    now: Seq<char>,
    k: int,
)
    requires
        0 <= k <= files.len(),
        ids.len() == files.len(),
    ensures
        titles_of(upsert_pass(delete_pass(s0, files), files.take(k), ids.take(k), now))
            == titles_after(s0, files, k),
    decreases k,
{
    let ds = delete_pass(s0, files);
    if k == 0 {
        assert(files.take(0) =~= Seq::<SourceFileView>::empty());
        assert(ids.take(0) =~= Seq::<u128>::empty());
    } else {
        lemma_titles_after(s0, files, ids, now, k - 1);
        assert(files.take(k) =~= files.take(k - 1).push(files[k - 1]));
        assert(ids.take(k) =~= ids.take(k - 1).push(ids[k - 1]));
        lemma_upsert_pass_snoc(ds, files.take(k - 1), ids.take(k - 1), now, files[k - 1], ids[k
            - 1]);
        let st = upsert_pass(ds, files.take(k - 1), ids.take(k - 1), now);
        let t = spec_title(files[k - 1].content);
        lemma_find_title_contains(st, t);
        lemma_find_title(st, t);
        if find_title(st, t) >= 0 {
            assert(titles_of(upsert_step(st, files[k - 1], ids[k - 1], now)) =~= titles_of(st));
        } else {
            assert(titles_of(st.push(article_of_file(files[k - 1], ids[k - 1], now))) =~= titles_of(
                st,
            ).push(t));
        }
    }
}

/// Two equally long sequences with the same identifier at each index
/// hold the same identifiers.
pub proof fn lemma_same_ids(s1: Seq<ArticleView>, s2: Seq<ArticleView>)
    requires
        s1.len() == s2.len(),
        forall|j: int| 0 <= j < s1.len() ==> s1[j].id == s2[j].id,
    ensures
        forall|x: u128| has_id(s1, x) == has_id(s2, x),
{
    assert forall|x: u128| has_id(s1, x) == has_id(s2, x) by {
        lemma_find_id(s1, x);
        lemma_find_id(s2, x);
        if has_id(s1, x) {
            assert(s2[find_id(s1, x)].id == x);
        }
        if has_id(s2, x) {
            assert(s1[find_id(s2, x)].id == x);
        }
    }
}

/// Every article the filter keeps stands somewhere in the unfiltered sequence.
pub proof fn lemma_filter_mem(s: Seq<ArticleView>, pred: spec_fn(ArticleView) -> bool, i: int)
    requires
        0 <= i < s.filter(pred).len(),
    ensures
        exists|j: int| 0 <= j < s.len() && s[j] == s.filter(pred)[i],
    decreases s.len(),
{
    reveal_with_fuel(Seq::filter, 2);
    let dl = s.drop_last();
    if pred(s.last()) && i == s.filter(pred).len() - 1 {
        assert(s.filter(pred)[i] == s.last());
        assert(s[s.len() - 1] == s.filter(pred)[i]);
    } else {
        lemma_filter_mem(dl, pred, i);
        let j = choose|j: int| 0 <= j < dl.len() && dl[j] == dl.filter(pred)[i];
        assert(s[j] == s.filter(pred)[i]);
    }
}

/// An identifier found after filtering was already there before filtering.
pub proof fn lemma_has_id_filter(s: Seq<ArticleView>, pred: spec_fn(ArticleView) -> bool, x: u128)
    requires
        has_id(s.filter(pred), x),
    ensures
        has_id(s, x),
{
    lemma_find_id(s.filter(pred), x);
    let r = find_id(s.filter(pred), x);
    lemma_filter_mem(s, pred, r);
    let j = choose|j: int| 0 <= j < s.len() && s[j] == s.filter(pred)[r];
    lemma_find_id(s, x);
    assert(s[j].id == x);
}

/// An identifier found after a push was either pushed or already there.
pub proof fn lemma_has_id_push(s: Seq<ArticleView>, a: ArticleView, x: u128)
    requires
        has_id(s.push(a), x),
    ensures
        x == a.id || has_id(s, x),
{
    lemma_find_id(s.push(a), x);
    let r = find_id(s.push(a), x);
    if r < s.len() {
        lemma_find_id(s, x);
        assert(s[r].id == x);
    }
}

fn contains_filename(files: &Vec<SourceFile>, name: &String) -> (r: bool)
    ensures
        r == has_file_named(files_view(files@), name@),
{
    let ghost fv = files_view(files@);
    let mut i: usize = 0;
    while i < files.len()
        invariant
            i <= files.len(),
            fv == files_view(files@),
            forall|j: int| 0 <= j < i ==> fv[j].filename != name@,
        decreases files.len() - i,
    {
        if files[i].filename == *name {
            assert(fv[i as int].filename == name@);
            return true;
        }
        i += 1;
    }
    false
}

/// The view of a sequence of title strings.
pub open spec fn title_views(v: Seq<String>) -> Seq<Seq<char>> {
    v.map_values(|s: String| s@)
}

fn title_in(titles: &Vec<String>, t: &String) -> (r: bool)
    ensures
        r == title_views(titles@).contains(t@),
{
    let mut p: usize = 0;
    while p < titles.len()
        invariant
            p <= titles.len(),
            forall|q: int| 0 <= q < p ==> title_views(titles@)[q] != t@,
        decreases titles.len() - p,
    {
        if titles[p] == *t {
            assert(title_views(titles@)[p as int] == t@);
            return true;
        }
        p += 1;
    }
    false
}

fn id_drawn(drawn: &Vec<u128>, x: u128) -> (r: bool)
    ensures
        r == drawn@.contains(x),
{
    let mut p: usize = 0;
    while p < drawn.len()
        invariant
            p <= drawn.len(),
            forall|q: int| 0 <= q < p ==> drawn@[q] != x,
        decreases drawn.len() - p,
    {
        if drawn[p] == x {
            return true;
        }
        p += 1;
    }
    false
}

/// One reconciliation run over an already-read directory snapshot,
/// with a caller-supplied fresh identifier per file and one timestamp
/// for the run. The deletion pass is keyed by filename; the upsert
/// pass is keyed by extracted title, so two files with one title merge
/// into one article. The run always completes, and leaves the store
/// holding exactly the reconciled article set.
#[verifier::loop_isolation(false)]
#[verifier::rlimit(80)]
pub fn reconcile(store: &mut Store, files: &Vec<SourceFile>, ids: &Vec<u128>, now: &String)
    requires
        old(store).wf(),
        ids@.len() == files@.len(),
        ids_fresh_where_needed(ids@, old(store)@, files_view(files@)),
    ensures
        final(store).wf(),
        final(store)@ == reconcile_spec(old(store)@, files_view(files@), ids@, now@),
{
    let ghost fv = files_view(files@);
    let ghost s0 = store@;
    let ghost keep = |a: ArticleView| has_file_named(fv, a.filename);
    let existing = store.get_blogs();
    let mut d: usize = 0;
    while d < existing.len()
        invariant
            d <= existing.len(),
            seq_view(existing@) == s0,
            store@ == s0.take(d as int).filter(keep) + s0.skip(d as int),
            store.wf(),
        decreases existing.len() - d,
    {
        let ghost pre = store@;
        let ghost a = s0[d as int];
        let ghost front = s0.take(d as int).filter(keep);
        proof {
            assert(s0.skip(d as int)[0] == a);
            assert(pre[front.len() as int] == a);
        }
        let kept = contains_filename(files, &existing[d].filename);
        proof {
            assert(existing@[d as int]@ == a);
        }
        if !kept {
            let _r = store.delete_blog(existing[d].id);
            proof {
                lemma_find_id(pre, a.id);
                assert(pre[front.len() as int].id == a.id);
                assert(has_id(pre, a.id));
                let rix = find_id(pre, a.id);
                assert(pre[rix].id == a.id);
                assert(rix == front.len() as int);
                assert(_r is Ok);
                reveal_with_fuel(Seq::filter, 2);
                assert(s0.take(d + 1) =~= s0.take(d as int).push(a));
                assert(s0.take(d as int).push(a).drop_last() =~= s0.take(d as int));
                assert(!keep(a));
                assert(s0.take(d + 1).filter(keep) =~= front);
                assert(store@ =~= s0.take(d + 1).filter(keep) + s0.skip(d + 1));
            }
        } else {
            proof {
                reveal_with_fuel(Seq::filter, 2);
                assert(s0.take(d + 1) =~= s0.take(d as int).push(a));
                assert(s0.take(d as int).push(a).drop_last() =~= s0.take(d as int));
                assert(keep(a));
                assert(s0.take(d + 1).filter(keep) =~= front.push(a));
                assert(store@ =~= s0.take(d + 1).filter(keep) + s0.skip(d + 1));
            }
        }
        d += 1;
    }
    proof {
        assert(s0.take(s0.len() as int) =~= s0);
        assert(s0.skip(s0.len() as int) =~= Seq::<ArticleView>::empty());
        assert(store@ =~= delete_pass(s0, fv));
    }
    let ghost ds = delete_pass(s0, fv);
    proof {
        assert forall|x: u128| has_id(ds, x) implies has_id(s0, x) by {
            lemma_has_id_filter(s0, keep, x);
        }
        assert(fv.take(0) =~= Seq::<SourceFileView>::empty());
        assert(ids@.take(0) =~= Seq::<u128>::empty());
    }
    let mut k: usize = 0;
    while k < files.len()
        invariant
            k <= files.len(),
            store@ == upsert_pass(ds, fv.take(k as int), ids@.take(k as int), now@),
            store.wf(),
            forall|x: u128|
                has_id(store@, x) ==> has_id(s0, x) || exists|j: int|
                    0 <= j < k && needs_insert(s0, fv, j) && ids@[j] == x,
        decreases files.len() - k,
    {
        let ghost pre = store@;
        let title = extract_title(files[k].content.as_str());
        proof {
            assert(fv[k as int] == files@[k as int]@);
        }
        let html = markdown_to_html(files[k].content.as_str()).unwrap();
        proof {
            assert(title@ == spec_title(fv[k as int].content));
            assert(html@ == html_of(fv[k as int].content));
        }
        match store.find_by_title(&title) {
            Some(id) => {
                let _r = store.update_article_content(id, html);
                proof {
                    lemma_find_title(pre, title@);
                    let ft = find_title(pre, title@);
                    assert(pre[ft].id == id);
                    lemma_find_id(pre, id);
                    assert(has_id(pre, id));
                    let fi = find_id(pre, id);
                    assert(pre[fi].id == id);
                    assert(fi == ft);
                    assert(_r is Ok);
                    assert(store@ == set_content_at(pre, ft, html@));
                    assert(store@ == upsert_step(pre, fv[k as int], ids@[k as int], now@));
                    lemma_same_ids(pre, store@);
                }
            },
            None => {
                let article = Article {
                    id: ids[k],
                    filename: files[k].filename.clone(),
                    title,
                    author: "Maneesh Wijewardhana".to_owned(),
                    content: html,
                    created_at: now.clone(),
                    views: 0,
                };
                let ghost av = article@;
                let _r = store.create_blog(article);
                proof {
                    lemma_titles_after(s0, fv, ids@, now@, k as int);
                    lemma_find_title_contains(pre, title@);
                    assert(needs_insert(s0, fv, k as int));
                    assert(!has_id(s0, ids@[k as int]));
                    assert(!has_id(pre, ids@[k as int]));
                    assert(_r is Ok);
                    assert(av == article_of_file(fv[k as int], ids@[k as int], now@));
                    assert(find_title(pre, spec_title(fv[k as int].content)) == -1);
                    assert(store@ == upsert_step(pre, fv[k as int], ids@[k as int], now@));
                    assert forall|x: u128|
                        has_id(store@, x) implies has_id(s0, x) || exists|j: int|
                        0 <= j < k + 1 && needs_insert(s0, fv, j) && ids@[j] == x by {
                        lemma_has_id_push(pre, av, x);
                        if x == av.id {
                            assert(ids@[k as int] == x);
                        }
                    }
                }
            },
        }
        proof {
            assert(fv.take(k + 1) =~= fv.take(k as int).push(fv[k as int]));
            assert(ids@.take(k + 1) =~= ids@.take(k as int).push(ids@[k as int]));
            lemma_upsert_pass_snoc(
                ds,
                fv.take(k as int),
                ids@.take(k as int),
                now@,
                fv[k as int],
                ids@[k as int],
            );
            assert(store@ == upsert_pass(ds, fv.take(k + 1), ids@.take(k + 1), now@));
        }
        k += 1;
    }
    proof {
        assert(fv.take(fv.len() as int) =~= fv);
        assert(ids@.take(ids@.len() as int) =~= ids@);
    }
}

/// Reconcile the store against a directory snapshot, drawing a fresh
/// identifier for each file that will insert a new article and one
/// timestamp for the run. The one failure is a collision among the
/// drawn identifiers, which leaves the store unchanged; a run that
/// needs no insert draws nothing and always succeeds, and it takes at
/// least two files, or a non-empty store, to collide at all.
#[verifier::loop_isolation(false)]
#[verifier::rlimit(60)]
pub fn insert_files(store: &mut Store, files: &Vec<SourceFile>) -> (r: Result<(), StoreError>)
    requires
        old(store).wf(),
    ensures
        final(store).wf(),
        match r {
            Ok(()) => exists|ids: Seq<u128>, now: Seq<char>|
                ids.len() == files@.len() && now.len() > 0 && ids_fresh_where_needed(
                    ids,
                    old(store)@,
                    files_view(files@),
                ) && final(store)@ == reconcile_spec(old(store)@, files_view(files@), ids, now),
            Err(e) => {
                &&& e == StoreError::Conflict
                &&& final(store)@ == old(store)@
            },
        },
        files@.len() == 0 ==> r is Ok,
        (forall|k: int|
            0 <= k < files@.len() ==> !needs_insert(old(store)@, files_view(files@), k)) ==> r
            is Ok,
        r is Err ==> files@.len() > 1 || old(store)@.len() > 0,
{
    let ghost fv = files_view(files@);
    let ghost s0 = store@;
    let ghost keep = |a: ArticleView| has_file_named(fv, a.filename);
    let now = now_rfc3339();
    // the titles the deletion pass will leave, in store order
    let existing = store.get_blogs();
    let mut titles: Vec<String> = Vec::new();
    let mut i: usize = 0;
    while i < existing.len()
        invariant
            i <= existing.len(),
            seq_view(existing@) == s0,
            store@ == s0,
            title_views(titles@) == titles_of(s0.take(i as int).filter(keep)),
        decreases existing.len() - i,
    {
        let ghost a = s0[i as int];
        let kept = contains_filename(files, &existing[i].filename);
        proof {
            assert(existing@[i as int]@ == a);
            reveal_with_fuel(Seq::filter, 2);
            assert(s0.take(i + 1) =~= s0.take(i as int).push(a));
            assert(s0.take(i as int).push(a).drop_last() =~= s0.take(i as int));
        }
        if kept {
            let ghost tl0 = titles@;
            titles.push(existing[i].title.clone());
            proof {
                assert(keep(a));
                assert(s0.take(i + 1).filter(keep) =~= s0.take(i as int).filter(keep).push(a));
                assert(titles@ =~= tl0.push(titles@.last()));
                assert(titles@.last()@ == a.title);
                assert(title_views(titles@) =~= title_views(tl0).push(a.title));
                assert(titles_of(s0.take(i as int).filter(keep).push(a)) =~= titles_of(
                    s0.take(i as int).filter(keep),
                ).push(a.title));
                assert(title_views(titles@) =~= titles_of(s0.take(i + 1).filter(keep)));
            }
        } else {
            proof {
                assert(!keep(a));
                assert(s0.take(i + 1).filter(keep) =~= s0.take(i as int).filter(keep));
            }
        }
        i += 1;
    }
    proof {
        assert(s0.take(s0.len() as int) =~= s0);
        assert(title_views(titles@) == titles_after(s0, fv, 0));
    }
    // draw an identifier only for a file whose title is borne by nothing
    let mut ids: Vec<u128> = Vec::new();
    let mut drawn: Vec<u128> = Vec::new();
    let mut k: usize = 0;
    while k < files.len()
        invariant
            k <= files.len(),
            ids@.len() == k,
            drawn@.len() <= k,
            store@ == s0,
            title_views(titles@) == titles_after(s0, fv, k as int),
            forall|j: int|
                0 <= j < k && needs_insert(s0, fv, j) ==> !has_id(s0, ids@[j])
                    && drawn@.contains(ids@[j]),
            forall|j1: int, j2: int|
                0 <= j1 < j2 < k && needs_insert(s0, fv, j1) && needs_insert(s0, fv, j2)
                    ==> ids@[j1] != ids@[j2],
        decreases files.len() - k,
    {
        let t = extract_title(files[k].content.as_str());
        proof {
            assert(fv[k as int] == files@[k as int]@);
            assert(t@ == spec_title(fv[k as int].content));
        }
        if title_in(&titles, &t) {
            proof {
                assert(!needs_insert(s0, fv, k as int));
                assert(titles_after(s0, fv, k + 1) == title_views(titles@));
            }
            // this position updates an existing article, so its
            // identifier is never read
            ids.push(0);
        } else {
            proof {
                assert(needs_insert(s0, fv, k as int));
            }
            let id = fresh_id();
            if store.contains_id(id) {
                proof {
                    lemma_find_id(s0, id);
                }
                return Err(StoreError::Conflict);
            }
            if id_drawn(&drawn, id) {
                proof {
                    assert(drawn@.len() > 0);
                    assert(files@.len() >= 2);
                }
                return Err(StoreError::Conflict);
            }
            proof {
                assert(titles_after(s0, fv, k + 1) =~= title_views(titles@).push(t@));
            }
            let ghost drawn0 = drawn@;
            ids.push(id);
            drawn.push(id);
            titles.push(t);
            proof {
                assert(title_views(titles@) =~= titles_after(s0, fv, k + 1));
                assert forall|j: int|
                    0 <= j < k + 1 && needs_insert(s0, fv, j) implies !has_id(s0, ids@[j])
                    && drawn@.contains(ids@[j]) by {
                    if j < k {
                        assert(drawn0.contains(ids@[j]));
                        let p = choose|p: int| 0 <= p < drawn0.len() && drawn0[p] == ids@[j];
                        assert(drawn@[p] == ids@[j]);
                    } else {
                        assert(drawn@[drawn@.len() - 1] == id);
                    }
                }
                assert forall|j1: int, j2: int|
                    0 <= j1 < j2 < k + 1 && needs_insert(s0, fv, j1) && needs_insert(s0, fv, j2)
                    implies ids@[j1] != ids@[j2] by {
                    if j2 == k as int {
                        assert(drawn0.contains(ids@[j1]));
                        let p = choose|p: int| 0 <= p < drawn0.len() && drawn0[p] == ids@[j1];
                        assert(drawn0[p] != id);
                    }
                }
            }
        }
        k += 1;
    }
    proof {
        assert(ids_fresh_where_needed(ids@, s0, fv));
    }
    reconcile(store, files, &ids, &now);
    proof {
        assert(ids@.len() == files@.len() && now@.len() > 0 && ids_fresh_where_needed(
            ids@,
            old(store)@,
            fv,
        ) && store@ == reconcile_spec(old(store)@, fv, ids@, now@));
    }
    Ok(())
}

/// `find_title` looks only at titles: sequences with equal titles at
/// each index agree on it.
pub proof fn lemma_find_title_same(s1: Seq<ArticleView>, s2: Seq<ArticleView>, t: Seq<char>)
    requires
        s1.len() == s2.len(),
        forall|j: int| 0 <= j < s1.len() ==> s1[j].title == s2[j].title,
    ensures
        find_title(s1, t) == find_title(s2, t),
    decreases s1.len(),
{
    if s1.len() > 0 && s1[0].title != t {
        let d1 = s1.drop_first();
        let d2 = s2.drop_first();
        assert(forall|j: int| 0 <= j < d1.len() ==> d1[j].title == d2[j].title);
        lemma_find_title_same(d1, d2, t);
    }
}

/// Filtering with a predicate that every element meets keeps everything.
pub proof fn lemma_filter_all(s: Seq<ArticleView>, pred: spec_fn(ArticleView) -> bool)
    requires
        forall|j: int| 0 <= j < s.len() ==> pred(s[j]),
    ensures
        s.filter(pred) == s,
    decreases s.len(),
{
    reveal_with_fuel(Seq::filter, 2);
    if s.len() == 0 {
        assert(s.filter(pred) =~= s);
    } else {
        lemma_filter_all(s.drop_last(), pred);
        assert(pred(s.last()));
        assert(s.filter(pred) =~= s);
    }
}

/// Appending an article moves the first title match only when the
/// title was absent, in which case the appended article is the match.
pub proof fn lemma_find_title_push(s: Seq<ArticleView>, a: ArticleView, t: Seq<char>)
    ensures
        find_title(s.push(a), t) == if find_title(s, t) >= 0 {
            find_title(s, t)
        } else if a.title == t {
            s.len() as int
        } else {
            -1
        },
{
    lemma_find_title(s, t);
    lemma_find_title(s.push(a), t);
    let r = find_title(s, t);
    let rp = find_title(s.push(a), t);
    if r >= 0 {
        assert(s.push(a)[r].title == t);
        if rp < r {
            assert(s[rp].title == t);
        }
        if rp > r {
            assert(s.push(a)[r].title != t);
        }
    } else {
        if a.title == t {
            assert(s.push(a)[s.len() as int].title == t);
            if rp < s.len() {
                assert(s[rp].title == t);
            }
        } else {
            if rp >= 0 {
                if rp < s.len() {
                    assert(s[rp].title == t);
                } else {
                    assert(s.push(a)[rp].title == a.title);
                }
            }
        }
    }
}

/// A title present in the store stays present through an upsert pass.
pub proof fn lemma_upsert_title_monotone(
    s: Seq<ArticleView>,
    files: Seq<SourceFileView>,
    ids: Seq<u128>,
    now: Seq<char>,
    t: Seq<char>,
)
    requires
        find_title(s, t) >= 0,
    ensures
        find_title(upsert_pass(s, files, ids, now), t) >= 0,
    decreases files.len(),
{
    if files.len() > 0 {
        let t0 = spec_title(files[0].content);
        let s1 = upsert_step(s, files[0], ids[0], now);
        if find_title(s, t0) >= 0 {
            lemma_find_title(s, t0);
            assert(forall|j: int| 0 <= j < s1.len() ==> s1[j].title == s[j].title);
            lemma_find_title_same(s1, s, t);
        } else {
            lemma_find_title_push(s, article_of_file(files[0], ids[0], now), t);
        }
        lemma_upsert_title_monotone(s1, files.drop_first(), ids.drop_first(), now, t);
    }
}

/// After an upsert pass, every file's extracted title is borne by some
/// stored article.
pub proof fn lemma_upsert_titles_present(
    s: Seq<ArticleView>,
    files: Seq<SourceFileView>,
    ids: Seq<u128>,
    now: Seq<char>,
)
    ensures
        forall|i: int|
            0 <= i < files.len() ==> find_title(
                upsert_pass(s, files, ids, now),
                spec_title(files[i].content),
            ) >= 0,
    decreases files.len(),
{
    if files.len() > 0 {
        let t0 = spec_title(files[0].content);
        let s1 = upsert_step(s, files[0], ids[0], now);
        lemma_upsert_titles_present(s1, files.drop_first(), ids.drop_first(), now);
        if find_title(s, t0) >= 0 {
            lemma_find_title(s, t0);
            assert(forall|j: int| 0 <= j < s1.len() ==> s1[j].title == s[j].title);
            lemma_find_title_same(s1, s, t0);
        } else {
            lemma_find_title_push(s, article_of_file(files[0], ids[0], now), t0);
            assert(s1[s.len() as int].title == t0);
            lemma_find_title(s1, t0);
        }
        assert(find_title(s1, t0) >= 0);
        lemma_upsert_title_monotone(s1, files.drop_first(), ids.drop_first(), now, t0);
        assert forall|i: int|
            0 <= i < files.len() implies find_title(
            upsert_pass(s, files, ids, now),
            spec_title(files[i].content),
        ) >= 0 by {
            if i > 0 {
                assert(files.drop_first()[i - 1] == files[i]);
            }
        }
    }
}

/// When every file's title is already present, an upsert pass inserts
/// nothing and deletes nothing: every article stays at its index with
/// its identifier, filename, title, author, creation time and view
/// count unchanged; only contents are rewritten.
pub proof fn lemma_upsert_update_only(
    s: Seq<ArticleView>,
    files: Seq<SourceFileView>,
    ids: Seq<u128>,
    now: Seq<char>,
)
    requires
        forall|i: int| 0 <= i < files.len() ==> find_title(s, spec_title(files[i].content)) >= 0,
    ensures
        upsert_pass(s, files, ids, now).len() == s.len(),
        forall|j: int|
            0 <= j < s.len() ==> {
                let a = #[trigger] upsert_pass(s, files, ids, now)[j];
                a.id == s[j].id && a.filename == s[j].filename && a.title == s[j].title && a.author
                    == s[j].author && a.created_at == s[j].created_at && a.views == s[j].views
            },
    decreases files.len(),
{
    if files.len() > 0 {
        let t0 = spec_title(files[0].content);
        assert(find_title(s, t0) >= 0);
        let s1 = upsert_step(s, files[0], ids[0], now);
        lemma_find_title(s, t0);
        assert(s1.len() == s.len());
        assert(forall|j: int| 0 <= j < s1.len() ==> s1[j].title == s[j].title);
        assert forall|i: int|
            0 <= i < files.drop_first().len() implies find_title(
            s1,
            spec_title(files.drop_first()[i].content),
        ) >= 0 by {
            assert(files.drop_first()[i] == files[i + 1]);
            lemma_find_title_same(s1, s, spec_title(files[i + 1].content));
        }
        lemma_upsert_update_only(s1, files.drop_first(), ids.drop_first(), now);
    }
}

/// After a reconciliation run every stored article is backed by a file
/// of the directory snapshot: updates keep the filename they found,
/// and inserts carry the name of the file that produced them.
pub proof fn lemma_upsert_filenames(
    s: Seq<ArticleView>,
    files: Seq<SourceFileView>,
    ids: Seq<u128>,
    now: Seq<char>,
    all: Seq<SourceFileView>,
)
    requires
        forall|j: int| 0 <= j < s.len() ==> has_file_named(all, s[j].filename),
        forall|i: int| 0 <= i < files.len() ==> has_file_named(all, files[i].filename),
    ensures
        forall|j: int|
            0 <= j < upsert_pass(s, files, ids, now).len() ==> has_file_named(
                all,
                upsert_pass(s, files, ids, now)[j].filename,
            ),
    decreases files.len(),
{
    if files.len() > 0 {
        let t0 = spec_title(files[0].content);
        let s1 = upsert_step(s, files[0], ids[0], now);
        lemma_find_title(s, t0);
        assert forall|j: int| 0 <= j < s1.len() implies has_file_named(all, s1[j].filename) by {
            if find_title(s, t0) >= 0 {
                assert(s1[j].filename == s[j].filename);
            } else if j < s.len() {
                assert(s1[j] == s[j]);
            } else {
                assert(s1[j].filename == files[0].filename);
            }
        }
        assert forall|i: int|
            0 <= i < files.drop_first().len() implies has_file_named(
            all,
            files.drop_first()[i].filename,
        ) by {
            assert(files.drop_first()[i] == files[i + 1]);
        }
        lemma_upsert_filenames(s1, files.drop_first(), ids.drop_first(), now, all);
        assert(upsert_pass(s, files, ids, now) == upsert_pass(
            s1,
            files.drop_first(),
            ids.drop_first(),
            now,
        ));
    }
}

/// After a reconciliation run, the store holds only articles whose
/// backing file stands in the directory snapshot.
pub proof fn lemma_reconcile_filenames(
    s: Seq<ArticleView>,
    files: Seq<SourceFileView>,
    ids: Seq<u128>,
    now: Seq<char>,
)
    ensures
        forall|j: int|
            0 <= j < reconcile_spec(s, files, ids, now).len() ==> has_file_named(
                files,
                reconcile_spec(s, files, ids, now)[j].filename,
            ),
{
    let keep = |a: ArticleView| has_file_named(files, a.filename);
    let ds = delete_pass(s, files);
    assert forall|j: int| 0 <= j < ds.len() implies has_file_named(files, ds[j].filename) by {
        s.lemma_filter_pred(keep, j);
    }
    lemma_upsert_filenames(ds, files, ids, now, files);
}

/// The index in `fs` of the last file whose extracted title resolves,
/// against the articles `base`, to the article at index `j`; -1 when
/// no file writes there.
pub open spec fn last_writer(base: Seq<ArticleView>, fs: Seq<SourceFileView>, j: int) -> int
    decreases fs.len(),
{
    if fs.len() == 0 {
        -1
    } else if find_title(base, spec_title(fs.last().content)) == j {
        fs.len() - 1
    } else {
        last_writer(base, fs.drop_last(), j)
    }
}

/// `last_writer` stays within `fs`, and a writer's title resolves to `j`.
pub proof fn lemma_last_writer_range(base: Seq<ArticleView>, fs: Seq<SourceFileView>, j: int)
    ensures
        last_writer(base, fs, j) == -1 || 0 <= last_writer(base, fs, j) < fs.len(),
        last_writer(base, fs, j) >= 0 ==> find_title(
            base,
            spec_title(fs[last_writer(base, fs, j)].content),
        ) == j,
    decreases fs.len(),
{
    if fs.len() > 0 && find_title(base, spec_title(fs.last().content)) != j {
        lemma_last_writer_range(base, fs.drop_last(), j);
    }
}

/// Bases against which every file's title resolves alike share their
/// last writers.
pub proof fn lemma_last_writer_same(
    b1: Seq<ArticleView>,
    b2: Seq<ArticleView>,
    fs: Seq<SourceFileView>,
    j: int,
)
    requires
        forall|i: int|
            0 <= i < fs.len() ==> find_title(b1, spec_title(fs[i].content)) == find_title(
                b2,
                spec_title(fs[i].content),
            ),
    ensures
        last_writer(b1, fs, j) == last_writer(b2, fs, j),
    decreases fs.len(),
{
    if fs.len() > 0 {
        assert(fs[fs.len() - 1] == fs.last());
        assert forall|i: int|
            0 <= i < fs.drop_last().len() implies find_title(
            b1,
            spec_title(fs.drop_last()[i].content),
        ) == find_title(b2, spec_title(fs.drop_last()[i].content)) by {
            assert(fs.drop_last()[i] == fs[i]);
        }
        lemma_last_writer_same(b1, b2, fs.drop_last(), j);
    }
}

/// What an upsert pass writes: the article at `j` holds the HTML of
/// the last file that resolves to `j`, and keeps its prior content
/// when no file writes there.
pub proof fn lemma_upsert_contents(
    s: Seq<ArticleView>,
    fs: Seq<SourceFileView>,
    ids: Seq<u128>,
    now: Seq<char>,
)
    requires
        ids.len() == fs.len(),
    ensures
        ({
            let f = upsert_pass(s, fs, ids, now);
            &&& forall|j: int|
                0 <= j < f.len() && #[trigger] last_writer(f, fs, j) >= 0 ==> f[j].content
                    == html_of(fs[last_writer(f, fs, j)].content)
            &&& forall|j: int|
                0 <= j < f.len() && #[trigger] last_writer(f, fs, j) == -1 ==> j < s.len() && f[j]
                    == s[j]
        }),
    decreases fs.len(),
{
    if fs.len() > 0 {
        let fsd = fs.drop_last();
        let idsd = ids.drop_last();
        let g = fs.last();
        let tg = spec_title(g.content);
        let fmid = upsert_pass(s, fsd, idsd, now);
        let f = upsert_pass(s, fs, ids, now);
        lemma_upsert_contents(s, fsd, idsd, now);
        lemma_upsert_titles_present(s, fsd, idsd, now);
        assert(fsd.push(g) =~= fs);
        assert(idsd.push(ids.last()) =~= ids);
        lemma_upsert_pass_snoc(s, fsd, idsd, now, g, ids.last());
        assert(f == upsert_step(fmid, g, ids.last(), now));
        lemma_find_title(fmid, tg);
        let jg = find_title(fmid, tg);
        // against the final state, every earlier file's title resolves
        // as it did against the intermediate state
        if jg >= 0 {
            assert(forall|j: int| 0 <= j < f.len() ==> f[j].title == fmid[j].title);
            assert forall|i: int|
                0 <= i < fsd.len() implies find_title(fmid, spec_title(fsd[i].content))
                == find_title(f, spec_title(fsd[i].content)) by {
                lemma_find_title_same(fmid, f, spec_title(fsd[i].content));
            }
            lemma_find_title_same(fmid, f, tg);
            assert forall|j: int| #![trigger last_writer(f, fs, j)] 0 <= j < f.len() implies ({
                &&& last_writer(f, fs, j) >= 0 ==> f[j].content == html_of(
                    fs[last_writer(f, fs, j)].content,
                )
                &&& last_writer(f, fs, j) == -1 ==> j < s.len() && f[j] == s[j]
            }) by {
                lemma_last_writer_same(f, fmid, fsd, j);
                lemma_last_writer_range(fmid, fsd, j);
                assert(fs[fs.len() - 1] == g);
                if j == jg {
                    assert(last_writer(f, fs, j) == fs.len() - 1);
                    assert(f[j].content == html_of(g.content));
                } else {
                    assert(last_writer(f, fs, j) == last_writer(fmid, fsd, j));
                    assert(f[j] == fmid[j]);
                    if last_writer(fmid, fsd, j) >= 0 {
                        assert(fsd[last_writer(fmid, fsd, j)] == fs[last_writer(fmid, fsd, j)]);
                    }
                }
            }
        } else {
            let a = article_of_file(g, ids.last(), now);
            assert(f == fmid.push(a));
            assert forall|i: int|
                0 <= i < fsd.len() implies find_title(fmid, spec_title(fsd[i].content))
                == find_title(f, spec_title(fsd[i].content)) by {
                lemma_find_title_push(fmid, a, spec_title(fsd[i].content));
            }
            lemma_find_title_push(fmid, a, tg);
            assert(find_title(f, tg) == fmid.len());
            assert forall|j: int| #![trigger last_writer(f, fs, j)] 0 <= j < f.len() implies ({
                &&& last_writer(f, fs, j) >= 0 ==> f[j].content == html_of(
                    fs[last_writer(f, fs, j)].content,
                )
                &&& last_writer(f, fs, j) == -1 ==> j < s.len() && f[j] == s[j]
            }) by {
                lemma_last_writer_same(f, fmid, fsd, j);
                lemma_last_writer_range(fmid, fsd, j);
                assert(fs[fs.len() - 1] == g);
                if j == fmid.len() {
                    assert(last_writer(f, fs, j) == fs.len() - 1);
                    assert(f[j].content == html_of(g.content));
                } else {
                    assert(last_writer(f, fs, j) == last_writer(fmid, fsd, j));
                    assert(f[j] == fmid[j]);
                    if last_writer(fmid, fsd, j) >= 0 {
                        assert(fsd[last_writer(fmid, fsd, j)] == fs[last_writer(fmid, fsd, j)]);
                    }
                }
            }
        }
    }
}

/// Reconciliation is idempotent: a second run over an unchanged
/// directory leaves the store exactly as the first run left it.
pub proof fn lemma_reconcile_idempotent(
    s: Seq<ArticleView>,
    files: Seq<SourceFileView>,
    ids1: Seq<u128>,
    now1: Seq<char>,
    ids2: Seq<u128>,
    now2: Seq<char>,
)
    requires
        ids1.len() == files.len(),
        ids2.len() == files.len(),
    ensures
        reconcile_spec(reconcile_spec(s, files, ids1, now1), files, ids2, now2) == reconcile_spec(
            s,
            files,
            ids1,
            now1,
        ),
{
    let ds = delete_pass(s, files);
    let t = reconcile_spec(s, files, ids1, now1);
    let keep = |a: ArticleView| has_file_named(files, a.filename);
    lemma_reconcile_filenames(s, files, ids1, now1);
    lemma_filter_all(t, keep);
    assert(delete_pass(t, files) == t);
    let r = upsert_pass(t, files, ids2, now2);
    lemma_upsert_titles_present(ds, files, ids1, now1);
    lemma_upsert_update_only(t, files, ids2, now2);
    lemma_upsert_contents(ds, files, ids1, now1);
    lemma_upsert_contents(t, files, ids2, now2);
    assert forall|i: int|
        0 <= i < files.len() implies find_title(t, spec_title(files[i].content)) == find_title(
        r,
        spec_title(files[i].content),
    ) by {
        lemma_find_title_same(t, r, spec_title(files[i].content));
    }
    assert forall|j: int| 0 <= j < t.len() implies r[j] == t[j] by {
        lemma_last_writer_same(r, t, files, j);
        lemma_last_writer_range(t, files, j);
        if last_writer(t, files, j) >= 0 {
            assert(r[j].content == html_of(files[last_writer(t, files, j)].content));
            assert(t[j].content == html_of(files[last_writer(t, files, j)].content));
            assert(r[j] =~= t[j]);
        } else {
            assert(r[j] == t[j]);
        }
    }
    assert(r =~= t);
}

/// A title borne before the upsert pass starts is borne at every step.
pub proof fn lemma_titles_after_monotone(
    s: Seq<ArticleView>,
    files: Seq<SourceFileView>,
    k: int,
    t: Seq<char>,
)
    requires
        0 <= k,
        titles_after(s, files, 0).contains(t),
    ensures
        titles_after(s, files, k).contains(t),
    decreases k,
{
    if k > 0 {
        lemma_titles_after_monotone(s, files, k - 1, t);
        let ts = titles_after(s, files, k - 1);
        let tk = spec_title(files[k - 1].content);
        if !ts.contains(tk) {
            let p = choose|p: int| 0 <= p < ts.len() && ts[p] == t;
            assert(ts.push(tk)[p] == t);
        }
    }
}

/// After a completed run, a second run over the same directory needs
/// no insert: every file's extracted title is already borne when the
/// second pass reaches it, so that run only rewrites contents and is
/// owed success.
pub proof fn lemma_second_run_no_insert(
    s: Seq<ArticleView>,
    files: Seq<SourceFileView>,
    ids: Seq<u128>,
    now: Seq<char>,
)
    requires
        ids.len() == files.len(),
    ensures
        forall|k: int|
            0 <= k < files.len() ==> !needs_insert(reconcile_spec(s, files, ids, now), files, k),
{
    let t0 = reconcile_spec(s, files, ids, now);
    let keep = |a: ArticleView| has_file_named(files, a.filename);
    lemma_reconcile_filenames(s, files, ids, now);
    lemma_filter_all(t0, keep);
    assert(delete_pass(t0, files) == t0);
    lemma_upsert_titles_present(delete_pass(s, files), files, ids, now);
    assert forall|k: int| 0 <= k < files.len() implies !needs_insert(t0, files, k) by {
        let tk = spec_title(files[k].content);
        lemma_find_title_contains(t0, tk);
        assert(find_title(t0, tk) >= 0);
        assert(titles_after(t0, files, 0) == titles_of(t0));
        lemma_titles_after_monotone(t0, files, k, tk);
    }
}

/// How many stored articles bear title `t`.
pub open spec fn count_title(s: Seq<ArticleView>, t: Seq<char>) -> int {
    s.filter(|a: ArticleView| a.title == t).len() as int
}

/// A title is counted somewhere exactly when some index bears it.
pub proof fn lemma_count_title_pos(s: Seq<ArticleView>, t: Seq<char>)
    ensures
        count_title(s, t) > 0 <==> exists|j: int| 0 <= j < s.len() && s[j].title == t,
{
    let pred = |a: ArticleView| a.title == t;
    if count_title(s, t) > 0 {
        lemma_filter_mem(s, pred, 0);
        let j = choose|j: int| 0 <= j < s.len() && s[j] == s.filter(pred)[0];
        s.lemma_filter_pred(pred, 0);
        assert(s[j].title == t);
    }
    if exists|j: int| 0 <= j < s.len() && s[j].title == t {
        let j = choose|j: int| 0 <= j < s.len() && s[j].title == t;
        s.lemma_filter_contains(pred, j);
        assert(s.filter(pred).contains(s[j]));
        assert(s.filter(pred).len() > 0);
    }
}

/// Sequences with equal titles at each index count every title alike.
pub proof fn lemma_count_title_same(s1: Seq<ArticleView>, s2: Seq<ArticleView>, t: Seq<char>)
    requires
        s1.len() == s2.len(),
        forall|j: int| 0 <= j < s1.len() ==> s1[j].title == s2[j].title,
    ensures
        count_title(s1, t) == count_title(s2, t),
    decreases s1.len(),
{
    reveal_with_fuel(Seq::filter, 2);
    if s1.len() > 0 {
        let d1 = s1.drop_last();
        let d2 = s2.drop_last();
        assert(forall|j: int| 0 <= j < d1.len() ==> d1[j].title == d2[j].title);
        lemma_count_title_same(d1, d2, t);
        assert(s1.last().title == s2.last().title);
    }
}

/// What an upsert pass does to the number of articles bearing `t`: a
/// positive count stays as it is, a zero count becomes one exactly
/// when some file extracts `t`, and never more than one.
pub proof fn lemma_upsert_count(
    s: Seq<ArticleView>,
    files: Seq<SourceFileView>,
    ids: Seq<u128>,
    now: Seq<char>,
    t: Seq<char>,
)
    ensures
        count_title(upsert_pass(s, files, ids, now), t) == if count_title(s, t) > 0 {
            count_title(s, t)
        } else if exists|i: int| 0 <= i < files.len() && spec_title(files[i].content) == t {
            1int
        } else {
            0int
        },
    decreases files.len(),
{
    reveal_with_fuel(Seq::filter, 2);
    if files.len() > 0 {
        let t0 = spec_title(files[0].content);
        let s1 = upsert_step(s, files[0], ids[0], now);
        lemma_count_title_pos(s, t);
        lemma_count_title_pos(s, t0);
        lemma_find_title(s, t0);
        if find_title(s, t0) >= 0 {
            assert(forall|j: int| 0 <= j < s1.len() ==> s1[j].title == s[j].title);
            lemma_count_title_same(s1, s, t);
        } else {
            let a = article_of_file(files[0], ids[0], now);
            assert(s1 == s.push(a));
            assert(s.push(a).drop_last() =~= s);
            assert(count_title(s1, t) == count_title(s, t) + if a.title == t {
                1int
            } else {
                0int
            });
        }
        lemma_upsert_count(s1, files.drop_first(), ids.drop_first(), now, t);
        lemma_count_title_pos(s1, t);
        assert forall|i: int|
            0 <= i < files.drop_first().len() implies files.drop_first()[i] == files[i + 1] by {}
        if exists|i: int| 0 <= i < files.len() && spec_title(files[i].content) == t {
            let w = choose|i: int| 0 <= i < files.len() && spec_title(files[i].content) == t;
            if w > 0 {
                assert(spec_title(files.drop_first()[w - 1].content) == t);
            }
        }
        if exists|i: int|
            0 <= i < files.drop_first().len() && spec_title(files.drop_first()[i].content) == t {
            let w = choose|i: int|
                0 <= i < files.drop_first().len() && spec_title(files.drop_first()[i].content) == t;
            assert(spec_title(files[w + 1].content) == t);
        }
    }
}

/// Two distinct files that extract the same title collapse into one
/// article: when no stored article bears `t` and some file extracts
/// `t`, one run leaves exactly one article bearing `t`.
pub proof fn lemma_title_collapse(
    s: Seq<ArticleView>,
    files: Seq<SourceFileView>,
    ids: Seq<u128>,
    now: Seq<char>,
    t: Seq<char>,
)
    requires
        count_title(s, t) == 0,
        exists|i: int| 0 <= i < files.len() && spec_title(files[i].content) == t,
    ensures
        count_title(reconcile_spec(s, files, ids, now), t) == 1,
{
    let keep = |a: ArticleView| has_file_named(files, a.filename);
    let ds = delete_pass(s, files);
    lemma_count_title_pos(s, t);
    lemma_count_title_pos(ds, t);
    if count_title(ds, t) > 0 {
        let j = choose|j: int| 0 <= j < ds.len() && ds[j].title == t;
        lemma_filter_mem(s, keep, j);
        let j2 = choose|j2: int| 0 <= j2 < s.len() && s[j2] == ds[j];
        assert(s[j2].title == t);
    }
    lemma_upsert_count(ds, files, ids, now, t);
}

} // verus!
