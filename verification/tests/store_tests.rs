use miniblog::article::Article;
use miniblog::store::{Store, StoreError};

fn sample(id: u128, title: &str) -> Article {
    Article {
        id,
        filename: format!("{}.md", title),
        title: title.to_string(),
        author: "someone".to_string(),
        content: "<p>body</p>".to_string(),
        created_at: "2024-01-01T00:00:00+00:00".to_string(),
        views: 0,
    }
}

#[test]
fn create_then_get_increments_views() {
    let mut store = Store::new();
    let a = sample(1, "First");
    let created = store.create_blog(a).unwrap();
    assert_eq!(created.views, 0);
    let fetched = store.get_blog_by_id(1).unwrap();
    assert_eq!(fetched.id, 1);
    assert_eq!(fetched.title, "First");
    assert_eq!(fetched.filename, "First.md");
    assert_eq!(fetched.author, "someone");
    assert_eq!(fetched.content, "<p>body</p>");
    assert_eq!(fetched.created_at, "2024-01-01T00:00:00+00:00");
    assert_eq!(fetched.views, 1);
}

#[test]
fn get_by_id_strictly_increments() {
    let mut store = Store::new();
    store.create_blog(sample(7, "Post")).unwrap();
    let v1 = store.get_blog_by_id(7).unwrap().views;
    let v2 = store.get_blog_by_id(7).unwrap().views;
    let v3 = store.get_blog_by_id(7).unwrap().views;
    assert_eq!(v1, 1);
    assert_eq!(v2, 2);
    assert_eq!(v3, 3);
}

#[test]
fn get_by_id_not_found() {
    let mut store = Store::new();
    assert_eq!(store.get_blog_by_id(42), Err(StoreError::NotFound));
}

#[test]
fn create_conflict_on_duplicate_id() {
    let mut store = Store::new();
    store.create_blog(sample(5, "One")).unwrap();
    let r = store.create_blog(sample(5, "Other"));
    assert_eq!(r, Err(StoreError::Conflict));
    assert_eq!(store.get_blogs().len(), 1);
}

#[test]
fn update_content_replaces_only_content() {
    let mut store = Store::new();
    store.create_blog(sample(3, "Post")).unwrap();
    let updated = store
        .update_article_content(3, "<p>new</p>".to_string())
        .unwrap();
    assert_eq!(updated.content, "<p>new</p>");
    assert_eq!(updated.title, "Post");
    assert_eq!(updated.views, 0);
    assert_eq!(updated.created_at, "2024-01-01T00:00:00+00:00");
    assert_eq!(
        store.update_article_content(9, "x".to_string()),
        Err(StoreError::NotFound)
    );
}

#[test]
fn delete_returns_last_state() {
    let mut store = Store::new();
    store.create_blog(sample(4, "Gone")).unwrap();
    let removed = store.delete_blog(4).unwrap();
    assert_eq!(removed.title, "Gone");
    assert_eq!(store.get_blogs().len(), 0);
    assert_eq!(store.delete_blog(4), Err(StoreError::NotFound));
}

#[test]
fn search_returns_matching_subset() {
    let mut store = Store::new();
    store.create_blog(sample(1, "Rust for Beginners")).unwrap();
    store.create_blog(sample(2, "Cooking at Home")).unwrap();
    store.create_blog(sample(3, "TRUSTED computing")).unwrap();
    let hits = store.search_blogs("rust".to_string());
    let titles: Vec<&str> = hits.iter().map(|a| a.title.as_str()).collect();
    assert_eq!(titles, vec!["Rust for Beginners", "TRUSTED computing"]);
}

#[test]
fn search_empty_text_returns_everything() {
    let mut store = Store::new();
    store.create_blog(sample(1, "Alpha")).unwrap();
    store.create_blog(sample(2, "Beta")).unwrap();
    let hits = store.search_blogs(String::new());
    assert_eq!(hits.len(), 2);
}

#[test]
fn search_no_match_is_empty() {
    let mut store = Store::new();
    store.create_blog(sample(1, "Alpha")).unwrap();
    assert!(store.search_blogs("zzz".to_string()).is_empty());
}

#[test]
fn search_pattern_case_is_ignored() {
    let mut store = Store::new();
    store.create_blog(sample(1, "Rust for Beginners")).unwrap();
    store.create_blog(sample(2, "Cooking at Home")).unwrap();
    let lower = store.search_blogs("rust".to_string());
    let upper = store.search_blogs("RUST".to_string());
    let mixed = store.search_blogs("RuSt".to_string());
    assert_eq!(lower, upper);
    assert_eq!(lower, mixed);
    assert_eq!(lower.len(), 1);
}
