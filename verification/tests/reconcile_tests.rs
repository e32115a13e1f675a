use miniblog::article::Article;
use miniblog::reconcile::{insert_files, reconcile, SourceFile};
use miniblog::store::Store;

fn file(name: &str, content: &str) -> SourceFile {
    SourceFile {
        filename: name.to_string(),
        content: content.to_string(),
    }
}

fn html(content: &str) -> String {
    markdown::to_html_with_options(
        content,
        &markdown::Options {
            compile: markdown::CompileOptions {
                allow_dangerous_html: true,
                allow_dangerous_protocol: true,
                ..markdown::CompileOptions::default()
            },
            ..markdown::Options::gfm()
        },
    )
    .unwrap()
}

#[test]
fn run_inserts_new_files() {
    let mut store = Store::new();
    let files = vec![
        file("a.md", "# Alpha\n\nfirst body"),
        file("b.md", "plain body only"),
    ];
    let now = "2024-05-05T12:00:00+00:00".to_string();
    reconcile(&mut store, &files, &vec![10, 11], &now);
    let all = store.get_blogs();
    assert_eq!(all.len(), 2);
    assert_eq!(all[0].id, 10);
    assert_eq!(all[0].filename, "a.md");
    assert_eq!(all[0].title, "Alpha");
    assert_eq!(all[0].author, "Maneesh Wijewardhana");
    assert_eq!(all[0].content, html("# Alpha\n\nfirst body"));
    assert_eq!(all[0].created_at, now);
    assert_eq!(all[0].views, 0);
    assert_eq!(all[1].id, 11);
    assert_eq!(all[1].title, "Untitled");
    assert_eq!(all[1].content, html("plain body only"));
}

#[test]
fn converted_content_is_real_html() {
    let mut store = Store::new();
    let files = vec![file("a.md", "hello *world*")];
    reconcile(&mut store, &files, &vec![1], &"t".to_string());
    let all = store.get_blogs();
    assert_eq!(all[0].content, "<p>hello <em>world</em></p>");
}

#[test]
fn deletion_pass_removes_unbacked_articles() {
    let mut store = Store::new();
    let both = vec![file("f1.md", "# One"), file("f2.md", "# Two")];
    reconcile(&mut store, &both, &vec![1, 2], &"t".to_string());
    assert_eq!(store.get_blogs().len(), 2);
    let only_first = vec![file("f1.md", "# One")];
    reconcile(&mut store, &only_first, &vec![3], &"t2".to_string());
    let all = store.get_blogs();
    assert_eq!(all.len(), 1);
    assert_eq!(all[0].filename, "f1.md");
    assert_eq!(all[0].title, "One");
    assert_eq!(all[0].id, 1);
}

#[test]
fn second_run_changes_nothing() {
    let mut store = Store::new();
    let files = vec![
        file("a.md", "# Alpha\n\nbody"),
        file("b.md", "# Beta\n\nother"),
    ];
    reconcile(&mut store, &files, &vec![1, 2], &"t1".to_string());
    let before = store.get_blogs();
    reconcile(&mut store, &files, &vec![3, 4], &"t2".to_string());
    let after = store.get_blogs();
    assert_eq!(before, after);
}

#[test]
fn same_title_files_collapse_to_one_article() {
    let mut store = Store::new();
    let files = vec![
        file("x.md", "# Shared\n\nfrom x"),
        file("y.md", "# Shared\n\nfrom y"),
    ];
    reconcile(&mut store, &files, &vec![1, 2], &"t".to_string());
    let all = store.get_blogs();
    assert_eq!(all.len(), 1);
    assert_eq!(all[0].title, "Shared");
    assert_eq!(all[0].filename, "x.md");
    assert_eq!(all[0].content, html("# Shared\n\nfrom y"));
}

#[test]
fn update_keeps_identity_and_creation_time() {
    let mut store = Store::new();
    store
        .create_blog(Article {
            id: 9,
            filename: "a.md".to_string(),
            title: "Alpha".to_string(),
            author: "Maneesh Wijewardhana".to_string(),
            content: "<p>old</p>".to_string(),
            created_at: "2020-01-01T00:00:00+00:00".to_string(),
            views: 5,
        })
        .unwrap();
    let files = vec![file("a.md", "# Alpha\n\nnew body")];
    reconcile(&mut store, &files, &vec![1], &"2024-06-06T00:00:00+00:00".to_string());
    let all = store.get_blogs();
    assert_eq!(all.len(), 1);
    assert_eq!(all[0].id, 9);
    assert_eq!(all[0].created_at, "2020-01-01T00:00:00+00:00");
    assert_eq!(all[0].views, 5);
    assert_eq!(all[0].content, html("# Alpha\n\nnew body"));
}

#[test]
fn insert_files_generates_distinct_ids_and_timestamp() {
    let mut store = Store::new();
    let files = vec![file("a.md", "# Alpha"), file("b.md", "# Beta")];
    insert_files(&mut store, &files).unwrap();
    let all = store.get_blogs();
    assert_eq!(all.len(), 2);
    assert_ne!(all[0].id, all[1].id);
    assert_eq!(all[0].created_at, all[1].created_at);
    assert!(!all[0].created_at.is_empty());
    assert_eq!(all[0].views, 0);
    assert_eq!(all[1].views, 0);
}

#[test]
fn single_file_into_empty_store_succeeds() {
    let mut store = Store::new();
    let files = vec![file("post.md", "# Hello World\n\nbody")];
    insert_files(&mut store, &files).unwrap();
    let all = store.get_blogs();
    assert_eq!(all.len(), 1);
    assert_eq!(all[0].title, "Hello World");
    assert_eq!(all[0].filename, "post.md");
}

#[test]
fn headingless_file_into_empty_store_succeeds() {
    let mut store = Store::new();
    let files = vec![file("post.md", "no heading here\njust text")];
    insert_files(&mut store, &files).unwrap();
    let all = store.get_blogs();
    assert_eq!(all.len(), 1);
    assert_eq!(all[0].title, "Untitled");
}

#[test]
fn empty_directory_run_succeeds() {
    let mut store = Store::new();
    store
        .create_blog(Article {
            id: 1,
            filename: "gone.md".to_string(),
            title: "Gone".to_string(),
            author: "someone".to_string(),
            content: "<p>x</p>".to_string(),
            created_at: "t".to_string(),
            views: 0,
        })
        .unwrap();
    let files: Vec<SourceFile> = Vec::new();
    insert_files(&mut store, &files).unwrap();
    assert!(store.get_blogs().is_empty());
}
