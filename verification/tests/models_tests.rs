use reddit_rs::models::{Comment, JsonField, JsonObject, Reddit, RedditError, Thread};

fn comment(body: &str) -> Comment {
    Comment {
        name: "t1_c".to_string(),
        body: body.to_string(),
        parent_id: "t3_p".to_string(),
        score: 10,
        ups: 12,
        downs: 2,
        subreddit: "rust".to_string(),
        permalink: Some("/r/rust/c".to_string()),
    }
}

#[test]
fn into_reddit_plain() {
    let r = comment("hello").into_reddit(false).unwrap();
    assert_eq!(r.id, "t1_c");
    assert_eq!(r.selftext, "hello");
    assert_eq!(r.parent_id, Some("t3_p".to_string()));
    assert_eq!(r.subreddit, "rust");
    assert_eq!(r.permalink, Some("/r/rust/c".to_string()));
}

#[test]
fn into_reddit_with_scores() {
    let r = comment("hello").into_reddit(true).unwrap();
    assert_eq!(r.selftext, "hello\n\n{score: 10 Ups: 12 Downs: 2}");
}

#[test]
fn into_reddit_deleted_and_removed() {
    assert_eq!(comment("[deleted]").into_reddit(true), Err(RedditError::DeletedOrRemoved));
    assert_eq!(comment("[removed]").into_reddit(false), Err(RedditError::DeletedOrRemoved));
    assert!(comment("[Deleted]").into_reddit(false).is_ok());
}

#[test]
fn try_from_comment_matches_into_reddit_without_scores() {
    let a: Result<Reddit, RedditError> = Reddit::try_from(comment("x"));
    assert_eq!(a, comment("x").into_reddit(false));
    let b: Result<Reddit, RedditError> = Reddit::try_from(comment("[removed]"));
    assert_eq!(b, Err(RedditError::DeletedOrRemoved));
}

fn thread(text: &str, n: u64) -> Thread {
    Thread {
        name: "t3_t".to_string(),
        selftext: text.to_string(),
        num_comments: n,
        subreddit: "rust".to_string(),
        permalink: None,
    }
}

#[test]
fn try_from_thread_cases() {
    let ok: Result<Reddit, RedditError> = Reddit::try_from(thread("0123456789", 1));
    let r = ok.unwrap();
    assert_eq!(r.id, "t3_t");
    assert_eq!(r.parent_id, None);
    let short: Result<Reddit, RedditError> = Reddit::try_from(thread("012345678", 1));
    assert_eq!(short, Err(RedditError::TooShort));
    // Ten bytes in five characters is long enough.
    let bytes: Result<Reddit, RedditError> = Reddit::try_from(thread("ééééé", 1));
    assert!(bytes.is_ok());
    let none: Result<Reddit, RedditError> = Reddit::try_from(thread("0123456789", 0));
    assert_eq!(none, Err(RedditError::NoComments));
}

fn obj(entries: &[(&str, JsonField)]) -> JsonObject {
    JsonObject { entries: entries.iter().map(|(k, v)| (k.to_string(), v.clone())).collect() }
}

fn s(x: &str) -> JsonField {
    JsonField::Str(x.to_string())
}

#[test]
fn from_comment_cases() {
    let o = obj(&[("body", s("hi")), ("id", s("c1")), ("parent_id", s("t3_p")), ("subreddit", s("rust"))]);
    assert!(o.comment_convertible());
    let r = Reddit::from_comment(&o).unwrap();
    assert_eq!(r.id, "c1");
    assert_eq!(r.selftext, "hi");
    assert_eq!(r.parent_id, Some("t3_p".to_string()));
    assert_eq!(r.subreddit, "rust");
    assert_eq!(r.permalink, None);
    // `name` wins over `id`.
    let o = obj(&[("id", s("c1")), ("name", s("t1_c1")), ("body", s("hi")), ("parent_id", s("p"))]);
    assert_eq!(Reddit::from_comment(&o).unwrap().id, "t1_c1");
    let deleted = obj(&[("body", s("[deleted]"))]);
    assert!(deleted.comment_convertible());
    assert_eq!(Reddit::from_comment(&deleted), None);
    assert_eq!(Reddit::from_comment(&obj(&[("id", s("c"))])), None);
    assert!(!obj(&[("body", JsonField::Int(3))]).comment_convertible());
    assert!(!obj(&[("body", s("x")), ("id", s("c"))]).comment_convertible());
}

#[test]
fn from_thread_cases() {
    let o = obj(&[("num_comments", JsonField::Int(3)), ("name", s("t3_a")), ("selftext", s("a long text"))]);
    assert!(o.thread_convertible());
    let r = Reddit::from_thread(&o).unwrap();
    assert_eq!(r.id, "t3_a");
    assert_eq!(r.parent_id, None);
    assert_eq!(r.subreddit, "");
    let zero = obj(&[("num_comments", JsonField::Int(0))]);
    assert!(zero.thread_convertible());
    assert_eq!(Reddit::from_thread(&zero), None);
    let short = obj(&[("num_comments", JsonField::Int(3)), ("name", s("t3_a")), ("selftext", s("short"))]);
    assert_eq!(Reddit::from_thread(&short), None);
    assert_eq!(Reddit::from_thread(&obj(&[("name", s("t3_a"))])), None);
    assert!(!obj(&[("num_comments", JsonField::Other), ("name", s("t3_a"))]).thread_convertible());
}

#[test]
fn comment_object_and_comment_agree() {
    for body in ["a reply", "[deleted]", "[removed]"] {
        let o = obj(&[
            ("name", s("t1_c")),
            ("body", s(body)),
            ("parent_id", s("t3_p")),
            ("score", JsonField::Int(10)),
            ("subreddit", s("rust")),
            ("permalink", s("/r/rust/c")),
        ]);
        let old = Reddit::from_comment(&o);
        let new: Option<Reddit> = Reddit::try_from(comment(body)).ok();
        assert_eq!(old, new);
    }
}

#[test]
fn thread_object_and_thread_agree() {
    for (text, n) in [("0123456789", 1u64), ("short", 4), ("long enough text", 0)] {
        let o = obj(&[
            ("name", s("t3_t")),
            ("selftext", s(text)),
            ("num_comments", JsonField::Int(n as i64)),
            ("subreddit", s("rust")),
        ]);
        let old = Reddit::from_thread(&o);
        let new: Option<Reddit> = Reddit::try_from(thread(text, n)).ok();
        assert_eq!(old, new);
    }
}

#[test]
fn error_messages() {
    assert_eq!(RedditError::DeletedOrRemoved.message(), "Comment is deleted or removed");
    assert_eq!(RedditError::NoComments.message(), "Thread has no comments");
    assert_eq!(RedditError::TooShort.message(), "Thread is too short");
}

#[test]
fn thread_object_with_huge_count_agrees() {
    let n = u64::MAX;
    let o = obj(&[("name", s("t3_t")), ("selftext", s("0123456789")), ("num_comments", JsonField::Other), ("subreddit", s("rust"))]);
    let old = Reddit::from_thread(&o);
    let new: Option<Reddit> = Reddit::try_from(thread("0123456789", n)).ok();
    assert_eq!(old, new);
    assert!(old.is_some());
}
