use notes::cache::{CacheKey, FileCache, Timestamp};
use notes::index::Indexer;
use notes::parser::{Attribute, ParseInlineError};

fn key(path: &str, secs: i64, nanos: u32) -> CacheKey {
    CacheKey::from_path(path.to_string(), true, Timestamp { secs, nanos }).unwrap()
}

fn build(previous: FileCache, files: &[(CacheKey, &str)]) -> (FileCache, usize) {
    let keys: Vec<CacheKey> = files.iter().map(|(k, _)| k.clone()).collect();
    let (carried, fresh) = FileCache::reuse(previous, &keys);
    let texts: Vec<String> = fresh
        .iter()
        .map(|k| files.iter().find(|(f, _)| f == k).unwrap().1.to_string())
        .collect();
    let n = fresh.len();
    (carried.finish(&Indexer::new(), &fresh, &texts).unwrap(), n)
}

fn bodies(cache: &FileCache, tag: &str) -> Vec<String> {
    cache.search(&tag.to_string()).into_iter().map(|c| c.comment).collect()
}

#[test]
fn index_files_comment_under_each_tag() {
    let ix = Indexer::new()
        .index_path("<note comment=\"Remember this\" tags=\"todo,important\" heading=\"Reminder\">")
        .unwrap();
    for tag in ["todo", "important"] {
        let list = ix.get_comments(&tag.to_string()).unwrap();
        assert_eq!(list.len(), 1);
        assert_eq!(list[0].comment, "Remember this");
        assert_eq!(list[0].heading, Some("Reminder".to_string()));
    }
    assert!(ix.get_comments(&"other".to_string()).is_none());
}

#[test]
fn index_last_definition_wins() {
    let ix = Indexer::new()
        .index_path("<note term=a definition=one> <note term=b definition=two> <note term=a definition=three>")
        .unwrap();
    assert_eq!(ix.get_definition(&"a".to_string()).unwrap(), "three");
    assert_eq!(ix.get_definition(&"b".to_string()).unwrap(), "two");
    assert_eq!(ix.terms().len(), 2);
}

#[test]
fn index_keeps_document_order() {
    let ix = Indexer::new()
        .index_path("<note comment=first tags=x> <note comment=second tags=y,x>")
        .unwrap();
    let list = ix.get_comments(&"x".to_string()).unwrap();
    let bodies: Vec<&str> = list.iter().map(|c| c.comment.as_str()).collect();
    assert_eq!(bodies, vec!["first", "second"]);
}

#[test]
fn index_fails_on_first_bad_tag() {
    match Indexer::new().index_path("<note comment=ok tags=t> <note comment=hi> <note foo=1>") {
        Err(ParseInlineError::MissingAttribute(Attribute::Tags)) => {}
        other => panic!("unexpected {:?}", other.map(|_| ())),
    }
}

#[test]
fn search_orders_files_by_modification_time() {
    let a = key("a.txt", 100, 0);
    let b = key("b.txt", 200, 0);
    let (cache, _) = build(
        FileCache::new(),
        &[(b.clone(), "<note comment=B tags=x>"), (a.clone(), "<note comment=A1 tags=x> <note comment=A2 tags=x>")],
    );
    assert_eq!(bodies(&cache, "x"), vec!["A1", "A2", "B"]);
    assert!(bodies(&cache, "y").is_empty());
}

#[test]
fn search_distinguishes_nanoseconds() {
    let a = key("a.txt", 100, 5);
    let b = key("b.txt", 100, 4);
    let (cache, _) = build(FileCache::new(), &[(a, "<note comment=A tags=x>"), (b, "<note comment=B tags=x>")]);
    assert_eq!(bodies(&cache, "x"), vec!["B", "A"]);
}

#[test]
fn rebuild_without_changes_reads_nothing() {
    let files = [
        (key("a.txt", 1, 0), "<note comment=A tags=x>"),
        (key("b.txt", 2, 0), "<note term=t definition=d>"),
    ];
    let (first, read) = build(FileCache::new(), &files);
    assert_eq!(read, 2);
    let (second, read) = build(first, &files);
    assert_eq!(read, 0);
    assert_eq!(second.keys().len(), 2);
    assert_eq!(bodies(&second, "x"), vec!["A"]);
    assert_eq!(second.define(&"t".to_string()).unwrap(), "d");
}

#[test]
fn touched_file_is_read_again() {
    let (first, _) = build(FileCache::new(), &[(key("a.txt", 1, 0), "<note comment=old tags=x>")]);
    let (second, read) =
        build(first, &[(key("a.txt", 1, 1), "<note comment=new tags=x>")]);
    assert_eq!(read, 1);
    assert_eq!(second.keys().len(), 1);
    assert_eq!(bodies(&second, "x"), vec!["new"]);
}

#[test]
fn deleted_file_is_pruned() {
    let (first, _) = build(
        FileCache::new(),
        &[(key("a.txt", 1, 0), "<note comment=A tags=x>"), (key("b.txt", 1, 0), "<note comment=B tags=x>")],
    );
    let (second, read) = build(first, &[(key("a.txt", 1, 0), "<note comment=A tags=x>")]);
    assert_eq!(read, 0);
    assert_eq!(second.keys().len(), 1);
    assert_eq!(bodies(&second, "x"), vec!["A"]);
    let (third, _) = build(second, &[(key("a.txt", 1, 0), "<note comment=A tags=x>")]);
    assert_eq!(bodies(&third, "x"), vec!["A"]);
}

#[test]
fn reuse_names_each_missing_file_once() {
    let a = key("a.txt", 1, 0);
    let (carried, fresh) = FileCache::reuse(FileCache::new(), &vec![a.clone(), a.clone()]);
    assert_eq!(carried.keys().len(), 0);
    assert_eq!(fresh, vec![a]);
}

#[test]
fn finish_fails_on_a_bad_file() {
    let a = key("a.txt", 1, 0);
    let r = FileCache::new().finish(&Indexer::new(), &vec![a], &vec!["<note term=x>".to_string()]);
    assert!(matches!(r, Err(ParseInlineError::MissingAttribute(Attribute::Definition))));
}

#[test]
fn define_finds_term_or_nothing() {
    let (cache, _) = build(FileCache::new(), &[(key("a.txt", 1, 0), "<note term=api definition=\"an interface\">")]);
    assert_eq!(cache.define(&"api".to_string()).unwrap(), "an interface");
    assert!(cache.define(&"none".to_string()).is_none());
}

#[test]
fn key_needs_a_plain_file() {
    assert!(CacheKey::from_path("dir".to_string(), false, Timestamp { secs: 0, nanos: 0 }).is_none());
    let k = key("f", 3, 4);
    assert_eq!(k.path, "f");
    assert_eq!(k.modified, Timestamp { secs: 3, nanos: 4 });
    assert!(k != key("f", 3, 5));
}

#[test]
fn define_prefers_the_path_that_sorts_first() {
    let (cache, _) = build(
        FileCache::new(),
        &[
            (key("b.txt", 1, 0), "<note term=t definition=from-b>"),
            (key("a.txt", 2, 0), "<note term=t definition=from-a>"),
            (key("c.txt", 0, 0), "<note term=t definition=from-c>"),
        ],
    );
    assert_eq!(cache.define(&"t".to_string()).unwrap(), "from-a");
}

#[test]
fn index_lists_tags_and_terms() {
    let ix = Indexer::new()
        .index_path("<note comment=c tags=b,a> <note term=t definition=d> <note term=u definition=e>")
        .unwrap();
    let mut tags = ix.tags();
    tags.sort();
    assert_eq!(tags, vec!["a".to_string(), "b".to_string()]);
    let mut terms = ix.terms();
    terms.sort();
    assert_eq!(terms, vec!["t".to_string(), "u".to_string()]);
    assert!(ix.is_wf());
}

#[test]
fn index_with_an_empty_tag_is_not_well_formed() {
    let mut ix = notes::index::Index::new();
    assert!(ix.is_wf());
    ix.put_comments("x".to_string(), Vec::new());
    assert!(!ix.is_wf());
    assert!(ix.get_comments(&"x".to_string()).unwrap().is_empty());
}

#[test]
fn cache_get_and_keys() {
    let a = key("a.txt", 1, 0);
    let (cache, _) = build(FileCache::new(), &[(a.clone(), "<note term=t definition=d>")]);
    assert_eq!(cache.keys(), vec![a.clone()]);
    let ix = cache.get(&a).unwrap();
    assert_eq!(ix.get_definition(&"t".to_string()).unwrap(), "d");
    assert!(cache.get(&key("a.txt", 1, 1)).is_none());
}
