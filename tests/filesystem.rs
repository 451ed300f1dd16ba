use std::collections::HashMap;
use wasm_bundler::filesystem::{InMemFileLoader, InMemFileSystem};

fn as_map(fs: &InMemFileSystem) -> HashMap<String, String> {
    fs.files().into_iter().collect()
}

#[test]
fn it_saves_a_file() {
    let mut fs = InMemFileSystem::new();

    fs.save("filename", "content");

    assert_eq!(
        HashMap::from([(String::from("filename"), String::from("content"))]),
        as_map(&fs)
    );
}

#[test]
fn it_overwrites_a_file() {
    let mut fs = InMemFileSystem::from(vec![(String::from("filename"), String::from("content"))]);

    fs.save("filename", "new content");

    assert_eq!(
        HashMap::from([(String::from("filename"), String::from("new content"))]),
        as_map(&fs)
    );
}

#[test]
fn it_gets_a_file() {
    let fs = InMemFileSystem::from(vec![(String::from("filename"), String::from("content"))]);

    let content = fs.get("filename");

    match content {
        Some(content) => assert_eq!("content", content),
        None => panic!("expect file to exist"),
    }
}

#[test]
fn missing_file_reads_as_none() {
    let fs = InMemFileSystem::from(vec![(String::from("a.js"), String::from("x"))]);
    assert_eq!(None, fs.get("b.js"));
    assert_eq!(None, fs.get("a"));
    assert!(fs.contains("a.js"));
    assert!(!fs.contains("./a.js"));
}

#[test]
fn later_duplicate_wins_and_is_stored_once() {
    let fs = InMemFileSystem::from(vec![
        (String::from("a.js"), String::from("one")),
        (String::from("b.js"), String::from("bee")),
        (String::from("a.js"), String::from("two")),
    ]);
    assert_eq!(Some(String::from("two")), fs.get("a.js"));
    assert_eq!(2, fs.files().len());
}

#[test]
fn second_save_is_all_that_counts() {
    let mut once = InMemFileSystem::new();
    once.save("p", "second");
    let mut twice = InMemFileSystem::new();
    twice.save("p", "first");
    twice.save("p", "second");
    assert_eq!(as_map(&once), as_map(&twice));
}

#[test]
fn snapshot_does_not_see_later_saves() {
    let mut fs = InMemFileSystem::new();
    fs.save("a.js", "old");
    let snap = fs.snapshot();
    fs.save("a.js", "new");
    fs.save("b.js", "b");
    assert_eq!(Some(String::from("old")), snap.get("a.js"));
    assert!(!snap.contains("b.js"));
}

#[test]
fn loader_reads_and_reports_missing_files() {
    let loader = InMemFileLoader::new(InMemFileSystem::from(vec![(
        String::from("/src/a.js"),
        String::from("export const A = 1;"),
    )]));
    assert!(loader.file_exists("/src/a.js"));
    assert!(!loader.file_exists("/src/b.js"));
    assert_eq!(Ok(String::from("export const A = 1;")), loader.read_file("/src/a.js"));
    assert_eq!(
        Err(String::from("/src/b.js does not exist")),
        loader.read_file("/src/b.js")
    );
}

#[test]
fn abs_path_keeps_absolute_and_roots_relative() {
    assert_eq!("/src/a.js", InMemFileLoader::abs_path("/src/a.js"));
    assert_eq!("/", InMemFileLoader::abs_path("src/a.js"));
    assert_eq!("/", InMemFileLoader::abs_path(""));
}
