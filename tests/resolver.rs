use wasm_bundler::resolver::{resolve, ResolveError};

fn ok(base: &str, spec: &str) -> String {
    resolve(base, spec).expect("relative specifier resolves")
}

#[test]
fn sibling_in_same_directory() {
    assert_eq!("a.js", ok("main.js", "./a"));
    assert_eq!("/src/a.js", ok("/src/main.js", "./a"));
}

#[test]
fn parent_directory_is_collapsed() {
    assert_eq!("/src/lib/x.js", ok("/src/app/main.js", "../lib/x"));
    assert_eq!("/x.js", ok("/src/app/main.js", "../../x"));
}

#[test]
fn extension_is_forced_to_js() {
    assert_eq!("/src/util.js", ok("/src/main.js", "./util.ts"));
    assert_eq!("/src/util.js", ok("/src/main.js", "./util.js"));
    assert_eq!("/src/a.b.js", ok("/src/main.js", "./a.b.c"));
    assert_eq!("/src/.hidden.js", ok("/src/main.js", "./.hidden"));
}

#[test]
fn dot_segments_and_empty_segments_vanish() {
    assert_eq!("/src/lib/a.js", ok("/src/main.js", "./lib/./a"));
    assert_eq!("/src/lib/a.js", ok("/src/main.js", ".//lib//a"));
    assert_eq!("/src/a.js", ok("/src/main.js", "./lib/../a"));
}

#[test]
fn unmatched_parent_is_kept() {
    assert_eq!("../a.js", ok("main.js", "../a"));
}

#[test]
fn bare_and_absolute_specifiers_are_refused() {
    assert_eq!(
        Err(ResolveError::InvalidSpecifier(String::from("lodash"))),
        resolve("main.js", "lodash")
    );
    assert_eq!(
        Err(ResolveError::InvalidSpecifier(String::from("/abs/path"))),
        resolve("main.js", "/abs/path")
    );
    assert_eq!(
        Err(ResolveError::InvalidSpecifier(String::from(""))),
        resolve("main.js", "")
    );
}

#[test]
fn same_inputs_same_path() {
    assert_eq!(resolve("/a/b.js", "./c"), resolve("/a/b.js", "./c"));
}
