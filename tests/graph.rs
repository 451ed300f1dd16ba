use wasm_bundler::bundler::Bundler;
use wasm_bundler::filesystem::InMemFileSystem;
use wasm_bundler::graph::{plan_bundle, BundleError, ModuleSource};

fn module(path: &str, imports: &[&str]) -> ModuleSource {
    ModuleSource {
        path: String::from(path),
        imports: Ok(imports.iter().map(|s| String::from(*s)).collect()),
    }
}

fn entries(paths: &[&str]) -> Vec<String> {
    paths.iter().map(|s| String::from(*s)).collect()
}

#[test]
fn no_entries_is_an_error() {
    let mods = vec![module("main.js", &[])];
    assert_eq!(Err(BundleError::NoEntries), plan_bundle(&mods, &entries(&[])));
}

#[test]
fn missing_import_is_file_not_found() {
    let mods = vec![module("main.js", &["./missing"])];
    assert_eq!(
        Err(BundleError::FileNotFound(String::from("missing.js"))),
        plan_bundle(&mods, &entries(&["main.js"]))
    );
}

#[test]
fn missing_entry_is_file_not_found() {
    let mods = vec![module("main.js", &[])];
    assert_eq!(
        Err(BundleError::FileNotFound(String::from("other.js"))),
        plan_bundle(&mods, &entries(&["other.js"]))
    );
}

#[test]
fn entry_with_one_import() {
    let mods = vec![module("a.js", &[]), module("main.js", &["./a"])];
    assert_eq!(
        Ok(entries(&["main.js", "a.js"])),
        plan_bundle(&mods, &entries(&["main.js"]))
    );
}

#[test]
fn diamond_dependency_is_planned_once() {
    let mods = vec![
        module("main.js", &["./a", "./b"]),
        module("a.js", &["./c"]),
        module("b.js", &["./c"]),
        module("c.js", &[]),
    ];
    assert_eq!(
        Ok(entries(&["main.js", "a.js", "b.js", "c.js"])),
        plan_bundle(&mods, &entries(&["main.js"]))
    );
}

#[test]
fn cycle_terminates() {
    let mods = vec![module("a.js", &["./b"]), module("b.js", &["./a"])];
    assert_eq!(
        Ok(entries(&["a.js", "b.js"])),
        plan_bundle(&mods, &entries(&["a.js"]))
    );
}

#[test]
fn self_import_terminates() {
    let mods = vec![module("a.js", &["./a"])];
    assert_eq!(Ok(entries(&["a.js"])), plan_bundle(&mods, &entries(&["a.js"])));
}

#[test]
fn two_entries_on_one_file_load_it_once() {
    let mods = vec![module("main.js", &[])];
    assert_eq!(
        Ok(entries(&["main.js"])),
        plan_bundle(&mods, &entries(&["main.js", "main.js"]))
    );
}

#[test]
fn bare_import_is_invalid_specifier() {
    let mods = vec![module("main.js", &["./a", "lodash"]), module("a.js", &[])];
    assert_eq!(
        Err(BundleError::InvalidSpecifier(String::from("lodash"))),
        plan_bundle(&mods, &entries(&["main.js"]))
    );
}

#[test]
fn parse_failure_names_the_path() {
    let mods = vec![
        module("main.js", &["./a"]),
        ModuleSource { path: String::from("a.js"), imports: Err(String::from("unexpected token")) },
    ];
    assert_eq!(
        Err(BundleError::ParseError(String::from("a.js"), String::from("unexpected token"))),
        plan_bundle(&mods, &entries(&["main.js"]))
    );
}

#[test]
fn unreachable_broken_module_does_not_matter() {
    let mods = vec![
        module("main.js", &[]),
        ModuleSource { path: String::from("junk.js"), imports: Err(String::from("bad")) },
    ];
    assert_eq!(Ok(entries(&["main.js"])), plan_bundle(&mods, &entries(&["main.js"])));
}

#[test]
fn nested_directories_resolve_against_the_importer() {
    let mods = vec![
        module("/src/main.js", &["./lib/a"]),
        module("/src/lib/a.js", &["../util"]),
        module("/src/util.js", &[]),
    ];
    assert_eq!(
        Ok(entries(&["/src/main.js", "/src/lib/a.js", "/src/util.js"])),
        plan_bundle(&mods, &entries(&["/src/main.js"]))
    );
}

#[test]
fn bundler_plans_over_its_store() {
    let mut bundler = Bundler::new(InMemFileSystem::new());
    bundler.save_file("main.js", "import { A, FOO } from './a'; console.log(A, FOO);");
    bundler.save_file("a.js", "export const FOO = 1; export class A { foo() {} }");
    let sources = bundler.sources();
    let parsed: Vec<Result<Vec<String>, String>> = sources
        .iter()
        .map(|(path, _)| {
            if path == "main.js" {
                Ok(vec![String::from("./a")])
            } else {
                Ok(vec![])
            }
        })
        .collect();
    assert_eq!(
        Ok(entries(&["main.js", "a.js"])),
        bundler.plan(&sources, parsed, &entries(&["main.js"]))
    );
    assert_eq!(
        Some(String::from("export const FOO = 1; export class A { foo() {} }")),
        bundler.fs().get("a.js")
    );
    assert_eq!(
        Ok(String::from("import { A, FOO } from './a'; console.log(A, FOO);")),
        bundler.loader().read_file("main.js")
    );
}
