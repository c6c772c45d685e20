use boat::compiler::{Compiler, SourceTexts};
use boat::config::{Build, Config, General};
use boat::resolver::{find_named, IncludeGraph, ResolveError};

fn config(main: &str) -> Config {
    Config {
        general: General { target: "app".to_string(), main: main.to_string() },
        build: Build { build_dir: "build".to_string(), cc: "gcc".to_string(), cflags: "-Wall".to_string() },
    }
}

fn strings(v: &[&str]) -> Vec<String> {
    v.iter().map(|s| s.to_string()).collect()
}

fn sorted(mut v: Vec<String>) -> Vec<String> {
    v.sort();
    v
}

fn texts(main: Option<&str>, sources: &[Option<&str>], headers: &[Option<&str>]) -> SourceTexts {
    SourceTexts {
        main: main.map(|s| s.to_string()),
        sources: sources.iter().map(|o| o.map(|s| s.to_string())).collect(),
        headers: headers.iter().map(|o| o.map(|s| s.to_string())).collect(),
    }
}

#[test]
fn header_with_paired_source_is_resolved() {
    let c = Compiler::new(
        config("src/main.c"),
        ".".to_string(),
        strings(&["./src/main.c", "./src/util.c"]),
        strings(&["./src/util.h"]),
    );
    let t = texts(
        Some("#include \"util.h\"\nint main() { return util(); }\n"),
        &[Some("#include \"util.h\"\nint main() { return util(); }\n"), Some("#include \"util.h\"\nint util() { return 0; }\n")],
        &[Some("int util();\n")],
    );
    let (srcs, dirs) = match c.get_needed_files(&t) {
        Ok(r) => r,
        Err(_) => panic!("resolution failed"),
    };
    assert_eq!(sorted(srcs), strings(&["./src/main.c", "./src/util.c"]));
    assert_eq!(dirs, strings(&["./src"]));
}

#[test]
fn system_header_is_ignored() {
    let c = Compiler::new(config("src/main.c"), ".".to_string(), strings(&["./src/main.c"]), vec![]);
    let t = texts(Some("#include <stdio.h>\nint main() {}\n"), &[Some("#include <stdio.h>\n")], &[]);
    let (srcs, dirs) = match c.get_needed_files(&t) {
        Ok(r) => r,
        Err(_) => panic!("resolution failed"),
    };
    assert_eq!(srcs, strings(&["./src/main.c"]));
    assert!(dirs.is_empty());
}

#[test]
fn mutual_include_cycle_terminates() {
    let c = Compiler::new(
        config("entry.c"),
        "proj".to_string(),
        strings(&["proj/entry.c", "proj/lib/a.c", "proj/lib/b.c"]),
        strings(&["proj/inc/a.h", "proj/inc/b.h"]),
    );
    let t = texts(
        Some("#include \"a.h\"\n"),
        &[Some("#include \"a.h\"\n"), Some("#include \"a.h\"\n"), Some("#include \"b.h\"\n")],
        &[Some("#include \"b.h\"\n"), Some("#include \"a.h\"\n")],
    );
    let (srcs, dirs) = match c.get_needed_files(&t) {
        Ok(r) => r,
        Err(_) => panic!("resolution failed"),
    };
    assert_eq!(sorted(srcs), strings(&["proj/entry.c", "proj/lib/a.c", "proj/lib/b.c"]));
    assert_eq!(dirs, strings(&["proj/inc"]));
}

#[test]
fn source_only_reached_through_its_header_name() {
    let c = Compiler::new(
        config("main.c"),
        "p".to_string(),
        strings(&["p/main.c", "p/lonely.c", "p/x.c"]),
        strings(&["p/x.h"]),
    );
    let t = texts(Some("#include \"x.h\"\n#include \"nothere.h\"\n"), &[None, None, Some("int x;\n")], &[Some("\n")]);
    let (srcs, dirs) = match c.get_needed_files(&t) {
        Ok(r) => r,
        Err(_) => panic!("resolution failed"),
    };
    assert_eq!(sorted(srcs), strings(&["p/main.c", "p/x.c"]));
    assert_eq!(dirs, strings(&["p"]));
}

#[test]
fn same_file_name_picks_first_in_catalog() {
    let c = Compiler::new(
        config("main.c"),
        "p".to_string(),
        strings(&["p/main.c"]),
        strings(&["p/one/util.h", "p/two/util.h"]),
    );
    let t = texts(Some("#include \"util.h\"\n"), &[Some("")], &[Some(""), Some("")]);
    let (_, dirs) = match c.get_needed_files(&t) {
        Ok(r) => r,
        Err(_) => panic!("resolution failed"),
    };
    assert_eq!(dirs, strings(&["p/one"]));
    assert_eq!(find_named(&strings(&["p/one/util.h", "p/two/util.h"]), &"util.h".to_string()), Some(0));
    assert_eq!(find_named(&strings(&["p/one/util.h"]), &"other.h".to_string()), None);
}

#[test]
fn unreadable_needed_file_is_an_error() {
    let c = Compiler::new(config("main.c"), "p".to_string(), strings(&["p/util.c"]), strings(&["p/util.h"]));
    let t = texts(Some("#include \"util.h\"\n"), &[None], &[Some("")]);
    match c.get_needed_files(&t) {
        Err(ResolveError::Unreadable(p)) => assert_eq!(p, "p/util.c"),
        _ => panic!("expected an unreadable file"),
    }
    let t = texts(None, &[Some("")], &[Some("")]);
    match c.get_needed_files(&t) {
        Err(ResolveError::Unreadable(p)) => assert_eq!(p, "p/main.c"),
        _ => panic!("expected an unreadable entry file"),
    }
}

#[test]
fn unreadable_file_that_is_not_needed_is_no_error() {
    let c = Compiler::new(config("main.c"), "p".to_string(), strings(&["p/util.c"]), strings(&["p/util.h"]));
    let t = texts(Some("int main() {}\n"), &[None], &[None]);
    assert!(c.get_needed_files(&t).is_ok());
}

#[test]
fn graph_resolves_directly() {
    let g = IncludeGraph {
        entry: "m.c".to_string(),
        sources: strings(&["d/k.c"]),
        headers: strings(&["d/k.h"]),
        includes: vec![Some(vec![]), Some(vec![]), Some(strings(&["k.h"]))],
    };
    let (srcs, dirs) = match g.resolve() {
        Ok(r) => r,
        Err(_) => panic!("resolution failed"),
    };
    assert_eq!(sorted(srcs), strings(&["d/k.c", "m.c"]));
    assert_eq!(dirs, strings(&["d"]));
}

#[test]
fn entry_listed_once_when_also_reached() {
    let c = Compiler::new(
        config("main.c"),
        "p".to_string(),
        strings(&["p/main.c", "p/util.c"]),
        strings(&["p/main.h", "p/util.h"]),
    );
    let t = texts(
        Some("#include \"util.h\"\n"),
        &[Some("#include \"util.h\"\n"), Some("#include \"main.h\"\n")],
        &[Some(""), Some("")],
    );
    let (srcs, _) = match c.get_needed_files(&t) {
        Ok(r) => r,
        Err(_) => panic!("resolution failed"),
    };
    assert_eq!(sorted(srcs), strings(&["p/main.c", "p/util.c"]));
}

#[test]
fn prepare_keeps_the_resolution() {
    let mut c = Compiler::new(
        config("src/main.c"),
        ".".to_string(),
        strings(&["./src/util.c"]),
        strings(&["./src/util.h"]),
    );
    let t = texts(Some("#include \"util.h\"\n"), &[Some("")], &[Some("")]);
    assert!(c.prepare(&t).is_ok());
    assert_eq!(sorted(c.needed_src.clone()), strings(&["./src/main.c", "./src/util.c"]));
    assert_eq!(c.inc_dirs, strings(&["./src"]));
    assert_eq!(c.get_inc_string(), " -I./src");
}

#[test]
fn transitive_chain_through_sources_is_followed() {
    let c = Compiler::new(
        config("main.c"),
        "p".to_string(),
        strings(&["p/a.c", "p/b.c", "p/unused.c"]),
        strings(&["p/h/a.h", "p/h2/b.h", "p/unused.h"]),
    );
    let t = texts(
        Some("#include \"a.h\"\n"),
        &[Some("#include \"b.h\"\n"), Some("#include <stdlib.h>\n"), Some("#include \"unused.h\"\n")],
        &[Some(""), Some(""), Some("")],
    );
    let (srcs, dirs) = match c.get_needed_files(&t) {
        Ok(r) => r,
        Err(_) => panic!("resolution failed"),
    };
    assert_eq!(sorted(srcs), strings(&["p/a.c", "p/b.c", "p/main.c"]));
    assert_eq!(sorted(dirs), strings(&["p/h", "p/h2"]));
}

#[test]
fn same_source_name_picks_first_in_catalog() {
    let c = Compiler::new(
        config("main.c"),
        "p".to_string(),
        strings(&["p/a/util.c", "p/b/util.c"]),
        strings(&["p/util.h"]),
    );
    let t = texts(Some("#include \"util.h\"\n"), &[Some(""), None], &[Some("")]);
    let (srcs, dirs) = match c.get_needed_files(&t) {
        Ok(r) => r,
        Err(_) => panic!("resolution failed"),
    };
    assert_eq!(sorted(srcs), strings(&["p/a/util.c", "p/main.c"]));
    assert_eq!(dirs, strings(&["p"]));
}
