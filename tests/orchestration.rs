use boat::compiler::{split_flags, Compiler};
use boat::config::{Build, Config, General};
use boat::paths::{classify, file_name, join, parent_dir, source_name_for, strip_first, with_object_ext, FileKind};
use boat::scan::{directive_names, include_pattern_ok, scan_includes};

fn compiler(needed: &[&str], dirs: &[&str]) -> Compiler {
    compiler_with_flags(needed, dirs, "-Wall")
}

fn compiler_with_flags(needed: &[&str], dirs: &[&str], cflags: &str) -> Compiler {
    let config = Config {
        general: General { target: "app".to_string(), main: "src/main.c".to_string() },
        build: Build { build_dir: "build".to_string(), cc: "gcc".to_string(), cflags: cflags.to_string() },
    };
    let mut c = Compiler::new(config, ".".to_string(), vec![], vec![]);
    c.needed_src = needed.iter().map(|s| s.to_string()).collect();
    c.inc_dirs = dirs.iter().map(|s| s.to_string()).collect();
    c
}

#[test]
fn plan_compiles_each_source_once_and_links_once() {
    let c = compiler(&["./src/main.c", "./src/lib/util.c", "./x.c"], &["./src/lib"]);
    let plan = c.plan();
    assert_eq!(plan.steps.len(), 3);
    assert_eq!(plan.steps[0].object, "./build/src/main.o");
    assert_eq!(plan.steps[0].object_dir, "./build/src");
    assert_eq!(plan.steps[1].object, "./build/src/lib/util.o");
    assert_eq!(plan.steps[2].object, "./build/x.o");
    assert_eq!(plan.steps[0].command.program, "gcc");
    assert_eq!(
        plan.steps[0].command.args,
        vec!["-Wall", "-c", "./src/main.c", "-I./src/lib", "-o", "./build/src/main.o"]
    );
    assert_eq!(plan.link.program, "gcc");
    assert_eq!(
        plan.link.args,
        vec![
            "-Wall",
            "./build/src/main.o",
            "./build/src/lib/util.o",
            "./build/x.o",
            "-I./src/lib",
            "-o",
            "./app"
        ]
    );
}

#[test]
fn plan_with_no_sources_links_nothing() {
    let c = compiler(&[], &[]);
    let plan = c.plan();
    assert!(plan.steps.is_empty());
    assert_eq!(plan.link.args, vec!["-Wall", "-o", "./app"]);
}

#[test]
fn clean_and_run_paths() {
    let c = compiler(&[], &[]);
    assert_eq!(c.build_dir_path(), "./build");
    assert_eq!(c.target_path(), "./app");
    assert_eq!(c.get_inc_string(), "");
    let c = compiler(&[], &["a", "b/c"]);
    assert_eq!(c.get_inc_string(), " -Ia -Ib/c");
}

#[test]
fn path_helpers() {
    assert_eq!(file_name("./src/util.h"), "util.h");
    assert_eq!(file_name("util.h"), "util.h");
    assert_eq!(parent_dir("./src/util.h"), "./src");
    assert_eq!(parent_dir("util.h"), "");
    assert_eq!(source_name_for("util.h"), "util.c");
    assert_eq!(source_name_for("noext"), "noext.c");
    assert_eq!(join(".", "build"), "./build");
    assert_eq!(join("root/", "x"), "root/x");
    assert_eq!(join("", "x"), "x");
    assert_eq!(strip_first("./src/main.c"), "src/main.c");
    assert_eq!(strip_first("main.c"), "main.c");
    assert_eq!(with_object_ext("src/main.c"), "src/main.o");
    assert_eq!(with_object_ext("v1.2/main"), "v1.2/main.o");
}

#[test]
fn include_directives_are_scanned() {
    assert!(include_pattern_ok());
    let text = "#include <stdio.h>\n#include \"util.h\"\n#include \"dir/x.h\"\n#include   \"y.h\"\nint x;\n";
    assert_eq!(scan_includes(text), vec!["stdio.h", "util.h"]);
    assert!(scan_includes("int main() {}\n").is_empty());
    assert_eq!(directive_names(&vec!["#include <ab.h>".to_string(), "short".to_string()]), vec!["ab.h", ""]);
}

#[test]
fn files_are_classified_by_extension() {
    assert!(matches!(classify("./src/main.c"), FileKind::Source));
    assert!(matches!(classify("./src/util.h"), FileKind::Header));
    assert!(matches!(classify("./README.md"), FileKind::Other));
    assert!(matches!(classify("./Makefile"), FileKind::Other));
    assert!(matches!(classify("./src/x.hh"), FileKind::Other));
    assert!(matches!(classify("c"), FileKind::Source));
}

#[test]
fn each_flag_is_its_own_argument() {
    let c = compiler_with_flags(&["./src/main.c", "./src/util.c"], &["./inc"], "-Wall  -O2\t-g ");
    let plan = c.plan();
    assert_eq!(plan.steps.len(), 2);
    assert_eq!(
        plan.steps[1].command.args,
        vec!["-Wall", "-O2", "-g", "-c", "./src/util.c", "-I./inc", "-o", "./build/src/util.o"]
    );
    assert_eq!(
        plan.link.args,
        vec!["-Wall", "-O2", "-g", "./build/src/main.o", "./build/src/util.o", "-I./inc", "-o", "./app"]
    );
    let c = compiler_with_flags(&["./a.c"], &[], "");
    assert_eq!(c.plan().steps[0].command.args, vec!["-c", "./a.c", "-o", "./build/a.o"]);
}

#[test]
fn flags_split_on_whitespace() {
    assert_eq!(split_flags("-Wall -O2"), vec!["-Wall", "-O2"]);
    assert_eq!(split_flags("  -a\n-b\r\n -c  "), vec!["-a", "-b", "-c"]);
    assert!(split_flags("").is_empty());
    assert!(split_flags("   ").is_empty());
    assert_eq!(split_flags("one"), vec!["one"]);
}

#[test]
fn directive_names_must_end_in_dot_h() {
    assert!(scan_includes("#include <x_h>\n#include \"y_h\"\n").is_empty());
    assert_eq!(scan_includes("#include <x.h>\n"), vec!["x.h"]);
}
