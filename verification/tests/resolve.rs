use datalog::ast::{ImportKind, StatementKind};
use datalog::error::Error;
use datalog::parser::parse;
use datalog::resolve::{parent_dir, resolve_path, Reply, Request, ResolvedProgram, Resolver, Step};
use std::collections::HashMap;

/// Runs resolution against an in-memory disk: file path to contents.
fn resolve_with_disk(
    program: datalog::ast::Program,
    source_path: Option<&str>,
    disk: &HashMap<String, String>,
) -> Result<ResolvedProgram, Vec<Error>> {
    let mut resolver = Resolver::new(program, source_path);
    let mut reply: Option<Reply> = None;
    loop {
        match resolver.step(reply.take()) {
            Step::Done(result) => return result,
            Step::Need(Request::Canonicalize(path)) => {
                let canonical = path.trim_start_matches("./").to_string();
                reply = Some(Reply::Canonical(if disk.contains_key(&canonical) {
                    Ok(canonical)
                } else {
                    Err("No such file or directory".to_string())
                }));
            }
            Step::Need(Request::Read(path)) => {
                let key = path.trim_start_matches("./").to_string();
                reply = Some(Reply::Source(disk.get(&key).cloned().ok_or_else(|| "missing".to_string())));
            }
            Step::Need(Request::Exists(path)) => {
                reply = Some(Reply::Exists(disk.contains_key(path.trim_start_matches("./"))));
            }
        }
    }
}

fn resolve_modules(program: datalog::ast::Program, source_path: Option<&str>) -> Result<ResolvedProgram, Vec<Error>> {
    resolve_with_disk(program, source_path, &HashMap::new())
}

#[test]
fn url_data_imports_pass_through_untouched() {
    let program = parse("import \"https://example.com/d.csv\" as d.\n").expect("parses");
    let resolved = resolve_modules(program, None).expect("resolves");
    let StatementKind::Import(import) = &resolved.program.statements[0].kind else {
        panic!("expected an import");
    };
    assert_eq!(import.path, "https://example.com/d.csv");
}

#[test]
fn a_root_query_is_still_legal() {
    let program = parse("p(1).\n?- p(X).\n").expect("parses");
    let resolved = resolve_modules(program, None).expect("resolves");
    assert_eq!(resolved.program.statements.len(), 2);
}

#[test]
fn a_module_import_of_a_data_extension_suggests_as() {
    let program = parse("import \"x.csv\".\n").expect("parses");
    let errors = resolve_modules(program, None).expect_err("data ext without as");
    assert!(
        errors[0].render().contains("importing data requires `as`"),
        "got: {errors:?}"
    );
}

#[test]
fn a_url_module_import_is_an_error() {
    let program = parse("import \"https://example.com/lib.dl\".\n").expect("parses");
    let errors = resolve_modules(program, None).expect_err("url module");
    assert!(errors[0].render().contains("local files only"), "got: {errors:?}");
}

fn disk(files: &[(&str, &str)]) -> HashMap<String, String> {
    files.iter().map(|(p, c)| (p.to_string(), c.to_string())).collect()
}

fn resolve_file(path: &str, files: &HashMap<String, String>) -> Result<ResolvedProgram, Vec<Error>> {
    let program = parse(&files[path]).expect("root parses");
    resolve_with_disk(program, Some(path), files)
}

#[test]
fn a_module_import_splices_in_place() {
    let files = disk(&[
        ("lib.dl", "parent(\"alice\", \"bob\").\n"),
        ("main.dl", "import \"lib.dl\".\nancestor(X, Y) :- parent(X, Y).\n"),
    ]);
    let resolved = resolve_file("main.dl", &files).expect("resolves");
    assert_eq!(resolved.program.statements.len(), 2);
    assert!(matches!(resolved.program.statements[0].kind, StatementKind::Clause(_)));
    assert_eq!(resolved.origins, vec![1, 0]);
    assert_eq!(resolved.files.len(), 2);
}

#[test]
fn a_diamond_splices_the_shared_module_once() {
    let files = disk(&[
        ("c.dl", "base(1).\n"),
        ("a.dl", "import \"c.dl\".\nleft(X) :- base(X).\n"),
        ("b.dl", "import \"c.dl\".\nright(X) :- base(X).\n"),
        ("main.dl", "import \"a.dl\".\nimport \"b.dl\".\n"),
    ]);
    let resolved = resolve_file("main.dl", &files).expect("resolves");
    assert_eq!(resolved.program.statements.len(), 3);
}

#[test]
fn an_import_cycle_terminates_and_takes_the_union() {
    let files = disk(&[
        ("x.dl", "import \"y.dl\".\nx_fact(1).\n"),
        ("y.dl", "import \"x.dl\".\ny_fact(2).\n"),
        ("main.dl", "import \"x.dl\".\n"),
    ]);
    let resolved = resolve_file("main.dl", &files).expect("resolves");
    assert_eq!(resolved.program.statements.len(), 2);
}

#[test]
fn a_cycle_back_to_the_root_is_harmless() {
    let files = disk(&[
        ("lib.dl", "import \"main.dl\".\nlib_fact(1).\n"),
        ("main.dl", "import \"lib.dl\".\nmain_fact(2).\n"),
    ]);
    let resolved = resolve_file("main.dl", &files).expect("resolves");
    assert_eq!(resolved.program.statements.len(), 2);
}

#[test]
fn a_query_in_an_imported_module_is_an_error_naming_the_file() {
    let files = disk(&[("lib.dl", "p(1).\n?- p(X).\n"), ("main.dl", "import \"lib.dl\".\n?- p(X).\n")]);
    let errors = resolve_file("main.dl", &files).expect_err("resolution fails");
    let message = errors[0].render();
    assert!(message.contains("lib.dl"), "got: {message}");
    assert!(message.contains("not allowed in imported modules"), "got: {message}");
}

#[test]
fn a_missing_module_names_the_importing_file() {
    let files = disk(&[("main.dl", "import \"nope.dl\".\n")]);
    let errors = resolve_file("main.dl", &files).expect_err("resolution fails");
    let message = errors[0].render();
    assert!(message.contains("main.dl"), "got: {message}");
    assert!(message.contains("cannot read module"), "got: {message}");
}

#[test]
fn parse_errors_in_a_module_are_wrapped_with_its_file() {
    let files = disk(&[("broken.dl", "p(1\n"), ("main.dl", "import \"broken.dl\".\n")]);
    let errors = resolve_file("main.dl", &files).expect_err("resolution fails");
    assert!(errors.iter().all(|e| e.render().contains("broken.dl")), "got: {errors:?}");
}

#[test]
fn a_std_import_becomes_a_std_statement_unless_a_file_shadows_it() {
    let program = parse("import \"std/time\".\n").expect("parses");
    let resolved = resolve_modules(program, None).expect("resolves");
    let StatementKind::Import(import) = &resolved.program.statements[0].kind else {
        panic!("import");
    };
    assert_eq!(import.kind, ImportKind::Std { module: "time".to_string() });

    let files = disk(&[("std/time", "x(1).")]);
    let program = parse("import \"std/time\".\n").expect("parses");
    let errors = resolve_with_disk(program, None, &files).expect_err("shadowed");
    assert!(errors[0].render().contains("reserved `std/` module prefix"), "got: {errors:?}");

    let program = parse("import \"std/math\".\n").expect("parses");
    let errors = resolve_modules(program, None).expect_err("unknown std module");
    assert!(errors[0].render().contains("std/time"), "got: {errors:?}");
}

#[test]
fn parent_dirs_of_paths() {
    assert_eq!(parent_dir("family.dl"), Some(".".to_string()));
    assert_eq!(parent_dir("lib/family.dl"), Some("lib".to_string()));
    assert_eq!(parent_dir("/family.dl"), Some("/".to_string()));
    assert_eq!(parent_dir("a//b/"), Some("a".to_string()));
    assert_eq!(parent_dir("/"), None);
    assert_eq!(parent_dir(""), None);
}

#[test]
fn relative_paths_resolve_against_the_directory() {
    assert_eq!(resolve_path("x.csv", Some("data")), "data/x.csv");
    assert_eq!(resolve_path("x.csv", Some("data/")), "data/x.csv");
    assert_eq!(resolve_path("/abs/x.csv", Some("data")), "/abs/x.csv");
    assert_eq!(resolve_path("https://h.com/x.csv", Some("data")), "https://h.com/x.csv");
    assert_eq!(resolve_path("x.csv", None), "x.csv");
}

#[test]
fn an_unanswered_request_is_asked_again() {
    let program = parse("import \"lib.dl\".\np(1).\n").expect("parses");
    let mut resolver = Resolver::new(program, None);
    let first = resolver.step(None);
    assert!(matches!(first, Step::Need(Request::Canonicalize(ref p)) if p == "lib.dl"));
    let again = resolver.step(Some(Reply::Exists(true)));
    assert!(matches!(again, Step::Need(Request::Canonicalize(ref p)) if p == "lib.dl"));
    let read = resolver.step(Some(Reply::Canonical(Ok("lib.dl".to_string()))));
    assert!(matches!(read, Step::Need(Request::Read(ref p)) if p == "lib.dl"));
}
