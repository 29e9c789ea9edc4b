use geenie::error::GeenieError;
use geenie::file::File;
use geenie::materialize::{command_outcome, failure_aborts, write_decision, WriteStep, WRITE_BATCH};
use geenie::path::join_path;
use geenie::process::process;
use geenie::questions::{confirm, input, multiselect, select};

#[test]
fn join_puts_the_child_under_the_prefix() {
    let joined = join_path(&b"sub".to_vec(), &b"a.json".to_vec());
    assert_eq!(joined, b"sub/a.json".to_vec());
}

#[test]
fn join_with_an_empty_prefix_is_the_child_alone() {
    let joined = join_path(&Vec::new(), &b"a.json".to_vec());
    assert_eq!(joined, b"a.json".to_vec());
}

#[test]
fn joins_nest_outer_to_inner() {
    let inner = join_path(&b"y".to_vec(), &b"a.json".to_vec());
    let outer = join_path(&b"x".to_vec(), &inner);
    assert_eq!(outer, b"x/y/a.json".to_vec());
    let combined = join_path(&join_path(&b"x".to_vec(), &b"y".to_vec()), &b"a.json".to_vec());
    assert_eq!(outer, combined);
}

#[test]
fn file_new_keeps_path_and_content() {
    let f = File::new(b"dir/a.txt".to_vec(), b"body".to_vec());
    assert_eq!(f.path, b"dir/a.txt".to_vec());
    assert_eq!(f.content, b"body".to_vec());
}

#[test]
fn process_builder_accumulates_arguments_in_order() {
    let p = process("pnpm".to_string())
        .arg("install".to_string())
        .arg("--frozen-lockfile".to_string());
    assert_eq!(p.cmd, "pnpm");
    assert_eq!(p.args, vec!["install".to_string(), "--frozen-lockfile".to_string()]);
    assert!(!p.output);
    let p = p.output(true);
    assert!(p.output);
}

#[test]
fn confirm_builder_sets_label_and_initial_value() {
    let c = confirm("continue?".to_string());
    assert_eq!(c.label, "continue?");
    assert!(!c.default);
    let c = c.initial_value(true);
    assert!(c.default);
    let c = c.default(false);
    assert!(!c.default);
}

#[test]
fn input_builder_starts_plain() {
    let i = input("name".to_string());
    assert_eq!(i.label, "name");
    assert!(i.default.is_none());
    assert!(!i.required);
    assert!(!i.multiline);
}

#[test]
fn select_builder_keeps_entry_order() {
    let s = select("bundler".to_string())
        .item("vite".to_string(), "Vite".to_string(), "fast".to_string())
        .items(vec![("webpack".to_string(), "Webpack".to_string(), "classic".to_string())]);
    assert_eq!(s.label, "bundler");
    assert_eq!(s.items.len(), 2);
    assert_eq!(s.items[0].0, "vite");
    assert_eq!(s.items[1].0, "webpack");
}

#[test]
fn multiselect_builder_keeps_entry_order() {
    let m = multiselect("features".to_string())
        .item("a".to_string(), "A".to_string(), String::new())
        .item("b".to_string(), "B".to_string(), String::new());
    assert_eq!(m.label, "features");
    assert_eq!(m.items.len(), 2);
    assert_eq!(m.items[1].0, "b");
}

#[test]
fn existing_file_is_skipped_unless_forced() {
    assert_eq!(write_decision(true, false), WriteStep::Skip);
    assert_eq!(write_decision(true, true), WriteStep::Write);
    assert_eq!(write_decision(false, false), WriteStep::Write);
    assert_eq!(write_decision(false, true), WriteStep::Write);
}

#[test]
fn only_io_failures_abort_a_write_batch() {
    assert!(failure_aborts(&GeenieError::Io { message: "disk full".to_string() }));
    assert!(!failure_aborts(&GeenieError::Exists { path: b"a".to_vec() }));
    assert!(!failure_aborts(&GeenieError::Process { error: "x".to_string() }));
}

#[test]
fn a_nonzero_exit_is_a_process_error() {
    assert!(command_outcome(true, String::new()).is_ok());
    match command_outcome(false, "exit 1".to_string()) {
        Err(GeenieError::Process { error }) => assert_eq!(error, "exit 1"),
        _ => panic!("expected a process error"),
    }
}

#[test]
fn write_batches_are_bounded() {
    assert_eq!(WRITE_BATCH, 10);
}

#[test]
fn the_builder_refuses_a_repeated_path_and_keeps_its_state() {
    let mut builder = geenie::result::ResultBuilder::new();
    builder.push_file(File::new(b"a".to_vec(), b"1".to_vec())).unwrap();
    builder.push_file(File::new(b"b".to_vec(), b"2".to_vec())).unwrap();
    match builder.push_file(File::new(b"a".to_vec(), b"3".to_vec())) {
        Err(GeenieError::Duplicate { path }) => assert_eq!(path, b"a".to_vec()),
        _ => panic!("expected a duplicate error"),
    }
    assert_eq!(builder.files.len(), 2);
    assert_eq!(builder.files[1].content, b"2".to_vec());
}

#[test]
fn error_constructors_build_their_variants() {
    assert!(matches!(
        GeenieError::duplicate(b"p".to_vec()),
        GeenieError::Duplicate { path } if path == b"p".to_vec()
    ));
    assert!(matches!(
        GeenieError::already_exists(b"p".to_vec()),
        GeenieError::Exists { path } if path == b"p".to_vec()
    ));
    assert!(matches!(
        GeenieError::command("stderr".to_string()),
        GeenieError::Process { error } if error == "stderr"
    ));
    assert!(matches!(
        GeenieError::backend("boom".to_string()),
        GeenieError::Backend { message } if message == "boom"
    ));
    assert!(GeenieError::Io { message: String::new() }.is_io());
    assert!(!GeenieError::Taken.is_io());
}
