use std::cell::RefCell;

use geenie::environment::Environment;
use geenie::error::GeenieError;
use geenie::file::File;
use geenie::geenie::Geenie;
use geenie::item::Item;
use geenie::process::process;
use geenie::question::{Answer, KindSlot, Prompt, Question, QuestionKind, Reaction};
use geenie::questions::{confirm, input, multiselect, select, Confirm, Input, MultiSelect, Select};

/// One scripted answer for the fake backend.
enum Scripted {
    Text(String),
    Flag(bool),
    Pick(usize),
    Picks(Vec<usize>),
}

/// A backend that replays a fixed script and records every label it was
/// asked, in order.
struct FakeEnv {
    script: RefCell<Vec<Scripted>>,
    asked: RefCell<Vec<String>>,
}

impl FakeEnv {
    fn new(script: Vec<Scripted>) -> FakeEnv {
        FakeEnv { script: RefCell::new(script), asked: RefCell::new(Vec::new()) }
    }

    fn next(&self) -> Scripted {
        self.script.borrow_mut().remove(0)
    }

    fn asked_labels(&self) -> Vec<String> {
        self.asked.borrow().clone()
    }
}

impl Environment for FakeEnv {
    fn info(&self, _message: &str) -> Result<(), String> {
        Ok(())
    }

    fn error(&self, _message: &str) -> Result<(), String> {
        Ok(())
    }

    fn confirm(&self, question: &Confirm) -> Result<bool, String> {
        self.asked.borrow_mut().push(question.label.clone());
        match self.next() {
            Scripted::Flag(b) => Ok(b),
            _ => Err("script mismatch: expected a flag".to_string()),
        }
    }

    fn input(&self, question: &Input) -> Result<String, String> {
        self.asked.borrow_mut().push(question.label.clone());
        match self.next() {
            Scripted::Text(t) => Ok(t),
            _ => Err("script mismatch: expected text".to_string()),
        }
    }

    fn select(&self, question: &Select) -> Result<usize, String> {
        self.asked.borrow_mut().push(question.label.clone());
        match self.next() {
            Scripted::Pick(i) => Ok(i),
            _ => Err("script mismatch: expected a pick".to_string()),
        }
    }

    fn multiselect(&self, question: &MultiSelect) -> Result<Vec<usize>, String> {
        self.asked.borrow_mut().push(question.label.clone());
        match self.next() {
            Scripted::Picks(v) => Ok(v),
            _ => Err("script mismatch: expected picks".to_string()),
        }
    }
}

fn file_item(path: &str, content: &str) -> Item {
    Item::File(File::new(path.as_bytes().to_vec(), content.as_bytes().to_vec()))
}

#[test]
fn run_collects_files_and_commands_in_order() {
    let mut g = Geenie::new(FakeEnv::new(Vec::new()));
    g.file(File::new(b"pkg.json".to_vec(), b"{}".to_vec())).unwrap();
    g.command(process("echo".to_string()).arg("hi".to_string()));
    let result = g.run().unwrap();
    assert_eq!(result.files.len(), 1);
    assert_eq!(result.files.get(0).path, b"pkg.json".to_vec());
    assert_eq!(result.files.get(0).content, b"{}".to_vec());
    assert_eq!(result.commands.len(), 1);
    assert_eq!(result.commands.get(0).cmd, "echo");
    assert_eq!(result.commands.get(0).args, vec!["hi".to_string()]);
    assert!(result.answers.is_empty());
}

#[test]
fn duplicate_paths_at_same_level_fail() {
    let mut g = Geenie::new(FakeEnv::new(Vec::new()));
    g.push(file_item("a.json", "one"));
    g.push(file_item("a.json", "two"));
    match g.run() {
        Err(GeenieError::Duplicate { path }) => assert_eq!(path, b"a.json".to_vec()),
        other => panic!("expected a duplicate error, got {:?}", other.is_ok()),
    }
}

#[test]
fn duplicate_final_paths_under_different_mounts_fail() {
    // Two different branches resolve to the same final path "x/a.json".
    let mut g = Geenie::new(FakeEnv::new(Vec::new()));
    g.push(file_item("a.json", "_").mount(b"x".to_vec()));
    g.push(Item::List(vec![file_item("a.json", "_")]).mount(b"x".to_vec()));
    match g.run() {
        Err(GeenieError::Duplicate { path }) => assert_eq!(path, b"x/a.json".to_vec()),
        other => panic!("expected a duplicate error, got {:?}", other.is_ok()),
    }
}

#[test]
fn duplicate_inside_a_mount_reports_the_local_path() {
    // The inner turn checks against its own fresh store, so the conflict is
    // raised under the local path, before any prefix is applied.
    let mut g = Geenie::new(FakeEnv::new(Vec::new()));
    g.push(Item::List(vec![file_item("a.json", "1"), file_item("a.json", "2")])
        .mount(b"sub".to_vec()));
    match g.run() {
        Err(GeenieError::Duplicate { path }) => assert_eq!(path, b"a.json".to_vec()),
        other => panic!("expected a duplicate error, got {:?}", other.is_ok()),
    }
}

#[test]
fn a_mount_internal_duplicate_wins_over_an_outer_conflict() {
    // The mounted turn runs in isolation first: its own duplicate surfaces
    // even though an earlier inner file would also have collided with the
    // outside once re-rooted.
    let mut g = Geenie::new(FakeEnv::new(Vec::new()));
    g.push(file_item("x/f", "_"));
    g.push(Item::List(vec![
        file_item("f", "_"),
        file_item("g", "_"),
        file_item("g", "_"),
    ])
    .mount(b"x".to_vec()));
    match g.run() {
        Err(GeenieError::Duplicate { path }) => assert_eq!(path, b"g".to_vec()),
        other => panic!("expected a duplicate error, got {:?}", other.is_ok()),
    }
}

#[test]
fn a_backend_failure_aborts_the_run() {
    // The script answers with the wrong shape, so the backend reports a
    // failure and the run surfaces it.
    let env = FakeEnv::new(vec![Scripted::Text("not a flag".to_string())]);
    let mut g = Geenie::new(env);
    g.push(Item::Question(
        QuestionKind::One(Prompt::Confirm(confirm("ok?".to_string())))
            .question(Reaction::Children(vec![file_item("never.txt", "_")])),
    ));
    assert!(matches!(g.run(), Err(GeenieError::Backend { .. })));
}

#[test]
fn nothing_runs_after_the_conflicting_item() {
    // A question queued behind the conflict must never reach the backend.
    let env = FakeEnv::new(vec![Scripted::Flag(true)]);
    let mut g = Geenie::new(env);
    g.push(file_item("a.json", "one"));
    g.push(file_item("a.json", "two"));
    g.push(Item::Question(
        QuestionKind::One(Prompt::Confirm(confirm("never asked".to_string())))
            .question(Reaction::Children(Vec::new())),
    ));
    let r = g.run();
    assert!(matches!(r, Err(GeenieError::Duplicate { .. })));
}

#[test]
fn duplicate_final_paths_at_different_depths_fail() {
    // A plain file at the root and a mounted file two levels down resolve to
    // the same final path.
    let mut g = Geenie::new(FakeEnv::new(Vec::new()));
    g.push(file_item("x/y/a.json", "_"));
    g.push(file_item("a.json", "_").mount(b"y".to_vec()).mount(b"x".to_vec()));
    match g.run() {
        Err(GeenieError::Duplicate { path }) => assert_eq!(path, b"x/y/a.json".to_vec()),
        other => panic!("expected a duplicate error, got {:?}", other.is_ok()),
    }
}

#[test]
fn an_artifact_can_be_fed_back_as_items() {
    // Run once, then re-inject the produced file list and command queue into
    // a second run, mounted under a prefix.
    let mut first = Geenie::new(FakeEnv::new(Vec::new()));
    first.push(file_item("a.txt", "1"));
    first.command(process("echo".to_string()));
    let artifact = first.run().unwrap();

    let mut second = Geenie::new(FakeEnv::new(Vec::new()));
    second.push(artifact.files.into_item().mount(b"again".to_vec()));
    second.push(artifact.commands.into_item());
    let result = second.run().unwrap();
    assert_eq!(result.files.len(), 1);
    assert_eq!(result.files.get(0).path, b"again/a.txt".to_vec());
    assert_eq!(result.commands.len(), 1);
    assert_eq!(result.commands.get(0).cmd, "echo");
}

#[test]
fn a_whole_artifact_can_be_fed_back_as_one_item() {
    let mut first = Geenie::new(FakeEnv::new(Vec::new()));
    first.push(file_item("a.txt", "1"));
    first.command(process("echo".to_string()));
    let artifact = first.run().unwrap();

    let (item, _env) = artifact.into_item();
    let mut second = Geenie::new(FakeEnv::new(Vec::new()));
    second.push(item);
    let result = second.run().unwrap();
    assert_eq!(result.files.len(), 1);
    assert_eq!(result.files.get(0).path, b"a.txt".to_vec());
    assert_eq!(result.commands.len(), 1);
}

#[test]
fn ask_resolves_prompts_in_declared_order() {
    let env = FakeEnv::new(vec![Scripted::Text("v".to_string()), Scripted::Flag(true)]);
    let kind = QuestionKind::Tuple(vec![
        Prompt::Input(input("a".to_string())),
        Prompt::Confirm(confirm("b".to_string())),
    ]);
    let qas = geenie::geenie::ask(kind, &env).unwrap();
    assert_eq!(qas.len(), 2);
    assert!(matches!(&qas[0].prompt, Prompt::Input(i) if i.label == "a"));
    assert!(matches!(&qas[0].answer, Answer::Text(t) if t == "v"));
    assert!(matches!(&qas[1].prompt, Prompt::Confirm(c) if c.label == "b"));
    assert!(matches!(&qas[1].answer, Answer::Flag(true)));
    assert_eq!(env.asked_labels(), vec!["a".to_string(), "b".to_string()]);
}

#[test]
fn ask_stops_at_the_first_backend_failure() {
    // The script holds a flag where text is owed: the input prompt fails,
    // and the confirm prompt behind it is never asked.
    let env = FakeEnv::new(vec![Scripted::Flag(true)]);
    let kind = QuestionKind::Tuple(vec![
        Prompt::Input(input("a".to_string())),
        Prompt::Confirm(confirm("b".to_string())),
    ]);
    assert!(matches!(geenie::geenie::ask(kind, &env), Err(GeenieError::Backend { .. })));
    assert_eq!(env.asked_labels(), vec!["a".to_string()]);
}

#[test]
fn mount_reroots_a_file() {
    let mut g = Geenie::new(FakeEnv::new(Vec::new()));
    g.push(file_item("a.json", "body").mount(b"sub".to_vec()));
    let result = g.run().unwrap();
    assert_eq!(result.files.len(), 1);
    assert_eq!(result.files.get(0).path, b"sub/a.json".to_vec());
    assert_eq!(result.files.get(0).content, b"body".to_vec());
}

#[test]
fn nested_mounts_join_outer_to_inner() {
    let mut g = Geenie::new(FakeEnv::new(Vec::new()));
    g.push(file_item("a.json", "_").mount(b"y".to_vec()).mount(b"x".to_vec()));
    let result = g.run().unwrap();
    assert_eq!(result.files.get(0).path, b"x/y/a.json".to_vec());
}

#[test]
fn mount_forwards_commands_unprefixed() {
    let mut g = Geenie::new(FakeEnv::new(Vec::new()));
    g.push(Item::Command(process("echo".to_string())).mount(b"sub".to_vec()));
    let result = g.run().unwrap();
    assert_eq!(result.files.len(), 0);
    assert_eq!(result.commands.len(), 1);
    assert_eq!(result.commands.get(0).cmd, "echo");
}

#[test]
fn mount_covers_question_children_at_every_depth() {
    // The file emitted by the question's reaction still lands under the
    // mount prefix, one re-wrapped level at a time.
    let env = FakeEnv::new(vec![Scripted::Flag(true)]);
    let mut g = Geenie::new(env);
    let q = QuestionKind::One(Prompt::Confirm(confirm("deep?".to_string()))).question(
        Reaction::IfFlag {
            slot: 0,
            on_true: vec![file_item("deep.json", "yes")],
            on_false: Vec::new(),
        },
    );
    g.push(Item::Question(q).mount(b"m".to_vec()));
    let result = g.run().unwrap();
    assert_eq!(result.files.len(), 1);
    assert_eq!(result.files.get(0).path, b"m/deep.json".to_vec());
}

#[test]
fn tuple_asks_in_declared_order_and_reaction_sees_all_answers() {
    let env = FakeEnv::new(vec![
        Scripted::Text("my-app".to_string()),
        Scripted::Flag(true),
        Scripted::Pick(1),
    ]);
    let mut g = Geenie::new(env);
    let kind = QuestionKind::Tuple(vec![
        Prompt::Input(input("name".to_string())),
        Prompt::Confirm(confirm("use git?".to_string())),
        Prompt::Select(
            select("bundler".to_string())
                .item("vite".to_string(), "Vite".to_string(), "fast".to_string())
                .item("webpack".to_string(), "Webpack".to_string(), "classic".to_string()),
        ),
    ]);
    let q = kind.question(Reaction::ByChoice {
        slot: 2,
        arms: vec![
            vec![file_item("vite.config.js", "v")],
            vec![file_item("webpack.config.js", "w")],
        ],
    });
    g.push(Item::Question(q));
    let result = g.run().unwrap();
    // The reaction saw the answer at slot 2 and picked the second arm.
    assert_eq!(result.files.len(), 1);
    assert_eq!(result.files.get(0).path, b"webpack.config.js".to_vec());
    // The log holds the three prompts in declared order, with their answers.
    assert_eq!(result.answers.len(), 3);
    assert!(matches!(&result.answers[0].prompt, Prompt::Input(i) if i.label == "name"));
    assert!(matches!(&result.answers[0].answer, Answer::Text(t) if t == "my-app"));
    assert!(matches!(&result.answers[1].prompt, Prompt::Confirm(c) if c.label == "use git?"));
    assert!(matches!(&result.answers[1].answer, Answer::Flag(true)));
    assert!(matches!(&result.answers[2].prompt, Prompt::Select(s) if s.label == "bundler"));
    assert!(matches!(&result.answers[2].answer, Answer::Choice(1)));
}

#[test]
fn tuple_ask_order_is_recorded_by_the_backend() {
    let env = FakeEnv::new(vec![
        Scripted::Text("x".to_string()),
        Scripted::Flag(false),
        Scripted::Pick(0),
    ]);
    let mut g = Geenie::new(env);
    let kind = QuestionKind::Tuple(vec![
        Prompt::Input(input("first".to_string())),
        Prompt::Confirm(confirm("second".to_string())),
        Prompt::Select(select("third".to_string()).item(
            "only".to_string(),
            "Only".to_string(),
            String::new(),
        )),
    ]);
    g.push(Item::Question(kind.question(Reaction::Children(Vec::new()))));
    let result = g.run().unwrap();
    let labels = result.env.asked_labels();
    assert_eq!(labels, vec!["first".to_string(), "second".to_string(), "third".to_string()]);
}

#[test]
fn taking_a_kind_twice_is_rejected() {
    let kind = QuestionKind::One(Prompt::Confirm(confirm("once".to_string())));
    let mut slot = KindSlot::Available(kind);
    assert!(slot.take().is_ok());
    assert!(matches!(slot.take(), Err(GeenieError::Taken)));
}

#[test]
fn a_consumed_question_in_the_tree_fails_the_run() {
    let mut g = Geenie::new(FakeEnv::new(Vec::new()));
    g.push(Item::Question(Question {
        kind: KindSlot::Taken,
        reaction: Reaction::Children(Vec::new()),
    }));
    assert!(matches!(g.run(), Err(GeenieError::Taken)));
}

#[test]
fn confirm_branches_on_the_flag() {
    let env = FakeEnv::new(vec![Scripted::Flag(false)]);
    let mut g = Geenie::new(env);
    let q = QuestionKind::One(Prompt::Confirm(confirm("git?".to_string()))).question(
        Reaction::IfFlag {
            slot: 0,
            on_true: vec![file_item("with.txt", "t")],
            on_false: vec![file_item("without.txt", "f")],
        },
    );
    g.push(Item::Question(q));
    let result = g.run().unwrap();
    assert_eq!(result.files.len(), 1);
    assert_eq!(result.files.get(0).path, b"without.txt".to_vec());
}

#[test]
fn out_of_range_select_answer_is_a_backend_error() {
    let env = FakeEnv::new(vec![Scripted::Pick(5)]);
    let mut g = Geenie::new(env);
    let q = QuestionKind::One(Prompt::Select(select("pick".to_string()).item(
        "a".to_string(),
        "A".to_string(),
        String::new(),
    )))
    .question(Reaction::Children(Vec::new()));
    g.push(Item::Question(q));
    assert!(matches!(g.run(), Err(GeenieError::Backend { .. })));
}

#[test]
fn out_of_range_multiselect_answer_is_a_backend_error() {
    let env = FakeEnv::new(vec![Scripted::Picks(vec![0, 3])]);
    let mut g = Geenie::new(env);
    let q = QuestionKind::One(Prompt::MultiSelect(multiselect("pick many".to_string()).item(
        "a".to_string(),
        "A".to_string(),
        String::new(),
    )))
    .question(Reaction::Children(Vec::new()));
    g.push(Item::Question(q));
    assert!(matches!(g.run(), Err(GeenieError::Backend { .. })));
}

#[test]
fn multiselect_answer_is_logged() {
    let env = FakeEnv::new(vec![Scripted::Picks(vec![1, 0])]);
    let mut g = Geenie::new(env);
    let q = QuestionKind::One(Prompt::MultiSelect(
        multiselect("pick many".to_string())
            .item("a".to_string(), "A".to_string(), String::new())
            .item("b".to_string(), "B".to_string(), String::new()),
    ))
    .question(Reaction::Children(Vec::new()));
    g.push(Item::Question(q));
    let result = g.run().unwrap();
    assert!(matches!(&result.answers[0].answer, Answer::Choices(v) if v == &vec![1usize, 0usize]));
}

#[test]
fn question_children_expand_before_later_roots() {
    let env = FakeEnv::new(vec![Scripted::Flag(true)]);
    let mut g = Geenie::new(env);
    let q = QuestionKind::One(Prompt::Confirm(confirm("go?".to_string()))).question(
        Reaction::Children(vec![file_item("first.txt", "1"), file_item("second.txt", "2")]),
    );
    g.push(Item::Question(q));
    g.push(file_item("third.txt", "3"));
    let result = g.run().unwrap();
    let paths: Vec<Vec<u8>> = (0..result.files.len()).map(|i| result.files.get(i).path.clone()).collect();
    assert_eq!(paths, vec![b"first.txt".to_vec(), b"second.txt".to_vec(), b"third.txt".to_vec()]);
}

#[test]
fn an_empty_run_produces_an_empty_artifact() {
    let g = Geenie::new(FakeEnv::new(Vec::new()));
    let result = g.run().unwrap();
    assert_eq!(result.files.len(), 0);
    assert_eq!(result.commands.len(), 0);
    assert!(result.answers.is_empty());
}

#[test]
fn an_empty_mount_prefix_leaves_paths_alone() {
    let mut g = Geenie::new(FakeEnv::new(Vec::new()));
    g.push(file_item("a.json", "_").mount(Vec::new()));
    let result = g.run().unwrap();
    assert_eq!(result.files.get(0).path, b"a.json".to_vec());
}

#[test]
fn a_question_can_emit_another_question() {
    // The first answer decides whether a second question is asked at all.
    let env = FakeEnv::new(vec![Scripted::Flag(true), Scripted::Text("inner".to_string())]);
    let mut g = Geenie::new(env);
    let inner = QuestionKind::One(Prompt::Input(input("which?".to_string())))
        .question(Reaction::Children(vec![file_item("chosen.txt", "_")]));
    let outer = QuestionKind::One(Prompt::Confirm(confirm("more?".to_string()))).question(
        Reaction::IfFlag { slot: 0, on_true: vec![Item::Question(inner)], on_false: Vec::new() },
    );
    g.push(Item::Question(outer));
    let result = g.run().unwrap();
    assert_eq!(result.files.len(), 1);
    assert_eq!(result.files.get(0).path, b"chosen.txt".to_vec());
    assert_eq!(result.answers.len(), 2);
    assert_eq!(
        result.env.asked_labels(),
        vec!["more?".to_string(), "which?".to_string()]
    );
}

#[test]
fn ask_resolves_a_single_prompt() {
    let env = FakeEnv::new(vec![Scripted::Flag(false)]);
    let kind = QuestionKind::One(Prompt::Confirm(confirm("sure?".to_string())));
    let qas = geenie::geenie::ask(kind, &env).unwrap();
    assert_eq!(qas.len(), 1);
    assert!(matches!(&qas[0].answer, Answer::Flag(false)));
}

#[test]
fn list_elements_register_in_order_within_one_turn() {
    let mut g = Geenie::new(FakeEnv::new(Vec::new()));
    g.push(Item::List(vec![
        file_item("one", "1"),
        Item::Command(process("echo".to_string())),
        file_item("two", "2"),
    ]));
    let result = g.run().unwrap();
    assert_eq!(result.files.len(), 2);
    assert_eq!(result.files.get(0).path, b"one".to_vec());
    assert_eq!(result.files.get(1).path, b"two".to_vec());
    assert_eq!(result.commands.len(), 1);
}
