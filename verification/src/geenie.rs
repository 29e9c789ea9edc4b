//! The engine: a depth-first, pre-order expansion of the item tree. Each
//! item's turn registers files and commands immediately and queues the
//! children it discovered; every child is then fully expanded, in order,
//! before the next root item runs. The first error aborts the whole run.

use vstd::prelude::*;

use crate::environment::Environment;
use crate::error::GeenieError;
use crate::file::File;
use crate::file::paths_distinct;
use crate::file::views_of;
use crate::item::Item;
use crate::item::emits_commands;
use crate::item::emits_commands_seq;
use crate::item::emits_files;
use crate::item::emits_files_seq;
use crate::item::first_conflict;
use crate::item::lemma_join_under_prefix;
use crate::item::lemma_react_size;
use crate::item::lemma_size_seq_element;
use crate::item::list_turn_err;
use crate::item::lemma_mf_react;
use crate::item::lemma_mf_seq_concat;
use crate::item::mf;
use crate::item::mf_seq;
use crate::item::mount_prefix;
use crate::item::prefix_files;
use crate::item::qf;
use crate::item::qf_seq;
use crate::item::reaction_size;
use crate::item::size;
use crate::item::size_seq;
use crate::item::turn_err;
use crate::item::under_prefix;
use crate::path::clone_bytes;
use crate::path::join_path;
use crate::process::Process;
use crate::question::Answer;
use crate::question::KindSlot;
use crate::question::Prompt;
use crate::question::Qa;
use crate::question::Question;
use crate::question::QuestionKind;
use crate::question::answer_fits;
use crate::question::kind_prompts;
use crate::question::log_answers;
use crate::question::log_fits;
use crate::question::react;
use crate::question::resolves;
use crate::question::spec_react;
use crate::question::views_of_answers;
use crate::file::SpecFile;
use crate::result::GeenieResult;
use crate::result::ResultBuilder;
use crate::result::has_path;
use crate::sem::full_sem;
use crate::sem::full_sem_list;
use crate::sem::lemma_full_sem_list_ext;
use crate::sem::lemma_full_sem_list_push;
use crate::sem::lemma_run_sem_push;
use crate::sem::lemma_turn_sem_ext;
use crate::sem::lemma_turn_sem_seq_ext;
use crate::sem::lemma_turn_sem_seq_push;
use crate::sem::run_sem;
use crate::sem::turn_sem;
use crate::sem::turn_sem_seq;
use crate::sem::lemma_run_sem_ext;

verus! {

/// Hands one prompt to the environment and tags its answer. A single-choice
/// or multiple-choice answer is checked against the entry list; an index out
/// of range is refused as a backend failure.
fn ask_prompt<E: Environment>(prompt: Prompt, env: &E) -> (r: Result<Qa, GeenieError>)
    ensures
        r matches Ok(qa) ==> qa.prompt == prompt && answer_fits(prompt, qa.answer@),
        r matches Err(e) ==> e is Backend,
{
    match prompt {
        Prompt::Input(q) => match env.input(&q) {
            Ok(text) => Ok(Qa { prompt: Prompt::Input(q), answer: Answer::Text(text) }),
            Err(message) => Err(GeenieError::backend(message)),
        },
        Prompt::Confirm(q) => match env.confirm(&q) {
            Ok(flag) => Ok(Qa { prompt: Prompt::Confirm(q), answer: Answer::Flag(flag) }),
            Err(message) => Err(GeenieError::backend(message)),
        },
        Prompt::Select(q) => match env.select(&q) {
            Ok(pick) => {
                if pick < q.items.len() {
                    Ok(Qa { prompt: Prompt::Select(q), answer: Answer::Choice(pick) })
                } else {
                    Err(GeenieError::backend("select: entry index out of range".to_owned()))
                }
            },
            Err(message) => Err(GeenieError::backend(message)),
        },
        Prompt::MultiSelect(q) => match env.multiselect(&q) {
            Ok(picks) => {
                let mut i: usize = 0;
                while i < picks.len()
                    invariant
                        i <= picks@.len(),
                        forall|j: int| 0 <= j < i ==> #[trigger] picks@[j] < q.items@.len(),
                    decreases picks@.len() - i,
                {
                    if picks[i] >= q.items.len() {
                        return Err(GeenieError::backend(
                            "multiselect: entry index out of range".to_owned(),
                        ));
                    }
                    i = i + 1;
                }
                let qa = Qa { prompt: Prompt::MultiSelect(q), answer: Answer::Choices(picks) };
                assert(answer_fits(qa.prompt, qa.answer@)) by {
                    let mapped = picks@.map_values(|x: usize| x as int);
                    assert(forall|j: int| 0 <= j < picks@.len() ==> #[trigger] mapped[j]
                        == picks@[j] as int);
                }
                Ok(qa)
            },
            Err(message) => Err(GeenieError::backend(message)),
        },
    }
}

/// Asks every prompt of a kind, strictly in declared order, and hands back
/// one resolved prompt per declared prompt, in that same order, each answer
/// fitting its prompt's shape. The first backend failure aborts the prompts
/// still pending and hands nothing back.
#[verifier::loop_isolation(false)]
pub fn ask<E: Environment>(kind: QuestionKind, env: &E) -> (r: Result<Vec<Qa>, GeenieError>)
    ensures
        r matches Ok(qas) ==> qas@.len() == kind_prompts(kind).len() && forall|i: int|
            0 <= i < qas@.len() ==> (#[trigger] qas@[i].prompt == kind_prompts(kind)[i]
                && answer_fits(kind_prompts(kind)[i], qas@[i].answer@)),
        r matches Err(e) ==> e is Backend,
{
    let mut prompts: Vec<Prompt> = match kind {
        QuestionKind::One(p) => {
            let mut v: Vec<Prompt> = Vec::new();
            v.push(p);
            proof {
                assert(v@ =~= kind_prompts(kind));
            }
            v
        },
        QuestionKind::Tuple(v) => v,
    };
    let ghost all = prompts@;
    let mut qas: Vec<Qa> = Vec::new();
    while prompts.len() > 0
        invariant
            qas@.len() + prompts@.len() == all.len(),
            prompts@ == all.skip(qas@.len() as int),
            forall|i: int|
                0 <= i < qas@.len() ==> (#[trigger] qas@[i].prompt == all[i] && answer_fits(
                    all[i],
                    qas@[i].answer@,
                )),
        decreases prompts@.len(),
    {
        let ghost done = qas@.len() as int;
        let p = prompts.remove(0);
        proof {
            assert(p == all[done]);
            assert(prompts@ =~= all.skip(done + 1));
        }
        let qa = match ask_prompt(p, env) {
            Ok(qa) => qa,
            Err(e) => {
                return Err(e);
            },
        };
        qas.push(qa);
    }
    proof {
        assert(all.skip(qas@.len() as int).len() == 0);
        assert(qas@.len() == all.len());
    }
    Ok(qas)
}

/// One question's turn: consume the kind, ask its prompts strictly in
/// declared order, log each resolved prompt, and queue what the reaction
/// emits for the collected answers. A kind already consumed fails with
/// `Taken`; a backend failure leaves the log and the children untouched.
#[verifier::loop_isolation(false)]
fn question_turn<E: Environment>(
    question: Question,
    kids: &mut Vec<Item>,
    log: &mut Vec<Qa>,
    env: &E,
) -> (r: Result<(), GeenieError>)
    ensures
        old(kids)@.is_prefix_of(final(kids)@),
        old(log)@.is_prefix_of(final(log)@),
        forall|i: int|
            old(kids)@.len() <= i < final(kids)@.len() ==> size(#[trigger] final(kids)@[i]) < size(
                Item::Question(question),
            ),
        r matches Err(e) ==> (e is Taken || e is Backend) && final(kids)@ == old(kids)@
            && final(log)@ == old(log)@,
        log_fits(old(log)@) ==> log_fits(final(log)@),
        question.kind is Taken ==> (r matches Err(e) && e is Taken),
        question.kind matches KindSlot::Available(k) ==> r is Ok ==> resolves(
            k,
            question.reaction,
            old(log)@,
            final(log)@,
            old(kids)@,
            final(kids)@,
        ),
{
    let Question { kind, reaction } = question;
    let mut slot = kind;
    let k = match slot.take() {
        Ok(k) => k,
        Err(e) => {
            return Err(e);
        },
    };
    let qas = match ask(k, env) {
        Ok(qas) => qas,
        Err(e) => {
            return Err(e);
        },
    };
    let mut answers: Vec<Answer> = Vec::new();
    let mut i: usize = 0;
    while i < qas.len()
        invariant
            answers@.len() == i <= qas@.len(),
            forall|j: int| 0 <= j < i ==> answers@[j]@ == #[trigger] qas@[j].answer@,
        decreases qas@.len() - i,
    {
        answers.push(qas[i].answer.clone());
        i = i + 1;
    }
    proof {
        assert(views_of_answers(answers@) =~= log_answers(qas@));
    }
    let children = react(reaction, &answers);
    proof {
        lemma_react_size(reaction, views_of_answers(answers@));
    }
    let ghost kids0 = kids@;
    let ghost log0 = log@;
    let ghost emitted = children@;
    let ghost asked = qas@;
    let mut children = children;
    let mut qas = qas;
    kids.append(&mut children);
    log.append(&mut qas);
    proof {
        assert(log@.skip(log0.len() as int) =~= log@.subrange(
            log0.len() as int,
            log@.len() as int,
        ));
        assert forall|i: int| kids0.len() <= i < kids@.len() implies size(#[trigger] kids@[i])
            < size(Item::Question(question)) by {
            lemma_size_seq_element(emitted, i - kids0.len());
            assert(size(Item::Question(question)) == 1 + reaction_size(question.reaction));
        }
        assert(resolves(k, question.reaction, log0, log@, kids0, kids@));
        if log_fits(log0) {
            assert forall|i: int|
                0 <= i < log@.len() implies answer_fits(
                #[trigger] log@[i].prompt,
                log@[i].answer@,
            ) by {
                if i < log0.len() {
                    assert(log@[i] == log0[i]);
                } else {
                    assert(log@[i] == asked[i - log0.len()]);
                }
            }
        }
    }
    Ok(())
}

/// One item's turn: its own files and commands land in the shared store at
/// once, the children it discovered are appended to `kids`. A list runs its
/// elements inline, within this same turn; a mount runs its inner item's turn
/// against a fresh, isolated store and only then re-roots what came out of it
/// under its prefix, re-wrapping discovered children so the prefix follows
/// them to every depth. For a question-free item the outcome is a function of
/// the item alone: it succeeds exactly when `turn_err` finds no duplicate,
/// and then appends exactly `emits_files` and `emits_commands`.
#[verifier::loop_isolation(false)]
fn item_turn<E: Environment>(
    item: Item,
    builder: &mut ResultBuilder,
    kids: &mut Vec<Item>,
    log: &mut Vec<Qa>,
    env: &E,
) -> (r: Result<(), GeenieError>)
    requires
        old(builder).inv(),
    ensures
        final(builder).inv(),
        old(builder).files@.is_prefix_of(final(builder).files@),
        old(builder).commands@.is_prefix_of(final(builder).commands@),
        old(kids)@.is_prefix_of(final(kids)@),
        old(log)@.is_prefix_of(final(log)@),
        forall|i: int|
            old(kids)@.len() <= i < final(kids)@.len() ==> size(#[trigger] final(kids)@[i]) < size(
                item,
            ),
        r matches Err(e) ==> (e is Duplicate || e is Backend || e is Taken),
        log_fits(old(log)@) ==> log_fits(final(log)@),
        mf(item) ==> r is Ok ==> ({
            let delta = final(log)@.skip(old(log)@.len() as int);
            let t = turn_sem(item, delta);
            &&& t.used == delta.len()
            &&& final(builder).file_views() == old(builder).file_views() + t.files
            &&& final(builder).commands@ == old(builder).commands@ + t.cmds
            &&& final(kids)@ == old(kids)@ + t.kids
            &&& mf_seq(t.kids)
        }),
        qf(item) ==> final(kids)@ == old(kids)@ && final(log)@ == old(log)@ && (match turn_err(
            old(builder).file_views(),
            item,
        ) {
            None => r is Ok && final(builder).file_views() == old(builder).file_views()
                + emits_files(item) && final(builder).commands@ == old(builder).commands@
                + emits_commands(item),
            Some(c) => r matches Err(e) && (e matches GeenieError::Duplicate { path } && path@
                == c),
        }),
        item matches Item::Question(q) ==> *final(builder) == *old(builder) && (q.kind is Taken
            ==> (r matches Err(e) && e is Taken)) && (q.kind matches KindSlot::Available(k) ==> r
            is Ok ==> resolves(k, q.reaction, old(log)@, final(log)@, old(kids)@, final(kids)@))
            && (r is Err ==> final(kids)@ == old(kids)@ && final(log)@ == old(log)@),
        item matches Item::Mount { prefix, inner } ==> (forall|i: int|
            old(builder).files@.len() <= i < final(builder).files@.len() ==> under_prefix(
                prefix@,
                #[trigger] final(builder).files@[i]@.path,
            )) && (forall|i: int|
            old(kids)@.len() <= i < final(kids)@.len() ==> (#[trigger] final(kids)@[i] matches
                Item::Mount { prefix: p, inner: _ } && p@ == prefix@)),
    decreases size(item),
{
    match item {
        Item::File(f) => {
            let ghost before = builder.file_views();
            let ghost fview = f@;
            let res = builder.push_file(f);
            proof {
                if !has_path(before, fview.path) {
                    assert(builder.file_views() =~= before + emits_files(item));
                    assert(builder.commands@ =~= old(builder).commands@ + emits_commands(item));
                    let delta = log@.skip(old(log)@.len() as int);
                    assert(delta =~= Seq::<Qa>::empty());
                    assert(builder.file_views() =~= before + turn_sem(item, delta).files);
                    assert(builder.commands@ =~= old(builder).commands@ + turn_sem(
                        item,
                        delta,
                    ).cmds);
                    assert(kids@ =~= old(kids)@ + turn_sem(item, delta).kids);
                }
            }
            res
        },
        Item::Command(c) => {
            builder.push_command(c);
            proof {
                assert(builder.file_views() =~= old(builder).file_views() + emits_files(item));
                assert(builder.commands@ =~= old(builder).commands@ + emits_commands(item));
                let delta = log@.skip(old(log)@.len() as int);
                assert(delta =~= Seq::<Qa>::empty());
                assert(builder.file_views() =~= old(builder).file_views() + turn_sem(
                    item,
                    delta,
                ).files);
                assert(builder.commands@ =~= old(builder).commands@ + turn_sem(item, delta).cmds);
                assert(kids@ =~= old(kids)@ + turn_sem(item, delta).kids);
            }
            Ok(())
        },
        Item::List(elements) => {
            let ghost all = elements@;
            let ghost seen0 = builder.file_views();
            let ghost mut done: Seq<Item> = Seq::<Item>::empty();
            let mut rest = elements;
            proof {
                assert(done + rest@ =~= all);
            }
            while rest.len() > 0
                invariant
                    builder.inv(),
                    old(builder).files@.is_prefix_of(builder.files@),
                    old(builder).commands@.is_prefix_of(builder.commands@),
                    old(kids)@.is_prefix_of(kids@),
                    old(log)@.is_prefix_of(log@),
                    log_fits(old(log)@) ==> log_fits(log@),
                    size_seq(rest@) <= size_seq(all),
                    done + rest@ == all,
                    forall|i: int|
                        old(kids)@.len() <= i < kids@.len() ==> size(#[trigger] kids@[i]) < size(
                            item,
                        ),
                    mf(item) ==> mf_seq(rest@) && ({
                        let delta = log@.skip(old(log)@.len() as int);
                        let t = turn_sem_seq(done, delta);
                        &&& t.used == delta.len()
                        &&& builder.file_views() == old(builder).file_views() + t.files
                        &&& builder.commands@ == old(builder).commands@ + t.cmds
                        &&& kids@ == old(kids)@ + t.kids
                        &&& mf_seq(t.kids)
                    }),
                    qf(item) ==> kids@ == old(kids)@ && log@ == old(log)@ && qf_seq(rest@)
                        && list_turn_err(seen0, all) == list_turn_err(
                        builder.file_views(),
                        rest@,
                    ) && seen0 + emits_files_seq(all) == builder.file_views() + emits_files_seq(
                        rest@,
                    ) && old(builder).commands@ + emits_commands_seq(all) == builder.commands@
                        + emits_commands_seq(rest@),
                decreases rest@.len(),
            {
                let ghost rest0 = rest@;
                let element = rest.remove(0);
                proof {
                    assert(rest0[0] == element);
                    assert(rest@ =~= rest0.subrange(1, rest0.len() as int));
                    assert(size(element) + size_seq(rest@) == size_seq(rest0));
                    assert(size(element) < size(item));
                }
                let ghost views_before = builder.file_views();
                let ghost cmds_before = builder.commands@;
                let ghost kids_mid = kids@;
                let ghost log_mid = log@;
                let ghost delta_mid = log@.skip(old(log)@.len() as int);
                let ghost t_mid = turn_sem_seq(done, delta_mid);
                let res = item_turn(element, builder, kids, log, env);
                proof {
                    if mf(item) && res is Ok {
                        let d2 = log@.skip(log_mid.len() as int);
                        let delta = log@.skip(old(log)@.len() as int);
                        assert(delta =~= delta_mid + d2);
                        lemma_turn_sem_seq_ext(done, delta_mid, d2);
                        assert(turn_sem_seq(done, delta) == t_mid);
                        lemma_turn_sem_seq_push(done, element, delta);
                        assert(delta.skip(t_mid.used as int) =~= d2);
                        let te = turn_sem(element, d2);
                        assert(builder.file_views() =~= old(builder).file_views() + (t_mid.files
                            + te.files));
                        assert(builder.commands@ =~= old(builder).commands@ + (t_mid.cmds
                            + te.cmds));
                        assert(kids@ =~= old(kids)@ + (t_mid.kids + te.kids));
                        lemma_mf_seq_concat(t_mid.kids, te.kids);
                        done = done.push(element);
                        assert(done + rest@ =~= all);
                    } else {
                        done = done.push(element);
                        assert(done + rest@ =~= all);
                    }
                }
                proof {
                    assert forall|i: int|
                        old(kids)@.len() <= i < kids@.len() implies size(#[trigger] kids@[i])
                        < size(item) by {
                        if i < kids_mid.len() {
                            assert(kids_mid == kids@.subrange(0, kids_mid.len() as int));
                            assert(kids@[i] == kids_mid[i]);
                            assert(size(kids_mid[i]) < size(item));
                        } else {
                            assert(size(kids@[i]) < size(element));
                        }
                    }
                }
                match res {
                    Ok(()) => {
                        proof {
                            if qf(item) {
                                assert(turn_err(views_before, element) is None);
                                assert(builder.file_views() == views_before + emits_files(
                                    element,
                                ));
                                assert(seen0 + emits_files_seq(all) =~= builder.file_views()
                                    + emits_files_seq(rest@));
                                assert(old(builder).commands@ + emits_commands_seq(all)
                                    =~= builder.commands@ + emits_commands_seq(rest@));
                            }
                        }
                    },
                    Err(e) => {
                        proof {
                            if qf(item) {
                                assert(turn_err(views_before, element) is Some);
                                assert(list_turn_err(views_before, rest0) == turn_err(
                                    views_before,
                                    element,
                                ));
                            }
                        }
                        return Err(e);
                    },
                }
            }
            proof {
                if qf(item) {
                    assert(list_turn_err(builder.file_views(), rest@) is None);
                    assert(emits_files_seq(rest@) == Seq::<SpecFile>::empty());
                    assert(seen0 + emits_files_seq(all) =~= builder.file_views());
                    assert(builder.file_views() =~= seen0 + emits_files(item));
                    assert(old(builder).commands@ + emits_commands_seq(all) =~= builder.commands@);
                    assert(builder.commands@ =~= old(builder).commands@ + emits_commands(item));
                }
                if mf(item) {
                    assert(done =~= all);
                    let delta = log@.skip(old(log)@.len() as int);
                    assert(turn_sem(item, delta) == turn_sem_seq(all, delta));
                }
            }
            Ok(())
        },
        Item::Question(q) => {
            let res = question_turn(q, kids, log, env);
            proof {
                if mf(item) && res is Ok {
                    let delta = log@.skip(old(log)@.len() as int);
                    if q.kind is Available {
                        let k = q.kind->Available_0;
                        let n = kind_prompts(k).len();
                        assert(delta.len() == n);
                        assert(delta.take(n as int) =~= delta);
                        assert(kids@ == old(kids)@ + spec_react(q.reaction, log_answers(delta)));
                        lemma_mf_react(q.reaction, log_answers(delta.take(n as int)));
                    } else {
                        assert(false);
                    }
                }
            }
            res
        },
        Item::Mount { prefix, inner } => {
            let inner_item = *inner;
            let ghost inner_size = size(inner_item);
            let mut inner_builder = ResultBuilder::new();
            let mut inner_kids: Vec<Item> = Vec::new();
            proof {
                assert(inner_builder.file_views() =~= Seq::<SpecFile>::empty());
                assert(inner_builder.inv());
            }
            let res = item_turn(inner_item, &mut inner_builder, &mut inner_kids, log, env);
            match res {
                Ok(()) => {},
                Err(e) => {
                    proof {
                        if qf(item) {
                            assert(turn_err(Seq::<SpecFile>::empty(), inner_item) is Some);
                        }
                    }
                    return Err(e);
                },
            }
            let ResultBuilder { files: inner_files, commands: inner_commands } = inner_builder;
            let ghost inner_views = views_of(inner_files@);
            let ghost mapped = prefix_files(prefix@, inner_views);
            let ghost seen0 = builder.file_views();
            proof {
                if qf(item) {
                    assert(inner_views == Seq::<SpecFile>::empty() + emits_files(inner_item));
                    assert(inner_views =~= emits_files(inner_item));
                    assert(mapped == emits_files(item));
                    assert(turn_err(seen0, item) == first_conflict(seen0, mapped));
                }
            }
            let mut inner_files = inner_files;
            while inner_files.len() > 0
                invariant
                    builder.inv(),
                    old(builder).files@.is_prefix_of(builder.files@),
                    builder.commands@ == old(builder).commands@,
                    forall|i: int|
                        old(builder).files@.len() <= i < builder.files@.len() ==> under_prefix(
                            prefix@,
                            #[trigger] builder.files@[i]@.path,
                        ),
                    first_conflict(seen0, mapped) == first_conflict(
                        builder.file_views(),
                        prefix_files(prefix@, views_of(inner_files@)),
                    ),
                    seen0 + mapped == builder.file_views() + prefix_files(
                        prefix@,
                        views_of(inner_files@),
                    ),
                decreases inner_files@.len(),
            {
                let ghost files0 = inner_files@;
                let ghost remaining = prefix_files(prefix@, views_of(files0));
                let f = inner_files.remove(0);
                let File { path: raw_path, content } = f;
                let joined = join_path(&prefix, &raw_path);
                let prefixed = File { path: joined, content };
                proof {
                    assert(views_of(files0)[0] == f@);
                    assert(remaining[0] == prefixed@);
                    assert(prefix_files(prefix@, views_of(inner_files@)) =~= remaining.subrange(
                        1,
                        remaining.len() as int,
                    ));
                    lemma_join_under_prefix(prefix@, raw_path@);
                }
                let ghost views_before = builder.file_views();
                let res = builder.push_file(prefixed);
                match res {
                    Ok(()) => {
                        proof {
                            assert(builder.file_views() =~= views_before.push(prefixed@));
                            assert(seen0 + mapped =~= builder.file_views() + prefix_files(
                                prefix@,
                                views_of(inner_files@),
                            ));
                        }
                    },
                    Err(e) => {
                        proof {
                            assert(first_conflict(views_before, remaining) == Some(
                                prefixed@.path,
                            ));
                        }
                        return Err(e);
                    },
                }
            }
            proof {
                assert(prefix_files(prefix@, views_of(inner_files@)) =~= Seq::<
                    SpecFile,
                >::empty());
                assert(first_conflict(builder.file_views(), Seq::<SpecFile>::empty()) is None);
                assert(seen0 + mapped =~= builder.file_views());
            }
            let ghost files_done = builder.files@;
            let mut inner_commands = inner_commands;
            let ghost forwarded = inner_commands@;
            let ghost cmds0 = builder.commands@;
            while inner_commands.len() > 0
                invariant
                    builder.inv(),
                    builder.files@ == files_done,
                    cmds0 + forwarded == builder.commands@ + inner_commands@,
                decreases inner_commands@.len(),
            {
                let ghost cs0 = inner_commands@;
                let c = inner_commands.remove(0);
                builder.push_command(c);
                proof {
                    assert(inner_commands@ =~= cs0.subrange(1, cs0.len() as int));
                    assert(cmds0 + forwarded =~= builder.commands@ + inner_commands@);
                }
            }
            proof {
                assert(builder.commands@ =~= cmds0 + forwarded);
                if qf(item) {
                    assert(forwarded == Seq::<Process>::empty() + emits_commands(inner_item));
                    assert(forwarded =~= emits_commands(item));
                }
            }
            let mut inner_kids = inner_kids;
            while inner_kids.len() > 0
                invariant
                    forall|i: int|
                        0 <= i < inner_kids@.len() ==> size(#[trigger] inner_kids@[i])
                            < inner_size,
                    old(kids)@.is_prefix_of(kids@),
                    forall|i: int|
                        old(kids)@.len() <= i < kids@.len() ==> size(#[trigger] kids@[i]) < size(
                            item,
                        ),
                    forall|i: int|
                        old(kids)@.len() <= i < kids@.len() ==> (#[trigger] kids@[i] matches
                            Item::Mount { prefix: p, inner: _ } && p@ == prefix@),
                    qf(item) ==> inner_kids@.len() == 0 && kids@ == old(kids)@,
                decreases inner_kids@.len(),
            {
                let ghost ks0 = inner_kids@;
                let child = inner_kids.remove(0);
                proof {
                    assert(ks0[0] == child);
                    assert(inner_kids@ =~= ks0.subrange(1, ks0.len() as int));
                }
                let wrapped = Item::Mount { prefix: clone_bytes(&prefix), inner: Box::new(child) };
                kids.push(wrapped);
            }
            Ok(())
        },
    }
}

/// Fully expands one item, depth first: its own turn runs first, then every
/// child it discovered is fully expanded, in discovery order, before control
/// returns. The first error aborts the expansion.
#[verifier::loop_isolation(false)]
fn process_item<E: Environment>(
    item: Item,
    builder: &mut ResultBuilder,
    log: &mut Vec<Qa>,
    env: &E,
) -> (r: Result<(), GeenieError>)
    requires
        old(builder).inv(),
    ensures
        final(builder).inv(),
        old(builder).files@.is_prefix_of(final(builder).files@),
        old(builder).commands@.is_prefix_of(final(builder).commands@),
        old(log)@.is_prefix_of(final(log)@),
        r matches Err(e) ==> (e is Duplicate || e is Backend || e is Taken),
        log_fits(old(log)@) ==> log_fits(final(log)@),
        mf(item) ==> r is Ok ==> ({
            let delta = final(log)@.skip(old(log)@.len() as int);
            let f = full_sem(item, delta);
            &&& f.used == delta.len()
            &&& final(builder).file_views() == old(builder).file_views() + f.files
            &&& final(builder).commands@ == old(builder).commands@ + f.cmds
        }),
        qf(item) ==> final(log)@ == old(log)@ && (match turn_err(old(builder).file_views(), item) {
            None => r is Ok && final(builder).file_views() == old(builder).file_views()
                + emits_files(item) && final(builder).commands@ == old(builder).commands@
                + emits_commands(item),
            Some(c) => r matches Err(e) && (e matches GeenieError::Duplicate { path } && path@
                == c),
        }),
        item matches Item::Mount { prefix, inner: _ } ==> forall|i: int|
            old(builder).files@.len() <= i < final(builder).files@.len() ==> under_prefix(
                prefix@,
                #[trigger] final(builder).files@[i]@.path,
            ),
    decreases size(item),
{
    let ghost item_size = size(item);
    let mut kids: Vec<Item> = Vec::new();
    let res = item_turn(item, builder, &mut kids, log, env);
    match res {
        Ok(()) => {},
        Err(e) => {
            return Err(e);
        },
    }
    let ghost views_turn = builder.file_views();
    let ghost cmds_turn = builder.commands@;
    let ghost log_turn = log@;
    let ghost d1 = log@.skip(old(log)@.len() as int);
    let ghost t = turn_sem(item, d1);
    let ghost mut done: Seq<Item> = Seq::<Item>::empty();
    proof {
        if mf(item) {
            assert(done + kids@ =~= t.kids);
        }
    }
    while kids.len() > 0
        invariant
            builder.inv(),
            old(builder).files@.is_prefix_of(builder.files@),
            old(builder).commands@.is_prefix_of(builder.commands@),
            old(log)@.is_prefix_of(log@),
            log_fits(old(log)@) ==> log_fits(log@),
            forall|i: int| 0 <= i < kids@.len() ==> size(#[trigger] kids@[i]) < item_size,
            mf(item) ==> mf_seq(kids@) && done + kids@ == t.kids && log_turn.is_prefix_of(log@)
                && (forall|i: int|
                0 <= i < done.len() ==> size(#[trigger] done[i]) < item_size) && ({
                let d2 = log@.skip(log_turn.len() as int);
                let fl = full_sem_list(item_size, done, d2);
                &&& fl.used == d2.len()
                &&& builder.file_views() == views_turn + fl.files
                &&& builder.commands@ == cmds_turn + fl.cmds
            }),
            qf(item) ==> kids@.len() == 0 && log@ == log_turn && builder.file_views() == views_turn
                && builder.commands@ == cmds_turn,
            item matches Item::Mount { prefix, inner: _ } ==> (forall|i: int|
                old(builder).files@.len() <= i < builder.files@.len() ==> under_prefix(
                    prefix@,
                    #[trigger] builder.files@[i]@.path,
                )) && (forall|i: int|
                0 <= i < kids@.len() ==> (#[trigger] kids@[i] matches Item::Mount {
                    prefix: p,
                    inner: _,
                } && p@ == prefix@)),
        decreases kids@.len(),
    {
        let ghost ks0 = kids@;
        let child = kids.remove(0);
        proof {
            assert(ks0[0] == child);
            assert(kids@ =~= ks0.subrange(1, ks0.len() as int));
        }
        let ghost files_mid = builder.files@;
        let ghost log_mid = log@;
        let ghost d2_mid = log@.skip(log_turn.len() as int);
        let ghost fl_mid = full_sem_list(item_size, done, d2_mid);
        let res = process_item(child, builder, log, env);
        proof {
            if item is Mount {
                let pre = mount_prefix(item);
                assert forall|i: int|
                    old(builder).files@.len() <= i < builder.files@.len() implies under_prefix(
                    pre,
                    #[trigger] builder.files@[i]@.path,
                ) by {
                    if i < files_mid.len() {
                        assert(files_mid == builder.files@.subrange(0, files_mid.len() as int));
                        assert(builder.files@[i] == files_mid[i]);
                    } else {
                        assert(child matches Item::Mount { prefix: p, inner: _ } && p@ == pre);
                        assert(under_prefix(pre, builder.files@[i]@.path));
                    }
                }
            }
            if mf(item) && res is Ok {
                let d3 = log@.skip(log_mid.len() as int);
                let d2 = log@.skip(log_turn.len() as int);
                assert(d2 =~= d2_mid + d3);
                lemma_full_sem_list_ext(item_size, done, d2_mid, d3);
                assert(full_sem_list(item_size, done, d2) == fl_mid);
                assert(mf(child));
                assert(size(child) < item_size);
                lemma_full_sem_list_push(item_size, done, child, d2);
                assert(d2.skip(fl_mid.used as int) =~= d3);
                let fc = full_sem(child, d3);
                assert(builder.file_views() =~= views_turn + (fl_mid.files + fc.files));
                assert(builder.commands@ =~= cmds_turn + (fl_mid.cmds + fc.cmds));
                done = done.push(child);
                assert(done + kids@ =~= t.kids);
            } else {
                done = done.push(child);
            }
        }
        match res {
            Ok(()) => {},
            Err(e) => {
                return Err(e);
            },
        }
    }
    proof {
        if mf(item) {
            assert(done =~= t.kids);
            let delta = log@.skip(old(log)@.len() as int);
            let d2 = log@.skip(log_turn.len() as int);
            assert(delta =~= d1 + d2);
            lemma_turn_sem_ext(item, d1, d2);
            assert(turn_sem(item, delta) == t);
            assert(delta.skip(t.used as int) =~= d2);
            let f = full_sem(item, delta);
            assert(f.files == t.files + full_sem_list(item_size, t.kids, d2).files);
            assert(builder.file_views() =~= old(builder).file_views() + f.files);
            assert(builder.commands@ =~= old(builder).commands@ + f.cmds);
        }
    }
    Ok(())
}

/// The engine: an environment handle plus the root items to expand. Pushed
/// items keep their order; `run` consumes the engine and expands each root
/// fully, depth first, before the next one starts.
pub struct Geenie<E> {
    /// The interactive backend the run is driven by.
    pub env: E,
    /// The root items, in the order pushed.
    pub items: Vec<Item>,
}

impl<E: Environment + Default> Default for Geenie<E> {
    /// An engine over the environment's default value, with no items yet.
    fn default() -> (g: Geenie<E>)
        ensures
            g.items@ == Seq::<Item>::empty(),
    {
        Geenie { env: E::default(), items: Vec::new() }
    }
}

impl<E: Environment> Geenie<E> {
    /// An engine over the given environment, with no items yet.
    pub fn new(env: E) -> (g: Geenie<E>)
        ensures
            g.env == env,
            g.items@ == Seq::<Item>::empty(),
    {
        Geenie { env, items: Vec::new() }
    }

    /// Queues one item behind those already pushed.
    pub fn push(&mut self, item: Item)
        ensures
            final(self).env == old(self).env,
            final(self).items@ == old(self).items@.push(item),
    {
        self.items.push(item);
    }

    /// Queues one command, as an item of its own.
    pub fn command(&mut self, command: Process)
        ensures
            final(self).env == old(self).env,
            final(self).items@ == old(self).items@.push(Item::Command(command)),
    {
        self.items.push(Item::Command(command));
    }

    /// Queues one file, as an item of its own. Registration, and with it the
    /// duplicate check, happens when the run reaches it; queueing itself
    /// always succeeds.
    pub fn file(&mut self, file: File) -> (r: Result<(), GeenieError>)
        ensures
            r is Ok,
            final(self).env == old(self).env,
            final(self).items@ == old(self).items@.push(Item::File(file)),
    {
        self.items.push(Item::File(file));
        Ok(())
    }

    /// Re-injects a whole engine into a tree: an item whose turn runs every
    /// pushed item inline, in order, against the enclosing run's store. The
    /// engine's own environment handle is given back alongside.
    pub fn into_item(self) -> (out: (Item, E))
        ensures
            out.0 == Item::List(self.items),
            out.1 == self.env,
    {
        let Geenie { env, items } = self;
        (Item::List(items), env)
    }

    /// Expands the whole tree, depth first and in order, and builds the
    /// artifact. The first error — a duplicate path anywhere in the expanded
    /// tree, a backend failure, a question kind asked twice — aborts the run.
    ///
    /// On success the artifact's paths are pairwise distinct and every
    /// logged answer fits its prompt. For a question-free tree the outcome
    /// is exact: the run succeeds if and only if the scan `list_turn_err`
    /// finds no duplicate, the files are then exactly `emits_files_seq` of
    /// the roots, in order, the commands exactly `emits_commands_seq`, and
    /// nothing was asked; a duplicate aborts the run with exactly the first
    /// conflicting path. For a mount-free tree the outcome is exact relative
    /// to the answers: a successful run's files and commands are exactly
    /// `run_sem` of the roots and of the recorded log, which the run
    /// consumed in full. And a run whose single root is a mount leaves every
    /// file under that mount's prefix.
    #[verifier::loop_isolation(false)]
    pub fn run(self) -> (r: Result<GeenieResult<E>, GeenieError>)
        ensures
            r matches Ok(result) ==> paths_distinct(views_of(result.files.files@)) && log_fits(
                result.answers@,
            ),
            r matches Err(e) ==> (e is Duplicate || e is Backend || e is Taken),
            qf_seq(self.items@) ==> match list_turn_err(Seq::<SpecFile>::empty(), self.items@) {
                None => r matches Ok(result) && views_of(result.files.files@) == emits_files_seq(
                    self.items@,
                ) && result.commands.commands@ == emits_commands_seq(self.items@)
                    && result.answers@ == Seq::<Qa>::empty(),
                Some(c) => r matches Err(e) && (e matches GeenieError::Duplicate { path } && path@
                    == c),
            },
            self.items@.len() == 1 ==> (self.items@[0] matches Item::Mount { prefix, inner: _ }
                ==> (r matches Ok(result) ==> forall|i: int|
                0 <= i < result.files.files@.len() ==> under_prefix(
                    prefix@,
                    #[trigger] result.files.files@[i]@.path,
                ))),
            mf_seq(self.items@) ==> (r matches Ok(result) ==> ({
                let s = run_sem(self.items@, result.answers@);
                &&& s.used == result.answers@.len()
                &&& views_of(result.files.files@) == s.files
                &&& result.commands.commands@ == s.cmds
            })),
    {
        let Geenie { env, items } = self;
        let ghost all = items@;
        let mut builder = ResultBuilder::new();
        let mut log: Vec<Qa> = Vec::new();
        proof {
            assert(builder.file_views() =~= Seq::<SpecFile>::empty());
            assert(builder.inv());
        }
        let ghost mut done: Seq<Item> = Seq::<Item>::empty();
        let mut rest = items;
        proof {
            assert(done + rest@ =~= all);
        }
        while rest.len() > 0
            invariant
                builder.inv(),
                log_fits(log@),
                done + rest@ == all,
                mf_seq(all) ==> mf_seq(rest@) && ({
                    let rs = run_sem(done, log@);
                    &&& rs.used == log@.len()
                    &&& builder.file_views() == rs.files
                    &&& builder.commands@ == rs.cmds
                }),
                (all.len() == 1 && all[0] is Mount) ==> (rest@.len() == 0 || rest@ == all) && (
                match all[0] {
                    Item::Mount { prefix, inner: _ } => forall|i: int|
                        0 <= i < builder.files@.len() ==> under_prefix(
                            prefix@,
                            #[trigger] builder.files@[i]@.path,
                        ),
                    _ => true,
                }),
                qf_seq(all) ==> log@.len() == 0 && qf_seq(rest@) && list_turn_err(
                    Seq::<SpecFile>::empty(),
                    all,
                ) == list_turn_err(builder.file_views(), rest@) && Seq::<SpecFile>::empty()
                    + emits_files_seq(all) == builder.file_views() + emits_files_seq(rest@)
                    && Seq::<Process>::empty() + emits_commands_seq(all) == builder.commands@
                    + emits_commands_seq(rest@),
            decreases rest@.len(),
        {
            let ghost rest0 = rest@;
            let item = rest.remove(0);
            proof {
                assert(rest0[0] == item);
                assert(rest@ =~= rest0.subrange(1, rest0.len() as int));
            }
            let ghost views_before = builder.file_views();
            let ghost files_before = builder.files@;
            let ghost log_before = log@;
            let ghost rs_before = run_sem(done, log@);
            let res = process_item(item, &mut builder, &mut log, &env);
            proof {
                if mf_seq(all) && res is Ok {
                    let d3 = log@.skip(log_before.len() as int);
                    assert(log@ =~= log_before + d3);
                    lemma_run_sem_ext(done, log_before, d3);
                    assert(run_sem(done, log@) == rs_before);
                    assert(mf(item));
                    lemma_run_sem_push(done, item, log@);
                    assert(log@.skip(rs_before.used as int) =~= d3);
                    let fc = full_sem(item, d3);
                    assert(builder.file_views() =~= rs_before.files + fc.files);
                    assert(builder.commands@ =~= rs_before.cmds + fc.cmds);
                    done = done.push(item);
                    assert(done + rest@ =~= all);
                } else {
                    done = done.push(item);
                    assert(done + rest@ =~= all);
                }
                if all.len() == 1 && all[0] is Mount {
                    let pre = mount_prefix(all[0]);
                    assert(item == all[0]);
                    assert forall|i: int| 0 <= i < builder.files@.len() implies under_prefix(
                        pre,
                        #[trigger] builder.files@[i]@.path,
                    ) by {
                        if i < files_before.len() {
                            assert(files_before == builder.files@.subrange(
                                0,
                                files_before.len() as int,
                            ));
                            assert(builder.files@[i] == files_before[i]);
                        }
                    }
                }
            }
            match res {
                Ok(()) => {
                    proof {
                        if qf_seq(all) {
                            assert(turn_err(views_before, item) is None);
                            assert(Seq::<SpecFile>::empty() + emits_files_seq(all)
                                =~= builder.file_views() + emits_files_seq(rest@));
                            assert(Seq::<Process>::empty() + emits_commands_seq(all)
                                =~= builder.commands@ + emits_commands_seq(rest@));
                        }
                    }
                },
                Err(e) => {
                    proof {
                        if qf_seq(all) {
                            assert(turn_err(views_before, item) is Some);
                            assert(list_turn_err(views_before, rest0) == turn_err(
                                views_before,
                                item,
                            ));
                        }
                    }
                    return Err(e);
                },
            }
        }
        proof {
            if qf_seq(all) {
                assert(list_turn_err(builder.file_views(), rest@) is None);
                assert(emits_files_seq(rest@) == Seq::<SpecFile>::empty());
                assert(Seq::<SpecFile>::empty() + emits_files_seq(all) =~= builder.file_views());
                assert(builder.file_views() =~= emits_files_seq(all));
                assert(Seq::<Process>::empty() + emits_commands_seq(all) =~= builder.commands@);
            }
            if mf_seq(all) {
                assert(done =~= all);
            }
        }
        Ok(builder.build(env, log))
    }
}

} // verus!
