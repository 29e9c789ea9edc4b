//! The answer-relative semantics of a run. A tree with questions is not a
//! function of the tree alone; it is a function of the tree and of the
//! answers the backend returned. These functions say, for a given resolved
//! log, exactly which files and commands a turn and a full expansion
//! produce and how many log entries they consume. [`crate::geenie::Geenie::run`]
//! holds every successful run over a mount-free tree to them; for trees with
//! mounts the question-free theorem and the per-turn contracts apply instead.

use vstd::prelude::*;

use crate::file::SpecFile;
use crate::item::Item;
use crate::item::prefix_files;
use crate::item::size;
use crate::process::Process;
use crate::question::KindSlot;
use crate::question::Qa;
use crate::question::kind_prompts;
use crate::question::log_answers;
use crate::question::spec_react;

verus! {

/// What one turn produces, given the log entries resolved during it: the
/// files registered, the commands queued, the children discovered, and how
/// many log entries the turn consumed.
pub struct TurnSem {
    pub files: Seq<SpecFile>,
    pub cmds: Seq<Process>,
    pub kids: Seq<Item>,
    pub used: nat,
}

/// The turn that produces nothing and consumes nothing.
pub open spec fn turn_done() -> TurnSem {
    TurnSem {
        files: Seq::<SpecFile>::empty(),
        cmds: Seq::<Process>::empty(),
        kids: Seq::<Item>::empty(),
        used: 0,
    }
}

/// One item's turn, given the log entries resolved during it. A list runs
/// its elements inline, threading the log through them in order; a question
/// consumes one entry per declared prompt and emits what its reaction makes
/// of those answers; a mount re-roots its inner turn's files and re-wraps
/// its children. A consumed question kind is given the empty turn here: the
/// engine aborts on it, so no successful run reaches that value.
pub open spec fn turn_sem(item: Item, qas: Seq<Qa>) -> TurnSem
    decreases item,
{
    match item {
        Item::File(f) => TurnSem {
            files: seq![f@],
            cmds: Seq::<Process>::empty(),
            kids: Seq::<Item>::empty(),
            used: 0,
        },
        Item::Command(c) => TurnSem {
            files: Seq::<SpecFile>::empty(),
            cmds: seq![c],
            kids: Seq::<Item>::empty(),
            used: 0,
        },
        Item::List(elements) => turn_sem_seq(elements@, qas),
        Item::Question(q) => match q.kind {
            KindSlot::Available(k) => {
                let n = kind_prompts(k).len();
                TurnSem {
                    files: Seq::<SpecFile>::empty(),
                    cmds: Seq::<Process>::empty(),
                    kids: spec_react(q.reaction, log_answers(qas.take(n as int))),
                    used: n,
                }
            },
            KindSlot::Taken => turn_done(),
        },
        Item::Mount { prefix, inner } => {
            let s = turn_sem(*inner, qas);
            TurnSem {
                files: prefix_files(prefix@, s.files),
                cmds: s.cmds,
                kids: s.kids.map_values(
                    |k: Item| Item::Mount { prefix: prefix, inner: Box::new(k) },
                ),
                used: s.used,
            }
        },
    }
}

/// The turns of a sequence of items, run in order within one enclosing
/// turn, each one reading the log where its predecessors left off.
pub open spec fn turn_sem_seq(items: Seq<Item>, qas: Seq<Qa>) -> TurnSem
    decreases items,
{
    if items.len() == 0 {
        turn_done()
    } else {
        let head = turn_sem(items[0], qas);
        let tail = turn_sem_seq(
            items.subrange(1, items.len() as int),
            qas.skip(head.used as int),
        );
        TurnSem {
            files: head.files + tail.files,
            cmds: head.cmds + tail.cmds,
            kids: head.kids + tail.kids,
            used: head.used + tail.used,
        }
    }
}

/// What a full, depth-first expansion produces, given the log entries
/// resolved during it.
pub struct FullSem {
    pub files: Seq<SpecFile>,
    pub cmds: Seq<Process>,
    pub used: nat,
}

/// The expansion that produces nothing and consumes nothing.
pub open spec fn full_done() -> FullSem {
    FullSem { files: Seq::<SpecFile>::empty(), cmds: Seq::<Process>::empty(), used: 0 }
}

/// One item, fully expanded: its own turn first, then each discovered child
/// fully expanded in discovery order, the log threaded through in that same
/// order.
pub open spec fn full_sem(item: Item, qas: Seq<Qa>) -> FullSem
    decreases size(item), 1int, 0int,
{
    let t = turn_sem(item, qas);
    let rest = full_sem_list(size(item), t.kids, qas.skip(t.used as int));
    FullSem {
        files: t.files + rest.files,
        cmds: t.cmds + rest.cmds,
        used: t.used + rest.used,
    }
}

/// A list of pending children, each fully expanded in order. The bound
/// carries the enclosing item's size, under which every discovered child
/// stays; a child at or above the bound would be one no turn discovers, and
/// expands to nothing.
pub open spec fn full_sem_list(bound: nat, items: Seq<Item>, qas: Seq<Qa>) -> FullSem
    decreases bound, 0int, items.len(),
{
    if items.len() == 0 {
        full_done()
    } else if size(items[0]) < bound {
        let head = full_sem(items[0], qas);
        let tail = full_sem_list(
            bound,
            items.subrange(1, items.len() as int),
            qas.skip(head.used as int),
        );
        FullSem {
            files: head.files + tail.files,
            cmds: head.cmds + tail.cmds,
            used: head.used + tail.used,
        }
    } else {
        full_done()
    }
}

/// A whole run: each root item fully expanded, in order, before the next
/// root starts, the log threaded through in that same order.
pub open spec fn run_sem(items: Seq<Item>, qas: Seq<Qa>) -> FullSem
    decreases items.len(),
{
    if items.len() == 0 {
        full_done()
    } else {
        let head = full_sem(items[0], qas);
        let tail = run_sem(items.subrange(1, items.len() as int), qas.skip(head.used as int));
        FullSem {
            files: head.files + tail.files,
            cmds: head.cmds + tail.cmds,
            used: head.used + tail.used,
        }
    }
}

/// Dropping after a concatenation's first half drops within that half.
proof fn lemma_skip_concat(a: Seq<Qa>, b: Seq<Qa>, n: int)
    requires
        0 <= n <= a.len(),
    ensures
        (a + b).skip(n) == a.skip(n) + b,
{
    assert((a + b).skip(n) =~= a.skip(n) + b);
}

/// Two drops in a row drop their sum.
proof fn lemma_skip_skip(qas: Seq<Qa>, a: int, b: int)
    requires
        0 <= a,
        0 <= b,
        a + b <= qas.len(),
    ensures
        qas.skip(a).skip(b) == qas.skip(a + b),
{
    assert(qas.skip(a).skip(b) =~= qas.skip(a + b));
}

/// A turn that consumed no more log than it was given is unchanged by
/// whatever the log later grew by.
pub proof fn lemma_turn_sem_ext(item: Item, qas: Seq<Qa>, more: Seq<Qa>)
    requires
        turn_sem(item, qas).used <= qas.len(),
    ensures
        turn_sem(item, qas + more) == turn_sem(item, qas),
    decreases item,
{
    match item {
        Item::File(_) => {},
        Item::Command(_) => {},
        Item::List(elements) => {
            lemma_turn_sem_seq_ext(elements@, qas, more);
        },
        Item::Question(q) => match q.kind {
            KindSlot::Available(k) => {
                let n = kind_prompts(k).len();
                assert((qas + more).take(n as int) =~= qas.take(n as int));
            },
            KindSlot::Taken => {},
        },
        Item::Mount { prefix: _, inner } => {
            lemma_turn_sem_ext(*inner, qas, more);
        },
    }
}

/// The sequence form of [`lemma_turn_sem_ext`].
pub proof fn lemma_turn_sem_seq_ext(items: Seq<Item>, qas: Seq<Qa>, more: Seq<Qa>)
    requires
        turn_sem_seq(items, qas).used <= qas.len(),
    ensures
        turn_sem_seq(items, qas + more) == turn_sem_seq(items, qas),
    decreases items,
{
    if items.len() == 0 {
    } else {
        let head = turn_sem(items[0], qas);
        let tail_items = items.subrange(1, items.len() as int);
        assert(head.used <= qas.len());
        lemma_turn_sem_ext(items[0], qas, more);
        lemma_skip_concat(qas, more, head.used as int);
        lemma_turn_sem_seq_ext(tail_items, qas.skip(head.used as int), more);
    }
}

/// One more element behind a sequence of turns runs its own turn where the
/// sequence's turns left off in the log.
pub proof fn lemma_turn_sem_seq_push(items: Seq<Item>, item: Item, qas: Seq<Qa>)
    requires
        turn_sem_seq(items, qas).used <= qas.len(),
    ensures
        ({
            let a = turn_sem_seq(items, qas);
            let b = turn_sem(item, qas.skip(a.used as int));
            turn_sem_seq(items.push(item), qas) == (TurnSem {
                files: a.files + b.files,
                cmds: a.cmds + b.cmds,
                kids: a.kids + b.kids,
                used: a.used + b.used,
            })
        }),
    decreases items.len(),
{
    let s = items.push(item);
    let a = turn_sem_seq(items, qas);
    let b = turn_sem(item, qas.skip(a.used as int));
    if items.len() == 0 {
        assert(s.subrange(1, s.len() as int) =~= Seq::<Item>::empty());
        assert(s[0] == item);
        assert(qas.skip(0) =~= qas);
        assert(a == turn_done());
        assert(b == turn_sem(item, qas));
        let h = turn_sem(item, qas);
        assert(turn_sem_seq(s.subrange(1, s.len() as int), qas.skip(h.used as int))
            == turn_done());
        assert(turn_sem_seq(s, qas).files =~= a.files + b.files);
        assert(turn_sem_seq(s, qas).cmds =~= a.cmds + b.cmds);
        assert(turn_sem_seq(s, qas).kids =~= a.kids + b.kids);
    } else {
        let head = turn_sem(items[0], qas);
        let tail_items = items.subrange(1, items.len() as int);
        let rest = qas.skip(head.used as int);
        let at = turn_sem_seq(tail_items, rest);
        assert(head.used <= qas.len());
        assert(s[0] == items[0]);
        assert(s.subrange(1, s.len() as int) =~= tail_items.push(item));
        lemma_turn_sem_seq_push(tail_items, item, rest);
        lemma_skip_skip(qas, head.used as int, at.used as int);
        let bt = turn_sem(item, rest.skip(at.used as int));
        assert(rest.skip(at.used as int) == qas.skip(a.used as int));
        assert(bt == b);
        assert(turn_sem_seq(s, qas).files =~= a.files + b.files);
        assert(turn_sem_seq(s, qas).cmds =~= a.cmds + b.cmds);
        assert(turn_sem_seq(s, qas).kids =~= a.kids + b.kids);
        assert(turn_sem_seq(s, qas).used == a.used + b.used);
    }
}

/// A full expansion that consumed no more log than it was given is
/// unchanged by whatever the log later grew by.
pub proof fn lemma_full_sem_ext(item: Item, qas: Seq<Qa>, more: Seq<Qa>)
    requires
        full_sem(item, qas).used <= qas.len(),
    ensures
        full_sem(item, qas + more) == full_sem(item, qas),
    decreases size(item), 1int, 0int,
{
    let t = turn_sem(item, qas);
    assert(t.used <= qas.len());
    lemma_turn_sem_ext(item, qas, more);
    lemma_skip_concat(qas, more, t.used as int);
    lemma_full_sem_list_ext(size(item), t.kids, qas.skip(t.used as int), more);
}

/// The list form of [`lemma_full_sem_ext`].
pub proof fn lemma_full_sem_list_ext(bound: nat, items: Seq<Item>, qas: Seq<Qa>, more: Seq<Qa>)
    requires
        full_sem_list(bound, items, qas).used <= qas.len(),
    ensures
        full_sem_list(bound, items, qas + more) == full_sem_list(bound, items, qas),
    decreases bound, 0int, items.len(),
{
    if items.len() == 0 {
    } else if size(items[0]) < bound {
        let head = full_sem(items[0], qas);
        let tail_items = items.subrange(1, items.len() as int);
        assert(head.used <= qas.len());
        lemma_full_sem_ext(items[0], qas, more);
        lemma_skip_concat(qas, more, head.used as int);
        lemma_full_sem_list_ext(bound, tail_items, qas.skip(head.used as int), more);
    } else {
    }
}

/// One more pending child behind a list of expansions reads the log where
/// the list left off.
pub proof fn lemma_full_sem_list_push(bound: nat, items: Seq<Item>, item: Item, qas: Seq<Qa>)
    requires
        full_sem_list(bound, items, qas).used <= qas.len(),
        forall|i: int| 0 <= i < items.len() ==> size(#[trigger] items[i]) < bound,
        size(item) < bound,
    ensures
        ({
            let a = full_sem_list(bound, items, qas);
            let b = full_sem(item, qas.skip(a.used as int));
            full_sem_list(bound, items.push(item), qas) == (FullSem {
                files: a.files + b.files,
                cmds: a.cmds + b.cmds,
                used: a.used + b.used,
            })
        }),
    decreases items.len(),
{
    let s = items.push(item);
    let a = full_sem_list(bound, items, qas);
    let b = full_sem(item, qas.skip(a.used as int));
    if items.len() == 0 {
        assert(s.subrange(1, s.len() as int) =~= Seq::<Item>::empty());
        assert(s[0] == item);
        assert(qas.skip(0) =~= qas);
        assert(a == full_done());
        assert(b == full_sem(item, qas));
        let h = full_sem(item, qas);
        assert(full_sem_list(bound, s.subrange(1, s.len() as int), qas.skip(h.used as int))
            == full_done());
        assert(full_sem_list(bound, s, qas).files =~= a.files + b.files);
        assert(full_sem_list(bound, s, qas).cmds =~= a.cmds + b.cmds);
    } else {
        let head = full_sem(items[0], qas);
        let tail_items = items.subrange(1, items.len() as int);
        let rest = qas.skip(head.used as int);
        let at = full_sem_list(bound, tail_items, rest);
        assert(head.used <= qas.len());
        assert(s[0] == items[0]);
        assert(s.subrange(1, s.len() as int) =~= tail_items.push(item));
        assert(forall|i: int|
            0 <= i < tail_items.len() ==> size(#[trigger] tail_items[i]) < bound);
        lemma_full_sem_list_push(bound, tail_items, item, rest);
        lemma_skip_skip(qas, head.used as int, at.used as int);
        assert(rest.skip(at.used as int) == qas.skip(a.used as int));
        assert(full_sem_list(bound, s, qas).files =~= a.files + b.files);
        assert(full_sem_list(bound, s, qas).cmds =~= a.cmds + b.cmds);
        assert(full_sem_list(bound, s, qas).used == a.used + b.used);
    }
}

/// A run that consumed no more log than it was given is unchanged by
/// whatever the log later grew by.
pub proof fn lemma_run_sem_ext(items: Seq<Item>, qas: Seq<Qa>, more: Seq<Qa>)
    requires
        run_sem(items, qas).used <= qas.len(),
    ensures
        run_sem(items, qas + more) == run_sem(items, qas),
    decreases items.len(),
{
    if items.len() == 0 {
    } else {
        let head = full_sem(items[0], qas);
        let tail_items = items.subrange(1, items.len() as int);
        assert(head.used <= qas.len());
        lemma_full_sem_ext(items[0], qas, more);
        lemma_skip_concat(qas, more, head.used as int);
        lemma_run_sem_ext(tail_items, qas.skip(head.used as int), more);
    }
}

/// One more root behind a run reads the log where the run left off.
pub proof fn lemma_run_sem_push(items: Seq<Item>, item: Item, qas: Seq<Qa>)
    requires
        run_sem(items, qas).used <= qas.len(),
    ensures
        ({
            let a = run_sem(items, qas);
            let b = full_sem(item, qas.skip(a.used as int));
            run_sem(items.push(item), qas) == (FullSem {
                files: a.files + b.files,
                cmds: a.cmds + b.cmds,
                used: a.used + b.used,
            })
        }),
    decreases items.len(),
{
    let s = items.push(item);
    let a = run_sem(items, qas);
    let b = full_sem(item, qas.skip(a.used as int));
    if items.len() == 0 {
        assert(s.subrange(1, s.len() as int) =~= Seq::<Item>::empty());
        assert(s[0] == item);
        assert(qas.skip(0) =~= qas);
        assert(a == full_done());
        assert(b == full_sem(item, qas));
        let h = full_sem(item, qas);
        assert(run_sem(s.subrange(1, s.len() as int), qas.skip(h.used as int)) == full_done());
        assert(run_sem(s, qas).files =~= a.files + b.files);
        assert(run_sem(s, qas).cmds =~= a.cmds + b.cmds);
    } else {
        let head = full_sem(items[0], qas);
        let tail_items = items.subrange(1, items.len() as int);
        let rest = qas.skip(head.used as int);
        let at = run_sem(tail_items, rest);
        assert(head.used <= qas.len());
        assert(s[0] == items[0]);
        assert(s.subrange(1, s.len() as int) =~= tail_items.push(item));
        lemma_run_sem_push(tail_items, item, rest);
        lemma_skip_skip(qas, head.used as int, at.used as int);
        assert(rest.skip(at.used as int) == qas.skip(a.used as int));
        assert(run_sem(s, qas).files =~= a.files + b.files);
        assert(run_sem(s, qas).cmds =~= a.cmds + b.cmds);
        assert(run_sem(s, qas).used == a.used + b.used);
    }
}

} // verus!
