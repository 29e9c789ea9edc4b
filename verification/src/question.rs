//! The typed question/answer combinator: a one-shot prompt specification
//! (single or an ordered tuple), the tagged answers an environment returns,
//! and the data-driven continuation that turns the answers into further
//! items. A kind is consumed exactly once; asking it again is an error, not
//! a crash.

use vstd::prelude::*;

use crate::error::GeenieError;
use crate::item::Item;
use crate::questions::Confirm;
use crate::questions::Input;
use crate::questions::MultiSelect;
use crate::questions::Select;

verus! {

/// One primitive prompt, of any of the four shapes.
pub enum Prompt {
    Input(Input),
    Confirm(Confirm),
    Select(Select),
    MultiSelect(MultiSelect),
}

/// The answer an environment returned for one prompt: text for an input, a
/// flag for a confirmation, an entry index for a single choice, entry indices
/// for a multiple choice.
pub enum Answer {
    Text(String),
    Flag(bool),
    Choice(usize),
    Choices(Vec<usize>),
}

/// The mathematical value of an [`Answer`].
pub enum AnswerV {
    Text(Seq<char>),
    Flag(bool),
    Choice(int),
    Choices(Seq<int>),
}

impl View for Answer {
    type V = AnswerV;

    open spec fn view(&self) -> AnswerV {
        match self {
            Answer::Text(s) => AnswerV::Text(s@),
            Answer::Flag(b) => AnswerV::Flag(*b),
            Answer::Choice(i) => AnswerV::Choice(*i as int),
            Answer::Choices(v) => AnswerV::Choices(v@.map_values(|x: usize| x as int)),
        }
    }
}

impl Clone for Answer {
    fn clone(&self) -> (copy: Answer)
        ensures
            copy@ == self@,
    {
        match self {
            Answer::Text(s) => Answer::Text(s.clone()),
            Answer::Flag(b) => Answer::Flag(*b),
            Answer::Choice(i) => Answer::Choice(*i),
            Answer::Choices(v) => Answer::Choices(clone_indices(v)),
        }
    }
}

/// Copies a list of entry indices.
fn clone_indices(indices: &Vec<usize>) -> (copy: Vec<usize>)
    ensures
        copy@ == indices@,
{
    let mut copy: Vec<usize> = Vec::new();
    let mut i: usize = 0;
    while i < indices.len()
        invariant
            i <= indices.len(),
            copy@ == indices@.take(i as int),
        decreases indices.len() - i,
    {
        copy.push(indices[i]);
        i = i + 1;
    }
    proof {
        assert(indices@.take(indices@.len() as int) == indices@);
    }
    copy
}

/// The views of a list of answers.
pub open spec fn views_of_answers(answers: Seq<Answer>) -> Seq<AnswerV> {
    answers.map_values(|a: Answer| a@)
}

/// A one-shot prompt specification: one prompt, or a fixed, ordered tuple of
/// prompts asked strictly in sequence, their answers collected in the same
/// order.
pub enum QuestionKind {
    One(Prompt),
    Tuple(Vec<Prompt>),
}

/// The prompts a kind asks, in declared order.
pub open spec fn kind_prompts(kind: QuestionKind) -> Seq<Prompt> {
    match kind {
        QuestionKind::One(p) => seq![p],
        QuestionKind::Tuple(v) => v@,
    }
}

/// The two states of a one-shot kind: still available, or already consumed.
/// Taking an available kind consumes it; taking it again is a typed error.
pub enum KindSlot {
    Available(QuestionKind),
    Taken,
}

impl KindSlot {
    /// Consumes the kind. The first take returns it and leaves the slot
    /// `Taken`; any later take fails with [`GeenieError::Taken`].
    pub fn take(&mut self) -> (r: Result<QuestionKind, GeenieError>)
        ensures
            *final(self) is Taken,
            *old(self) matches KindSlot::Available(kind) ==> r matches Ok(k) && k == kind,
            *old(self) is Taken ==> (r matches Err(e) && e is Taken),
    {
        let mut slot = KindSlot::Taken;
        core::mem::swap(self, &mut slot);
        match slot {
            KindSlot::Available(kind) => Ok(kind),
            KindSlot::Taken => Err(GeenieError::Taken),
        }
    }
}

/// What a question does with its answers: emit a fixed list of child items,
/// branch on a confirmation flag, or pick an arm by a choice index. The
/// `slot` names the position of the deciding answer among the kind's prompts.
pub enum Reaction {
    /// Emit these items, whatever was answered.
    Children(Vec<Item>),
    /// Emit `on_true` or `on_false`, by the flag answered at `slot`.
    IfFlag { slot: usize, on_true: Vec<Item>, on_false: Vec<Item> },
    /// Emit the arm picked by the choice answered at `slot`; an index past
    /// the arms emits nothing.
    ByChoice { slot: usize, arms: Vec<Vec<Item>> },
}

/// The items a reaction emits for the given answers. A reaction whose slot
/// is out of range or answered with the wrong shape emits nothing.
pub open spec fn spec_react(reaction: Reaction, answers: Seq<AnswerV>) -> Seq<Item> {
    match reaction {
        Reaction::Children(items) => items@,
        Reaction::IfFlag { slot, on_true, on_false } => {
            if slot < answers.len() {
                match answers[slot as int] {
                    AnswerV::Flag(b) => if b {
                        on_true@
                    } else {
                        on_false@
                    },
                    _ => Seq::<Item>::empty(),
                }
            } else {
                Seq::<Item>::empty()
            }
        },
        Reaction::ByChoice { slot, arms } => {
            if slot < answers.len() {
                match answers[slot as int] {
                    AnswerV::Choice(i) => if 0 <= i < arms@.len() {
                        arms@[i]@
                    } else {
                        Seq::<Item>::empty()
                    },
                    _ => Seq::<Item>::empty(),
                }
            } else {
                Seq::<Item>::empty()
            }
        },
    }
}

/// Applies a reaction to the answers collected for its question.
pub fn react(reaction: Reaction, answers: &Vec<Answer>) -> (children: Vec<Item>)
    ensures
        children@ == spec_react(reaction, views_of_answers(answers@)),
{
    match reaction {
        Reaction::Children(items) => items,
        Reaction::IfFlag { slot, on_true, on_false } => {
            if slot < answers.len() {
                match &answers[slot] {
                    Answer::Flag(b) => if *b {
                        on_true
                    } else {
                        on_false
                    },
                    _ => Vec::new(),
                }
            } else {
                Vec::new()
            }
        },
        Reaction::ByChoice { slot, arms } => {
            if slot < answers.len() {
                match &answers[slot] {
                    Answer::Choice(i) => {
                        let picked: usize = *i;
                        let mut arms = arms;
                        if picked < arms.len() {
                            arms.swap_remove(picked)
                        } else {
                            Vec::new()
                        }
                    },
                    _ => Vec::new(),
                }
            } else {
                Vec::new()
            }
        },
    }
}

/// Whether `answer` has the shape owed for `prompt`: text for an input, a
/// flag for a confirmation, an in-range entry index for a single choice,
/// in-range entry indices for a multiple choice.
pub open spec fn answer_fits(prompt: Prompt, answer: AnswerV) -> bool {
    match prompt {
        Prompt::Input(_) => answer is Text,
        Prompt::Confirm(_) => answer is Flag,
        Prompt::Select(s) => answer matches AnswerV::Choice(i) && 0 <= i < s.items@.len(),
        Prompt::MultiSelect(m) => answer matches AnswerV::Choices(v) && forall|j: int|
            0 <= j < v.len() ==> 0 <= #[trigger] v[j] < m.items@.len(),
    }
}

/// A question item: a one-shot kind plus the reaction that receives the
/// answers, in the order the prompts were declared.
pub struct Question {
    /// The prompt specification, consumed the first time it is asked.
    pub kind: KindSlot,
    /// What to emit once the answers are in.
    pub reaction: Reaction,
}

impl QuestionKind {
    /// Pairs this kind with a reaction, making a question item.
    pub fn question(self, reaction: Reaction) -> (q: Question)
        ensures
            q.kind == KindSlot::Available(self),
            q.reaction == reaction,
    {
        Question { kind: KindSlot::Available(self), reaction }
    }
}

/// One resolved prompt in a run's log: the prompt as asked and the answer
/// the environment returned.
pub struct Qa {
    /// The prompt, as handed to the environment.
    pub prompt: Prompt,
    /// The answer the environment returned.
    pub answer: Answer,
}

/// The answer views of a slice of the log.
pub open spec fn log_answers(entries: Seq<Qa>) -> Seq<AnswerV> {
    entries.map_values(|qa: Qa| qa.answer@)
}

/// A log is consistent when every recorded answer fits the prompt it was
/// recorded for: text for inputs, flags for confirmations, in-range entry
/// indices for choices.
pub open spec fn log_fits(entries: Seq<Qa>) -> bool {
    forall|i: int|
        0 <= i < entries.len() ==> answer_fits(#[trigger] entries[i].prompt, entries[i].answer@)
}

/// What one resolved question did to the log and the pending children: the
/// log grew by exactly the kind's prompts, asked in declared order, each
/// answer fitting its prompt; and the children grew by exactly what the
/// reaction emits for those answers, in the same order they were collected.
pub open spec fn resolves(
    kind: QuestionKind,
    reaction: Reaction,
    old_log: Seq<Qa>,
    new_log: Seq<Qa>,
    old_kids: Seq<Item>,
    new_kids: Seq<Item>,
) -> bool {
    let prompts = kind_prompts(kind);
    let delta = new_log.skip(old_log.len() as int);
    &&& new_log.len() == old_log.len() + prompts.len()
    &&& old_log.is_prefix_of(new_log)
    &&& forall|i: int|
        0 <= i < prompts.len() ==> (#[trigger] delta[i].prompt == prompts[i] && answer_fits(
            prompts[i],
            delta[i].answer@,
        ))
    &&& new_kids == old_kids + spec_react(reaction, log_answers(delta))
}

} // verus!
