//! The closed tree of generator items: literal files, literal commands,
//! composite lists, questions, and the mount wrapper that re-roots a whole
//! sub-tree under a path prefix. The size measure bounds the engine's
//! recursion.

use vstd::prelude::*;

use crate::file::File;
use crate::file::SpecFile;
use crate::path::SEPARATOR;
use crate::path::spec_join;
use crate::process::Process;
use crate::question::Question;
use crate::question::Reaction;
use crate::file::paths_distinct;
use crate::question::spec_react;
use crate::question::AnswerV;
use crate::result::has_path;

verus! {

/// One node of the generation tree. An item is consumed exactly once, during
/// its own turn: it registers files and commands and discovers child items.
pub enum Item {
    /// Registers one file.
    File(File),
    /// Enqueues one command.
    Command(Process),
    /// Runs each element in order, within the same turn.
    List(Vec<Item>),
    /// Asks its prompts and reacts to the answers.
    Question(Question),
    /// Runs `inner` in isolation and re-roots everything it produces, at
    /// every depth, under `prefix`.
    Mount { prefix: Vec<u8>, inner: Box<Item> },
}

impl Item {
    /// Wraps this item so that its whole output lands under `prefix`.
    pub fn mount(self, prefix: Vec<u8>) -> (wrapped: Item)
        ensures
            wrapped matches Item::Mount { prefix: p, inner } && p == prefix && *inner == self,
    {
        Item::Mount { prefix, inner: Box::new(self) }
    }
}

/// The size of an item tree: one for the node itself plus the sizes of every
/// item nested in it, including those waiting inside reactions.
pub open spec fn size(item: Item) -> nat
    decreases item,
{
    match item {
        Item::File(_) => 1,
        Item::Command(_) => 1,
        Item::List(elements) => 1 + size_seq(elements@),
        Item::Question(q) => 1 + reaction_size(q.reaction),
        Item::Mount { prefix: _, inner } => 1 + size(*inner),
    }
}

/// The summed size of a sequence of items.
pub open spec fn size_seq(items: Seq<Item>) -> nat
    decreases items,
{
    if items.len() == 0 {
        0
    } else {
        size(items[0]) + size_seq(items.subrange(1, items.len() as int))
    }
}

/// The summed size of the items a reaction can emit.
pub open spec fn reaction_size(reaction: Reaction) -> nat
    decreases reaction,
{
    match reaction {
        Reaction::Children(items) => size_seq(items@),
        Reaction::IfFlag { slot: _, on_true, on_false } => size_seq(on_true@) + size_seq(
            on_false@,
        ),
        Reaction::ByChoice { slot: _, arms } => arms_size(arms@),
    }
}

/// The summed size of a sequence of reaction arms.
pub open spec fn arms_size(arms: Seq<Vec<Item>>) -> nat
    decreases arms,
{
    if arms.len() == 0 {
        0
    } else {
        size_seq(arms[0]@) + arms_size(arms.subrange(1, arms.len() as int))
    }
}

/// An element of a sequence weighs no more than the whole sequence.
pub proof fn lemma_size_seq_element(items: Seq<Item>, i: int)
    requires
        0 <= i < items.len(),
    ensures
        size(items[i]) <= size_seq(items),
    decreases items.len(),
{
    if i == 0 {
    } else {
        lemma_size_seq_element(items.subrange(1, items.len() as int), i - 1);
        assert(items.subrange(1, items.len() as int)[i - 1] == items[i]);
    }
}

/// An arm weighs no more than the whole list of arms.
pub proof fn lemma_arms_size_element(arms: Seq<Vec<Item>>, i: int)
    requires
        0 <= i < arms.len(),
    ensures
        size_seq(arms[i]@) <= arms_size(arms),
    decreases arms.len(),
{
    if i == 0 {
    } else {
        lemma_arms_size_element(arms.subrange(1, arms.len() as int), i - 1);
        assert(arms.subrange(1, arms.len() as int)[i - 1] == arms[i]);
    }
}

/// Whatever was answered, a reaction emits no more than the items it holds.
pub proof fn lemma_react_size(reaction: Reaction, answers: Seq<AnswerV>)
    ensures
        size_seq(spec_react(reaction, answers)) <= reaction_size(reaction),
{
    match reaction {
        Reaction::Children(_) => {},
        Reaction::IfFlag { .. } => {},
        Reaction::ByChoice { slot, arms } => {
            if slot < answers.len() {
                match answers[slot as int] {
                    AnswerV::Choice(i) => {
                        if 0 <= i < arms@.len() {
                            lemma_arms_size_element(arms@, i);
                        }
                    },
                    _ => {},
                }
            }
        },
    }
}

/// Whether the tree below `item` holds no question: such a tree's whole
/// output is a function of the tree alone.
pub open spec fn qf(item: Item) -> bool
    decreases item,
{
    match item {
        Item::File(_) => true,
        Item::Command(_) => true,
        Item::List(elements) => qf_seq(elements@),
        Item::Question(_) => false,
        Item::Mount { prefix: _, inner } => qf(*inner),
    }
}

/// Whether every item of the sequence is question-free.
pub open spec fn qf_seq(items: Seq<Item>) -> bool
    decreases items,
{
    if items.len() == 0 {
        true
    } else {
        qf(items[0]) && qf_seq(items.subrange(1, items.len() as int))
    }
}

/// Whether the tree below `item` holds no mount, reactions included: such a
/// tree's expansion never re-roots a path.
pub open spec fn mf(item: Item) -> bool
    decreases item,
{
    match item {
        Item::File(_) => true,
        Item::Command(_) => true,
        Item::List(elements) => mf_seq(elements@),
        Item::Question(q) => mf_reaction(q.reaction),
        Item::Mount { .. } => false,
    }
}

/// Whether every item of the sequence is mount-free.
pub open spec fn mf_seq(items: Seq<Item>) -> bool
    decreases items,
{
    if items.len() == 0 {
        true
    } else {
        mf(items[0]) && mf_seq(items.subrange(1, items.len() as int))
    }
}

/// Whether every item a reaction can emit is mount-free.
pub open spec fn mf_reaction(reaction: Reaction) -> bool
    decreases reaction,
{
    match reaction {
        Reaction::Children(items) => mf_seq(items@),
        Reaction::IfFlag { slot: _, on_true, on_false } => mf_seq(on_true@) && mf_seq(on_false@),
        Reaction::ByChoice { slot: _, arms } => mf_arms(arms@),
    }
}

/// Whether every arm of a reaction is mount-free.
pub open spec fn mf_arms(arms: Seq<Vec<Item>>) -> bool
    decreases arms,
{
    if arms.len() == 0 {
        true
    } else {
        mf_seq(arms[0]@) && mf_arms(arms.subrange(1, arms.len() as int))
    }
}

/// An arm of a mount-free reaction is mount-free.
pub proof fn lemma_mf_arms_element(arms: Seq<Vec<Item>>, i: int)
    requires
        mf_arms(arms),
        0 <= i < arms.len(),
    ensures
        mf_seq(arms[i]@),
    decreases arms.len(),
{
    if i == 0 {
    } else {
        lemma_mf_arms_element(arms.subrange(1, arms.len() as int), i - 1);
        assert(arms.subrange(1, arms.len() as int)[i - 1] == arms[i]);
    }
}

/// A concatenation is mount-free exactly when both halves are.
pub proof fn lemma_mf_seq_concat(a: Seq<Item>, b: Seq<Item>)
    ensures
        mf_seq(a + b) == (mf_seq(a) && mf_seq(b)),
    decreases a.len(),
{
    if a.len() == 0 {
        assert(a + b =~= b);
    } else {
        assert((a + b)[0] == a[0]);
        assert((a + b).subrange(1, (a + b).len() as int) =~= a.subrange(1, a.len() as int) + b);
        lemma_mf_seq_concat(a.subrange(1, a.len() as int), b);
    }
}

/// A mount-free reaction emits only mount-free items, whatever was answered.
pub proof fn lemma_mf_react(reaction: Reaction, answers: Seq<AnswerV>)
    requires
        mf_reaction(reaction),
    ensures
        mf_seq(spec_react(reaction, answers)),
{
    match reaction {
        Reaction::Children(_) => {},
        Reaction::IfFlag { .. } => {},
        Reaction::ByChoice { slot, arms } => {
            if slot < answers.len() {
                match answers[slot as int] {
                    AnswerV::Choice(i) => {
                        if 0 <= i < arms@.len() {
                            lemma_mf_arms_element(arms@, i);
                        }
                    },
                    _ => {},
                }
            }
        },
    }
}

/// Re-roots every file of the sequence under `prefix`.
pub open spec fn prefix_files(prefix: Seq<u8>, files: Seq<SpecFile>) -> Seq<SpecFile> {
    files.map_values(
        |f: SpecFile| SpecFile { path: spec_join(prefix, f.path), content: f.content },
    )
}

/// The files a question-free item emits, in registration order, with every
/// mount prefix already applied.
pub open spec fn emits_files(item: Item) -> Seq<SpecFile>
    decreases item,
{
    match item {
        Item::File(f) => seq![f@],
        Item::Command(_) => Seq::<SpecFile>::empty(),
        Item::List(elements) => emits_files_seq(elements@),
        Item::Question(_) => Seq::<SpecFile>::empty(),
        Item::Mount { prefix, inner } => prefix_files(prefix@, emits_files(*inner)),
    }
}

/// The files a question-free sequence of items emits, in order.
pub open spec fn emits_files_seq(items: Seq<Item>) -> Seq<SpecFile>
    decreases items,
{
    if items.len() == 0 {
        Seq::<SpecFile>::empty()
    } else {
        emits_files(items[0]) + emits_files_seq(items.subrange(1, items.len() as int))
    }
}

/// The commands a question-free item queues, in registration order; mounts
/// forward them unchanged.
pub open spec fn emits_commands(item: Item) -> Seq<Process>
    decreases item,
{
    match item {
        Item::File(_) => Seq::<Process>::empty(),
        Item::Command(c) => seq![c],
        Item::List(elements) => emits_commands_seq(elements@),
        Item::Question(_) => Seq::<Process>::empty(),
        Item::Mount { prefix: _, inner } => emits_commands(*inner),
    }
}

/// The commands a question-free sequence of items queues, in order.
pub open spec fn emits_commands_seq(items: Seq<Item>) -> Seq<Process>
    decreases items,
{
    if items.len() == 0 {
        Seq::<Process>::empty()
    } else {
        emits_commands(items[0]) + emits_commands_seq(items.subrange(1, items.len() as int))
    }
}

/// Scans `files` in order against the already-registered `seen`: the path of
/// the first file that repeats a path, or `None` when all are fresh.
pub open spec fn first_conflict(seen: Seq<SpecFile>, files: Seq<SpecFile>) -> Option<Seq<u8>>
    decreases files,
{
    if files.len() == 0 {
        None
    } else if has_path(seen, files[0].path) {
        Some(files[0].path)
    } else {
        first_conflict(seen.push(files[0]), files.subrange(1, files.len() as int))
    }
}

/// The duplicate a question-free item's turn runs into, given the files
/// already registered: the path carried by the `Duplicate` error, or `None`
/// when the whole turn succeeds. A mount checks its inner turn against a
/// fresh store first, so a duplicate inside the mounted tree is reported
/// under its local, un-prefixed path, exactly as the engine raises it.
pub open spec fn turn_err(seen: Seq<SpecFile>, item: Item) -> Option<Seq<u8>>
    decreases item,
{
    match item {
        Item::File(f) => if has_path(seen, f@.path) {
            Some(f@.path)
        } else {
            None
        },
        Item::Command(_) => None,
        Item::List(elements) => list_turn_err(seen, elements@),
        Item::Question(_) => None,
        Item::Mount { prefix, inner } => match turn_err(Seq::<SpecFile>::empty(), *inner) {
            Some(c) => Some(c),
            None => first_conflict(seen, prefix_files(prefix@, emits_files(*inner))),
        },
    }
}

/// The duplicate a question-free sequence of items runs into, processed in
/// order with the registered files accumulating.
pub open spec fn list_turn_err(seen: Seq<SpecFile>, items: Seq<Item>) -> Option<Seq<u8>>
    decreases items,
{
    if items.len() == 0 {
        None
    } else {
        match turn_err(seen, items[0]) {
            Some(c) => Some(c),
            None => list_turn_err(
                seen + emits_files(items[0]),
                items.subrange(1, items.len() as int),
            ),
        }
    }
}

/// The prefix of a mount item, and the empty prefix for every other item.
pub open spec fn mount_prefix(item: Item) -> Seq<u8> {
    match item {
        Item::Mount { prefix, inner: _ } => prefix@,
        _ => Seq::<u8>::empty(),
    }
}

/// Whether `path` lies under `prefix`: it begins with the prefix followed by
/// the separator. An empty prefix puts every path under it.
pub open spec fn under_prefix(prefix: Seq<u8>, path: Seq<u8>) -> bool {
    prefix.len() == 0 || (path.len() > prefix.len() && path.subrange(0, prefix.len() as int)
        == prefix && path[prefix.len() as int] == SEPARATOR)
}

/// A joined path lies under its prefix.
pub proof fn lemma_join_under_prefix(prefix: Seq<u8>, child: Seq<u8>)
    ensures
        under_prefix(prefix, spec_join(prefix, child)),
{
    if prefix.len() > 0 {
        assert(spec_join(prefix, child).subrange(0, prefix.len() as int) =~= prefix);
    }
}

/// Splitting a push: one more item behind a sequence emits the sequence's
/// files and commands followed by its own, and a push keeps being
/// question-free.
pub proof fn lemma_emits_push(items: Seq<Item>, item: Item)
    ensures
        emits_files_seq(items.push(item)) == emits_files_seq(items) + emits_files(item),
        emits_commands_seq(items.push(item)) == emits_commands_seq(items) + emits_commands(item),
        qf_seq(items.push(item)) == (qf_seq(items) && qf(item)),
    decreases items.len(),
{
    let s = items.push(item);
    if items.len() == 0 {
        assert(s.subrange(1, s.len() as int) =~= Seq::<Item>::empty());
        assert(s[0] == item);
        assert(emits_files_seq(s.subrange(1, s.len() as int)) == Seq::<SpecFile>::empty());
        assert(emits_commands_seq(s.subrange(1, s.len() as int)) == Seq::<Process>::empty());
        assert(qf_seq(s.subrange(1, s.len() as int)));
        assert(emits_files_seq(s) =~= emits_files_seq(items) + emits_files(item));
        assert(emits_commands_seq(s) =~= emits_commands_seq(items) + emits_commands(item));
    } else {
        let tail = items.subrange(1, items.len() as int);
        assert(s.subrange(1, s.len() as int) =~= tail.push(item));
        lemma_emits_push(tail, item);
        assert(s[0] == items[0]);
        assert(emits_files_seq(s) =~= emits_files_seq(items) + emits_files(item));
        assert(emits_commands_seq(s) =~= emits_commands_seq(items) + emits_commands(item));
    }
}

impl crate::file::FileList {
    /// Re-injects the list into a tree: an item whose turn registers exactly
    /// these files, in order, and nothing else.
    pub fn into_item(self) -> (item: Item)
        ensures
            qf(item),
            emits_files(item) == crate::file::views_of(self.files@),
            emits_commands(item) == Seq::<Process>::empty(),
    {
        let ghost all = self.files@;
        let mut rest = self.files;
        let mut built: Vec<Item> = Vec::new();
        proof {
            assert(emits_files_seq(built@) + crate::file::views_of(rest@) =~= crate::file::views_of(
                all,
            ));
        }
        while rest.len() > 0
            invariant
                qf_seq(built@),
                emits_files_seq(built@) + crate::file::views_of(rest@) == crate::file::views_of(
                    all,
                ),
                emits_commands_seq(built@) == Seq::<Process>::empty(),
            decreases rest@.len(),
        {
            let ghost rest0 = rest@;
            let ghost built0 = built@;
            let f = rest.remove(0);
            let ghost fview = f@;
            built.push(Item::File(f));
            proof {
                lemma_emits_push(built0, Item::File(f));
                assert(crate::file::views_of(rest0)[0] == fview);
                assert(crate::file::views_of(rest@) =~= crate::file::views_of(rest0).subrange(
                    1,
                    rest0.len() as int,
                ));
                assert(emits_files_seq(built@) + crate::file::views_of(rest@)
                    =~= crate::file::views_of(all));
                assert(emits_commands_seq(built@) =~= Seq::<Process>::empty());
            }
        }
        proof {
            assert(crate::file::views_of(rest@) =~= Seq::<SpecFile>::empty());
            assert(emits_files_seq(built@) =~= crate::file::views_of(all));
        }
        Item::List(built)
    }
}

impl crate::process::CommandList {
    /// Re-injects the queue into a tree: an item whose turn queues exactly
    /// these commands, in order, and registers no file.
    pub fn into_item(self) -> (item: Item)
        ensures
            qf(item),
            emits_files(item) == Seq::<SpecFile>::empty(),
            emits_commands(item) == self.commands@,
    {
        let ghost all = self.commands@;
        let mut rest = self.commands;
        let mut built: Vec<Item> = Vec::new();
        while rest.len() > 0
            invariant
                qf_seq(built@),
                emits_commands_seq(built@) + rest@ == all,
                emits_files_seq(built@) == Seq::<SpecFile>::empty(),
            decreases rest@.len(),
        {
            let ghost rest0 = rest@;
            let ghost built0 = built@;
            let c = rest.remove(0);
            let ghost cval = c;
            built.push(Item::Command(c));
            proof {
                lemma_emits_push(built0, Item::Command(cval));
                assert(rest@ =~= rest0.subrange(1, rest0.len() as int));
                assert(emits_commands_seq(built@) + rest@ =~= all);
                assert(emits_files_seq(built@) =~= Seq::<SpecFile>::empty());
            }
        }
        proof {
            assert(emits_commands_seq(built@) =~= all);
        }
        Item::List(built)
    }
}

impl<E> crate::result::GeenieResult<E> {
    /// Re-injects the whole artifact into a tree: an item whose turn
    /// registers exactly the artifact's files and queues exactly its
    /// commands, in their original order. The environment handle is given
    /// back alongside.
    pub fn into_item(self) -> (out: (Item, E))
        ensures
            qf(out.0),
            emits_files(out.0) == crate::file::views_of(self.files.files@),
            emits_commands(out.0) == self.commands.commands@,
    {
        let crate::result::GeenieResult { env, files, commands, answers: _ } = self;
        let file_item = files.into_item();
        let command_item = commands.into_item();
        let ghost fitem = file_item;
        let ghost citem = command_item;
        let mut both: Vec<Item> = Vec::new();
        both.push(file_item);
        both.push(command_item);
        proof {
            let one = Seq::<Item>::empty().push(fitem);
            lemma_emits_push(Seq::<Item>::empty(), fitem);
            lemma_emits_push(one, citem);
            assert(both@ =~= one.push(citem));
            assert(emits_files_seq(both@) =~= emits_files(fitem));
            assert(emits_commands_seq(both@) =~= emits_commands(citem));
        }
        (Item::List(both), env)
    }
}

/// A mount changes paths and nothing else: it keeps the number and order of
/// the files and each content, re-roots every path by the prefix join, and
/// no re-rooted path escapes the prefix.
pub proof fn lemma_mount_reroots(prefix: Seq<u8>, files: Seq<SpecFile>)
    ensures
        prefix_files(prefix, files).len() == files.len(),
        forall|i: int|
            0 <= i < files.len() ==> #[trigger] prefix_files(prefix, files)[i].path == spec_join(
                prefix,
                files[i].path,
            ) && prefix_files(prefix, files)[i].content == files[i].content && under_prefix(
                prefix,
                prefix_files(prefix, files)[i].path,
            ),
{
    assert forall|i: int| 0 <= i < files.len() implies #[trigger] prefix_files(prefix, files)[i].path
        == spec_join(prefix, files[i].path) && prefix_files(prefix, files)[i].content
        == files[i].content && under_prefix(prefix, prefix_files(prefix, files)[i].path) by {
        lemma_join_under_prefix(prefix, files[i].path);
    }
}

/// Nesting mounts joins prefixes outer to inner: re-rooting under `inner`
/// and then under `outer` re-roots once under `outer` joined with `inner`.
pub proof fn lemma_mount_nesting(outer: Seq<u8>, inner: Seq<u8>, files: Seq<SpecFile>)
    requires
        inner.len() > 0,
    ensures
        prefix_files(outer, prefix_files(inner, files)) == prefix_files(
            spec_join(outer, inner),
            files,
        ),
{
    assert forall|i: int|
        0 <= i < files.len() implies #[trigger] prefix_files(outer, prefix_files(inner, files))[i]
        == prefix_files(spec_join(outer, inner), files)[i] by {
        crate::path::lemma_join_assoc(outer, inner, files[i].path);
    }
    assert(prefix_files(outer, prefix_files(inner, files)) =~= prefix_files(
        spec_join(outer, inner),
        files,
    ));
}

/// Pushing one file onto the already-seen store adds exactly its path to
/// what `has_path` finds.
pub proof fn lemma_has_path_push(seen: Seq<SpecFile>, f: SpecFile, path: Seq<u8>)
    ensures
        has_path(seen.push(f), path) <==> (has_path(seen, path) || f.path == path),
{
    if has_path(seen.push(f), path) {
        let i = choose|i: int| 0 <= i < seen.push(f).len() && seen.push(f)[i].path == path;
        if i < seen.len() {
            assert(seen[i] == seen.push(f)[i]);
            assert(has_path(seen, path));
        } else {
            assert(seen.push(f)[i] == f);
        }
    }
    if has_path(seen, path) {
        let i = choose|i: int| 0 <= i < seen.len() && seen[i].path == path;
        assert(seen.push(f)[i] == seen[i]);
        assert(has_path(seen.push(f), path));
    }
    if f.path == path {
        assert(seen.push(f)[seen.len() as int] == f);
        assert(has_path(seen.push(f), path));
    }
}

/// A path is found in a concatenation exactly when either half holds it.
pub proof fn lemma_has_path_concat(a: Seq<SpecFile>, b: Seq<SpecFile>, path: Seq<u8>)
    ensures
        has_path(a + b, path) <==> (has_path(a, path) || has_path(b, path)),
{
    if has_path(a + b, path) {
        let i = choose|i: int| 0 <= i < (a + b).len() && (a + b)[i].path == path;
        if i < a.len() {
            assert(a[i] == (a + b)[i]);
            assert(has_path(a, path));
        } else {
            assert(b[i - a.len()] == (a + b)[i]);
            assert(has_path(b, path));
        }
    }
    if has_path(a, path) {
        let i = choose|i: int| 0 <= i < a.len() && a[i].path == path;
        assert((a + b)[i] == a[i]);
        assert(has_path(a + b, path));
    }
    if has_path(b, path) {
        let i = choose|i: int| 0 <= i < b.len() && b[i].path == path;
        assert((a + b)[a.len() + i] == b[i]);
        assert(has_path(a + b, path));
    }
}

/// Distinctness splits over a concatenation: both halves distinct, and no
/// path of the first half reappears in the second.
pub proof fn lemma_distinct_concat(a: Seq<SpecFile>, b: Seq<SpecFile>)
    ensures
        paths_distinct(a + b) <==> (paths_distinct(a) && paths_distinct(b) && forall|j: int|
            0 <= j < b.len() ==> !has_path(a, #[trigger] b[j].path)),
{
    let s = a + b;
    if paths_distinct(s) {
        assert forall|i: int, j: int| 0 <= i < j < a.len() implies #[trigger] a[i].path
            != #[trigger] a[j].path by {
            assert(s[i] == a[i] && s[j] == a[j]);
        }
        assert forall|i: int, j: int| 0 <= i < j < b.len() implies #[trigger] b[i].path
            != #[trigger] b[j].path by {
            assert(s[a.len() + i] == b[i] && s[a.len() + j] == b[j]);
        }
        assert forall|j: int| 0 <= j < b.len() implies !has_path(a, #[trigger] b[j].path) by {
            if has_path(a, b[j].path) {
                let i = choose|i: int| 0 <= i < a.len() && a[i].path == b[j].path;
                assert(s[i] == a[i] && s[a.len() + j] == b[j]);
            }
        }
    }
    if paths_distinct(a) && paths_distinct(b) && (forall|j: int|
        0 <= j < b.len() ==> !has_path(a, #[trigger] b[j].path)) {
        assert forall|i: int, j: int| 0 <= i < j < s.len() implies #[trigger] s[i].path
            != #[trigger] s[j].path by {
            if j < a.len() {
                assert(s[i] == a[i] && s[j] == a[j]);
            } else if i >= a.len() {
                assert(s[i] == b[i - a.len()] && s[j] == b[j - a.len()]);
            } else {
                assert(s[i] == a[i] && s[j] == b[j - a.len()]);
                assert(!has_path(a, b[j - a.len()].path));
            }
        }
    }
}

/// Re-rooting keeps distinctness in both directions: the join neither
/// creates a duplicate nor hides one.
pub proof fn lemma_distinct_prefix_files(prefix: Seq<u8>, files: Seq<SpecFile>)
    ensures
        paths_distinct(prefix_files(prefix, files)) <==> paths_distinct(files),
{
    let mapped = prefix_files(prefix, files);
    assert forall|i: int, j: int| 0 <= i < j < files.len() implies (#[trigger] mapped[i].path
        == #[trigger] mapped[j].path) == (files[i].path == files[j].path) by {
        crate::path::lemma_join_injective(prefix, files[i].path, files[j].path);
    }
    if paths_distinct(mapped) {
        assert forall|i: int, j: int| 0 <= i < j < files.len() implies #[trigger] files[i].path
            != #[trigger] files[j].path by {
            assert(mapped[i].path != mapped[j].path);
        }
    }
    if paths_distinct(files) {
        assert forall|i: int, j: int| 0 <= i < j < mapped.len() implies #[trigger] mapped[i].path
            != #[trigger] mapped[j].path by {
            assert(files[i].path != files[j].path);
        }
    }
}

/// The duplicate scan finds nothing exactly when the scanned files are
/// pairwise distinct and none of them repeats an already-seen path.
pub proof fn lemma_first_conflict_none(seen: Seq<SpecFile>, files: Seq<SpecFile>)
    ensures
        (first_conflict(seen, files) is None) <==> (paths_distinct(files) && forall|i: int|
            0 <= i < files.len() ==> !has_path(seen, #[trigger] files[i].path)),
    decreases files.len(),
{
    if files.len() == 0 {
    } else {
        let f0 = files[0];
        let tail = files.subrange(1, files.len() as int);
        lemma_first_conflict_none(seen.push(f0), tail);
        assert forall|p: Seq<u8>|
            has_path(seen.push(f0), p) == (has_path(seen, p) || f0.path == p) by {
            lemma_has_path_push(seen, f0, p);
        }
        assert(files =~= seq![f0] + tail);
        lemma_distinct_concat(seq![f0], tail);
        assert forall|j: int|
            0 <= j < tail.len() implies (has_path(seq![f0], #[trigger] tail[j].path) == (f0.path
            == tail[j].path)) by {
            if f0.path == tail[j].path {
                assert(seq![f0][0].path == tail[j].path);
            }
        }
        if first_conflict(seen, files) is None {
            assert(!has_path(seen, f0.path));
            assert forall|i: int|
                0 <= i < files.len() implies !has_path(seen, #[trigger] files[i].path) by {
                if i > 0 {
                    assert(files[i] == tail[i - 1]);
                }
            }
            assert(paths_distinct(seq![f0]));
        } else {
            if !has_path(seen, f0.path) {
                assert(!(paths_distinct(tail) && forall|i: int|
                    0 <= i < tail.len() ==> !has_path(seen.push(f0), #[trigger] tail[i].path)));
                if paths_distinct(files) && (forall|i: int|
                    0 <= i < files.len() ==> !has_path(seen, #[trigger] files[i].path)) {
                    assert forall|i: int|
                        0 <= i < tail.len() implies !has_path(
                        seen.push(f0),
                        #[trigger] tail[i].path,
                    ) by {
                        assert(tail[i] == files[i + 1]);
                        assert(!has_path(seen, tail[i].path));
                    }
                    assert(false);
                }
            }
        }
    }
}

/// A question-free item's turn finds no duplicate exactly when what it emits
/// is itself duplicate-free and repeats no already-registered path: the
/// staged checks inside lists and mounts refuse exactly the same trees as
/// one flat scan of the final paths.
pub proof fn lemma_turn_err_none(seen: Seq<SpecFile>, item: Item)
    requires
        qf(item),
    ensures
        (turn_err(seen, item) is None) <==> (paths_distinct(emits_files(item)) && forall|i: int|
            0 <= i < emits_files(item).len() ==> !has_path(
                seen,
                #[trigger] emits_files(item)[i].path,
            )),
    decreases item,
{
    match item {
        Item::File(f) => {
            assert(emits_files(item)[0] == f@);
        },
        Item::Command(_) => {},
        Item::List(elements) => {
            lemma_list_turn_err_none(seen, elements@);
        },
        Item::Question(_) => {},
        Item::Mount { prefix, inner } => {
            let ei = emits_files(*inner);
            let mapped = prefix_files(prefix@, ei);
            lemma_turn_err_none(Seq::<SpecFile>::empty(), *inner);
            assert forall|p: Seq<u8>| !has_path(Seq::<SpecFile>::empty(), p) by {}
            lemma_first_conflict_none(seen, mapped);
            lemma_distinct_prefix_files(prefix@, ei);
            assert((turn_err(Seq::<SpecFile>::empty(), *inner) is None) <==> paths_distinct(ei));
            if paths_distinct(mapped) {
                assert(paths_distinct(ei));
            }
        },
    }
}

/// The list form of [`lemma_turn_err_none`], over the elements in order.
pub proof fn lemma_list_turn_err_none(seen: Seq<SpecFile>, items: Seq<Item>)
    requires
        qf_seq(items),
    ensures
        (list_turn_err(seen, items) is None) <==> (paths_distinct(emits_files_seq(items))
            && forall|i: int|
            0 <= i < emits_files_seq(items).len() ==> !has_path(
                seen,
                #[trigger] emits_files_seq(items)[i].path,
            )),
    decreases items,
{
    if items.len() == 0 {
    } else {
        let head = items[0];
        let tail = items.subrange(1, items.len() as int);
        let e0 = emits_files(head);
        let et = emits_files_seq(tail);
        let all = emits_files_seq(items);
        assert(all == e0 + et);
        lemma_turn_err_none(seen, head);
        lemma_list_turn_err_none(seen + e0, tail);
        lemma_distinct_concat(e0, et);
        assert forall|p: Seq<u8>|
            has_path(seen + e0, p) == (has_path(seen, p) || has_path(e0, p)) by {
            lemma_has_path_concat(seen, e0, p);
        }
        assert forall|i: int| 0 <= i < e0.len() implies all[i] == e0[i] by {}
        assert forall|i: int| 0 <= i < et.len() implies all[e0.len() + i] == et[i] by {}
        if list_turn_err(seen, items) is None {
            assert(turn_err(seen, head) is None);
            assert(list_turn_err(seen + e0, tail) is None);
            assert forall|i: int| 0 <= i < all.len() implies !has_path(
                seen,
                #[trigger] all[i].path,
            ) by {
                if i < e0.len() {
                    assert(all[i] == e0[i]);
                } else {
                    assert(all[i] == et[i - e0.len()]);
                    assert(!has_path(seen + e0, et[i - e0.len()].path));
                }
            }
            assert forall|j: int| 0 <= j < et.len() implies !has_path(
                e0,
                #[trigger] et[j].path,
            ) by {
                assert(!has_path(seen + e0, et[j].path));
            }
        } else {
            if paths_distinct(all) && (forall|i: int|
                0 <= i < all.len() ==> !has_path(seen, #[trigger] all[i].path)) {
                assert forall|i: int| 0 <= i < e0.len() implies !has_path(
                    seen,
                    #[trigger] e0[i].path,
                ) by {
                    assert(e0[i] == all[i]);
                }
                assert(turn_err(seen, head) is None);
                assert forall|i: int| 0 <= i < et.len() implies !has_path(
                    seen + e0,
                    #[trigger] et[i].path,
                ) by {
                    assert(et[i] == all[e0.len() + i]);
                    assert(!has_path(seen, et[i].path));
                    assert(!has_path(e0, et[i].path));
                }
                assert(list_turn_err(seen + e0, tail) is None);
                assert(false);
            }
        }
    }
}

/// A question-free run succeeds exactly when the emitted files' final paths
/// are pairwise distinct: the success criterion in [`crate::geenie::Geenie::run`]'s
/// contract, in its plainest form.
pub proof fn lemma_run_succeeds_iff_distinct(items: Seq<Item>)
    requires
        qf_seq(items),
    ensures
        (list_turn_err(Seq::<SpecFile>::empty(), items) is None) <==> paths_distinct(
            emits_files_seq(items),
        ),
{
    lemma_list_turn_err_none(Seq::<SpecFile>::empty(), items);
    assert forall|p: Seq<u8>| !has_path(Seq::<SpecFile>::empty(), p) by {}
}

} // verus!
