//! Bringing the target directory in line with the blocks: which files are
//! written and removed, and what the directory holds afterwards.
//!
//! Nothing here touches a file. A run is planned as a list of file
//! operations, which the caller carries out; the directory is modelled as a
//! map from file names to contents, and the laws at the end of this module
//! say what a run that succeeds makes of it.

use crate::parser::{block_views, MarkerBlock, MarkerBlockView};
use crate::summary::{
    entry_order, index_views, law_summary_rises_by_key, summary_document, summary_order,
    summary_text,
};
use crate::text::{chars_of, occurs_at, same_text, string_of};
use crate::writer::{clean_chars, cleaned, MARKDOWN_ENDING};
use vstd::prelude::*;

verus! {

/// The file name of the summary in the target directory, and of its copy
/// one directory above.
pub const SUMMARY_FILE: &'static str = "SUMMARY.md";

/// One operation on the files of a run. Names are file names inside the
/// target directory.
#[derive(Debug, Clone, PartialEq, Eq)]
pub enum FileOp {
    /// Write the file of a block.
    WriteDoc { name: String, content: String },
    /// Write the summary, which has `entries` entries.
    WriteSummary { name: String, content: String, entries: usize },
    /// Write a copy of the summary one directory above the target directory.
    MirrorSummary { content: String },
    /// Remove a file that no block stands for any more.
    Remove { name: String },
}

/// A [`FileOp`] as plain values.
pub enum FileOpView {
    WriteDoc { name: Seq<char>, content: Seq<char> },
    WriteSummary { name: Seq<char>, content: Seq<char>, entries: nat },
    MirrorSummary { content: Seq<char> },
    Remove { name: Seq<char> },
}

impl View for FileOp {
    type V = FileOpView;

    open spec fn view(&self) -> FileOpView {
        match self {
            FileOp::WriteDoc { name, content } => FileOpView::WriteDoc {
                name: name@,
                content: content@,
            },
            FileOp::WriteSummary { name, content, entries } => FileOpView::WriteSummary {
                name: name@,
                content: content@,
                entries: *entries as nat,
            },
            FileOp::MirrorSummary { content } => FileOpView::MirrorSummary { content: content@ },
            FileOp::Remove { name } => FileOpView::Remove { name: name@ },
        }
    }
}

/// The views of a list of operations.
pub open spec fn op_views(ops: Seq<FileOp>) -> Seq<FileOpView> {
    Seq::new(ops.len(), |i: int| ops[i]@)
}

/// What a run does with an operation: carry it out, or only report it.
#[derive(Debug, Clone, PartialEq, Eq)]
pub enum Action {
    Perform(FileOp),
    Report(FileOp),
}

/// An [`Action`] as plain values.
pub enum ActionView {
    Perform(FileOpView),
    Report(FileOpView),
}

impl View for Action {
    type V = ActionView;

    open spec fn view(&self) -> ActionView {
        match self {
            Action::Perform(op) => ActionView::Perform(op@),
            Action::Report(op) => ActionView::Report(op@),
        }
    }
}

/// The views of a list of actions.
pub open spec fn action_views(actions: Seq<Action>) -> Seq<ActionView> {
    Seq::new(actions.len(), |i: int| actions[i]@)
}

/// The files that a run can change: those of the target directory, by name,
/// and the copy of the summary above it.
pub struct Tree {
    pub files: Map<Seq<char>, Seq<char>>,
    pub mirror: Option<Seq<char>>,
}

/// The tree after an operation that succeeds.
pub open spec fn after_op(tree: Tree, op: FileOpView) -> Tree {
    match op {
        FileOpView::WriteDoc { name, content } => Tree {
            files: tree.files.insert(name, content),
            mirror: tree.mirror,
        },
        FileOpView::WriteSummary { name, content, entries } => Tree {
            files: tree.files.insert(name, content),
            mirror: tree.mirror,
        },
        FileOpView::MirrorSummary { content } => Tree { files: tree.files, mirror: Some(content) },
        FileOpView::Remove { name } => Tree { files: tree.files.remove(name), mirror: tree.mirror },
    }
}

/// The tree after a list of operations, carried out in order.
pub open spec fn after_ops(tree: Tree, ops: Seq<FileOpView>) -> Tree
    decreases ops.len(),
{
    if ops.len() == 0 {
        tree
    } else {
        after_op(after_ops(tree, ops.drop_last()), ops.last())
    }
}

/// The operation that an action is about.
pub open spec fn intended(action: ActionView) -> FileOpView {
    match action {
        ActionView::Perform(op) => op,
        ActionView::Report(op) => op,
    }
}

/// The tree after an action: a report changes nothing.
pub open spec fn after_action(tree: Tree, action: ActionView) -> Tree {
    match action {
        ActionView::Perform(op) => after_op(tree, op),
        ActionView::Report(op) => tree,
    }
}

/// The tree after a list of actions.
pub open spec fn after_actions(tree: Tree, actions: Seq<ActionView>) -> Tree
    decreases actions.len(),
{
    if actions.len() == 0 {
        tree
    } else {
        after_action(after_actions(tree, actions.drop_last()), actions.last())
    }
}

/// The actions of a run: each operation performed, or each reported where
/// the run is simulated.
pub open spec fn actions_of(ops: Seq<FileOpView>, dry_run: bool) -> Seq<ActionView> {
    Seq::new(
        ops.len(),
        |i: int|
            if dry_run {
                ActionView::Report(ops[i])
            } else {
                ActionView::Perform(ops[i])
            },
    )
}

/// Whether a file name has the extension `md`: it ends in `.md` and has at
/// least one character before that.
pub open spec fn is_markdown_name(name: Seq<char>) -> bool {
    name.len() > 3 && name.skip(name.len() - 3) == MARKDOWN_ENDING@ && MARKDOWN_ENDING@.len() == 3
}

/// The file names of the blocks.
pub open spec fn names_of(blocks: Seq<MarkerBlockView>) -> Seq<Seq<char>> {
    Seq::new(blocks.len(), |i: int| blocks[i].target_md)
}

/// Whether a file is left over: a markdown file that is neither the summary
/// nor the file of a block.
pub open spec fn is_stale(blocks: Seq<MarkerBlockView>, summary_name: Seq<char>, name: Seq<char>) -> bool {
    is_markdown_name(name) && name != summary_name && !names_of(blocks).contains(name)
}

/// One write for each block, in the order of discovery: the cleaned content
/// under the block's file name.
pub open spec fn doc_writes(blocks: Seq<MarkerBlockView>) -> Seq<FileOpView> {
    Seq::new(
        blocks.len(),
        |i: int|
            FileOpView::WriteDoc { name: blocks[i].target_md, content: cleaned(blocks[i].content) },
    )
}

/// The write of the summary, and of its copy where that is asked for.
pub open spec fn summary_writes(
    summary_name: Seq<char>,
    summary: Seq<char>,
    entries: nat,
    mirror: bool,
) -> Seq<FileOpView> {
    let write = FileOpView::WriteSummary { name: summary_name, content: summary, entries };
    if mirror {
        seq![write, FileOpView::MirrorSummary { content: summary }]
    } else {
        seq![write]
    }
}

/// One removal for each listed file that is left over, in the order of the
/// listing.
pub open spec fn removals(
    blocks: Seq<MarkerBlockView>,
    summary_name: Seq<char>,
    listing: Seq<Seq<char>>,
) -> Seq<FileOpView>
    decreases listing.len(),
{
    if listing.len() == 0 {
        Seq::empty()
    } else if is_stale(blocks, summary_name, listing.last()) {
        removals(blocks, summary_name, listing.drop_last()).push(
            FileOpView::Remove { name: listing.last() },
        )
    } else {
        removals(blocks, summary_name, listing.drop_last())
    }
}

/// The operations of a run with a given summary text: the files of the
/// blocks, then the summary, then the removals.
pub open spec fn plan_with(
    blocks: Seq<MarkerBlockView>,
    listing: Seq<Seq<char>>,
    summary_name: Seq<char>,
    summary: Seq<char>,
    entries: nat,
    mirror: bool,
) -> Seq<FileOpView> {
    doc_writes(blocks) + summary_writes(summary_name, summary, entries, mirror) + removals(
        blocks,
        summary_name,
        listing,
    )
}

/// The operations of a run.
pub open spec fn plan(
    blocks: Seq<MarkerBlockView>,
    listing: Seq<Seq<char>>,
    summary_name: Seq<char>,
    mirror: bool,
) -> Seq<FileOpView> {
    plan_with(
        blocks,
        listing,
        summary_name,
        summary_text(blocks),
        summary_order(blocks).len(),
        mirror,
    )
}

/// [`is_markdown_name`] on vectors.
fn has_markdown_extension(name: &Vec<char>) -> (b: bool)
    ensures
        b == is_markdown_name(name@),
{
    let ending = chars_of(MARKDOWN_ENDING);
    if ending.len() != 3 || name.len() <= 3 {
        return false;
    }
    let b = occurs_at(name, name.len() - 3, &ending);
    proof {
        let tail = name@.skip(name.len() - 3);
        assert(tail.subrange(0, 3) == tail);
    }
    b
}

/// Whether a file name has the extension `md`: whether it ends in `.md` and
/// is longer than that.
pub fn is_markdown_file(name: &str) -> (b: bool)
    ensures
        b == is_markdown_name(name@),
{
    has_markdown_extension(&chars_of(name))
}

/// Whether one of the blocks has the file name `name`.
fn names_block(blocks: &Vec<MarkerBlock>, name: &Vec<char>) -> (b: bool)
    ensures
        b == names_of(block_views(blocks@)).contains(name@),
{
    let ghost names = names_of(block_views(blocks@));
    let mut i: usize = 0;
    while i < blocks.len()
        invariant
            i <= blocks.len(),
            names == names_of(block_views(blocks@)),
            forall|j: int| 0 <= j < i ==> names[j] != name@,
        decreases blocks.len() - i,
    {
        assert(names[i as int] == blocks@[i as int].target_md@);
        if same_text(&chars_of(blocks[i].target_md.as_str()), name) {
            return true;
        }
        i += 1;
    }
    false
}

/// The operations of a run whose summary has already been written out: for
/// each block, in the order of discovery, the write of its cleaned content
/// under its file name; then the write of `summary` under `summary_name`,
/// and of its copy if `mirror` is set; then, for each name of `listing` in
/// turn, a removal if it is a markdown file that is neither the summary nor
/// the file of a block.
pub fn plan_with_summary(
    blocks: &Vec<MarkerBlock>,
    listing: &Vec<String>,
    summary_name: &str,
    summary: &str,
    entries: usize,
    mirror: bool,
) -> (ops: Vec<FileOp>)
    ensures
        op_views(ops@) == plan_with(
            block_views(blocks@),
            listing.deep_view(),
            summary_name@,
            summary@,
            entries as nat,
            mirror,
        ),
{
    let ghost all = block_views(blocks@);
    let ghost listed = listing.deep_view();
    let mut ops: Vec<FileOp> = Vec::new();
    let mut i: usize = 0;
    while i < blocks.len()
        invariant
            i <= blocks.len(),
            all == block_views(blocks@),
            ops.len() == i,
            forall|j: int| 0 <= j < i ==> (#[trigger] ops@[j])@ == doc_writes(all)[j],
        decreases blocks.len() - i,
    {
        let name = blocks[i].target_md.clone();
        let content = string_of(&clean_chars(&chars_of(blocks[i].content.as_str())));
        assert(all[i as int] == blocks@[i as int]@);
        ops.push(FileOp::WriteDoc { name, content });
        i += 1;
    }
    assert(op_views(ops@) =~= doc_writes(all));
    let summary_chars = chars_of(summary);
    let target = chars_of(summary_name);
    ops.push(
        FileOp::WriteSummary {
            name: string_of(&target),
            content: string_of(&summary_chars),
            entries,
        },
    );
    if mirror {
        ops.push(FileOp::MirrorSummary { content: string_of(&summary_chars) });
    }
    let ghost head = doc_writes(all) + summary_writes(
        summary_name@,
        summary@,
        entries as nat,
        mirror,
    );
    assert(op_views(ops@) =~= head);
    let mut k: usize = 0;
    proof {
        assert(listed.take(0).len() == 0);
        assert(head + Seq::<FileOpView>::empty() == head);
    }
    while k < listing.len()
        invariant
            k <= listing.len(),
            all == block_views(blocks@),
            listed == listing.deep_view(),
            target@ == summary_name@,
            op_views(ops@) == head + removals(all, summary_name@, listed.take(k as int)),
        decreases listing.len() - k,
    {
        let name = chars_of(listing[k].as_str());
        let ghost before = op_views(ops@);
        proof {
            let now = listed.take(k + 1);
            assert(now.drop_last() == listed.take(k as int));
            assert(now.last() == listing@[k as int]@);
        }
        if has_markdown_extension(&name) && !same_text(&name, &target) && !names_block(
            blocks,
            &name,
        ) {
            ops.push(FileOp::Remove { name: string_of(&name) });
            assert(op_views(ops@) =~= before.push(FileOpView::Remove { name: name@ }));
            assert(before.push(FileOpView::Remove { name: name@ }) =~= head + removals(
                all,
                summary_name@,
                listed.take(k as int),
            ).push(FileOpView::Remove { name: name@ }));
        }
        k += 1;
    }
    assert(listed.take(listing.len() as int) == listed);
    ops
}

/// The operations that bring the target directory in line with the blocks.
/// `listing` names the files that the directory holds, and `summary_name`
/// is the file name of the summary in it. First each block's file is
/// written, in the order of discovery, so that of two blocks with one name
/// the later one stays; then the summary is written, afresh from the
/// blocks, and its copy if `mirror` is set; then every listed markdown file
/// is removed that is neither the summary nor the file of a block.
pub fn sync_plan(
    blocks: &Vec<MarkerBlock>,
    listing: &Vec<String>,
    summary_name: &str,
    mirror: bool,
) -> (ops: Vec<FileOp>)
    ensures
        op_views(ops@) == plan(
            block_views(blocks@),
            listing.deep_view(),
            summary_name@,
            mirror,
        ),
{
    let summary = summary_document(blocks);
    let order = entry_order(blocks);
    assert(index_views(order@).len() == order@.len());
    plan_with_summary(blocks, listing, summary_name, summary.as_str(), order.len(), mirror)
}

/// The actions of a run: every operation of the plan, to be performed, or
/// only to be reported where the run is simulated.
pub fn sync_actions(ops: Vec<FileOp>, dry_run: bool) -> (actions: Vec<Action>)
    ensures
        action_views(actions@) == actions_of(op_views(ops@), dry_run),
{
    let ghost planned = op_views(ops@);
    let mut actions: Vec<Action> = Vec::new();
    let mut rest = ops;
    let mut reversed: Vec<FileOp> = Vec::new();
    while rest.len() > 0
        invariant
            reversed.len() + rest.len() == planned.len(),
            forall|j: int| 0 <= j < rest.len() ==> (#[trigger] rest@[j])@ == planned[j],
            forall|j: int|
                0 <= j < reversed.len() ==> (#[trigger] reversed@[j])@ == planned[planned.len() - 1
                    - j],
        decreases rest.len(),
    {
        let op = rest.pop().unwrap();
        reversed.push(op);
    }
    while reversed.len() > 0
        invariant
            reversed.len() + actions.len() == planned.len(),
            forall|j: int|
                0 <= j < reversed.len() ==> (#[trigger] reversed@[j])@ == planned[planned.len() - 1
                    - j],
            forall|j: int|
                0 <= j < actions.len() ==> (#[trigger] actions@[j])@ == actions_of(
                    planned,
                    dry_run,
                )[j],
        decreases reversed.len(),
    {
        let op = reversed.pop().unwrap();
        if dry_run {
            actions.push(Action::Report(op));
        } else {
            actions.push(Action::Perform(op));
        }
    }
    assert(action_views(actions@) =~= actions_of(planned, dry_run));
    actions
}

/// The index of the last block named `name`; -1 where there is none.
pub open spec fn last_named(blocks: Seq<MarkerBlockView>, name: Seq<char>) -> int
    decreases blocks.len(),
{
    if blocks.len() == 0 {
        -1
    } else if blocks.last().target_md == name {
        blocks.len() - 1
    } else {
        last_named(blocks.drop_last(), name)
    }
}

/// Whether `listing` names exactly the files of `tree`.
pub open spec fn lists_files_of(listing: Seq<Seq<char>>, tree: Tree) -> bool {
    forall|name: Seq<char>| listing.contains(name) <==> tree.files.contains_key(name)
}

/// The tree after a run that succeeds in every operation.
pub open spec fn synced(
    tree: Tree,
    blocks: Seq<MarkerBlockView>,
    listing: Seq<Seq<char>>,
    summary_name: Seq<char>,
    mirror: bool,
) -> Tree {
    after_ops(tree, plan(blocks, listing, summary_name, mirror))
}

/// Operations in a row are carried out as two rows, one after the other.
proof fn lemma_after_both(tree: Tree, first: Seq<FileOpView>, second: Seq<FileOpView>)
    ensures
        after_ops(tree, first + second) == after_ops(after_ops(tree, first), second),
    decreases second.len(),
{
    if second.len() == 0 {
        assert(first + second == first);
    } else {
        lemma_after_both(tree, first, second.drop_last());
        assert((first + second).drop_last() == first + second.drop_last());
        assert((first + second).last() == second.last());
    }
}

/// `last_named` names a block of that name exactly where there is one.
proof fn lemma_last_named(blocks: Seq<MarkerBlockView>, name: Seq<char>)
    ensures
        names_of(blocks).contains(name) <==> last_named(blocks, name) >= 0,
        -1 <= last_named(blocks, name) < blocks.len(),
        last_named(blocks, name) >= 0 ==> blocks[last_named(blocks, name)].target_md == name,
        forall|i: int|
            last_named(blocks, name) < i < blocks.len() ==> (#[trigger] blocks[i]).target_md
                != name,
    decreases blocks.len(),
{
    let names = names_of(blocks);
    if blocks.len() > 0 {
        let shorter = blocks.drop_last();
        lemma_last_named(shorter, name);
        if blocks.last().target_md == name {
            assert(names[blocks.len() - 1] == name);
        } else {
            if names.contains(name) {
                let i = choose|i: int| 0 <= i < names.len() && names[i] == name;
                assert(names_of(shorter)[i] == name);
            }
            if names_of(shorter).contains(name) {
                let i = choose|i: int| 0 <= i < shorter.len() && names_of(shorter)[i] == name;
                assert(names[i] == name);
            }
            assert forall|i: int| last_named(blocks, name) < i < blocks.len() implies (
            #[trigger] blocks[i]).target_md != name by {
                if i < blocks.len() - 1 {
                    assert(shorter[i] == blocks[i]);
                }
            }
        }
    }
}

/// What the writes of the blocks make of a tree.
proof fn lemma_after_doc_writes(tree: Tree, blocks: Seq<MarkerBlockView>)
    ensures
        after_ops(tree, doc_writes(blocks)).mirror == tree.mirror,
        forall|name: Seq<char>|
            #![trigger after_ops(tree, doc_writes(blocks)).files.contains_key(name)]
            after_ops(tree, doc_writes(blocks)).files.contains_key(name) <==> (
            tree.files.contains_key(name) || names_of(blocks).contains(name)),
        forall|name: Seq<char>|
            #![trigger after_ops(tree, doc_writes(blocks)).files[name]]
            after_ops(tree, doc_writes(blocks)).files[name] == (if names_of(blocks).contains(
                name,
            ) {
                cleaned(blocks[last_named(blocks, name)].content)
            } else {
                tree.files[name]
            }),
    decreases blocks.len(),
{
    let writes = doc_writes(blocks);
    if blocks.len() > 0 {
        let shorter = blocks.drop_last();
        lemma_after_doc_writes(tree, shorter);
        assert(writes.drop_last() =~= doc_writes(shorter));
        let mid = after_ops(tree, doc_writes(shorter));
        let now = after_ops(tree, writes);
        assert(now == after_op(mid, writes.last()));
        assert forall|name: Seq<char>|
            #![trigger now.files.contains_key(name)]
            #![trigger now.files[name]]
            (now.files.contains_key(name) <==> (tree.files.contains_key(name) || names_of(
                blocks,
            ).contains(name))) && now.files[name] == (if names_of(blocks).contains(name) {
                cleaned(blocks[last_named(blocks, name)].content)
            } else {
                tree.files[name]
            }) by {
            lemma_last_named(blocks, name);
            lemma_last_named(shorter, name);
            assert(mid.files.contains_key(name) <==> (tree.files.contains_key(name) || names_of(
                shorter,
            ).contains(name)));
            assert(mid.files[name] == (if names_of(shorter).contains(name) {
                cleaned(shorter[last_named(shorter, name)].content)
            } else {
                tree.files[name]
            }));
        }
    } else {
        assert forall|name: Seq<char>| !names_of(blocks).contains(name) by {}
    }
}

/// What the removals make of a tree.
proof fn lemma_after_removals(
    tree: Tree,
    blocks: Seq<MarkerBlockView>,
    summary_name: Seq<char>,
    listing: Seq<Seq<char>>,
)
    ensures
        after_ops(tree, removals(blocks, summary_name, listing)).mirror == tree.mirror,
        forall|name: Seq<char>|
            #![trigger after_ops(tree, removals(blocks, summary_name, listing)).files.contains_key(name)]
            after_ops(tree, removals(blocks, summary_name, listing)).files.contains_key(name) <==> (
            tree.files.contains_key(name) && !(listing.contains(name) && is_stale(
                blocks,
                summary_name,
                name,
            ))),
        forall|name: Seq<char>|
            #![trigger after_ops(tree, removals(blocks, summary_name, listing)).files[name]]
            after_ops(tree, removals(blocks, summary_name, listing)).files.contains_key(name)
                ==> after_ops(tree, removals(blocks, summary_name, listing)).files[name]
                == tree.files[name],
    decreases listing.len(),
{
    if listing.len() > 0 {
        let shorter = listing.drop_last();
        lemma_after_removals(tree, blocks, summary_name, shorter);
        let mid = after_ops(tree, removals(blocks, summary_name, shorter));
        let now = after_ops(tree, removals(blocks, summary_name, listing));
        if is_stale(blocks, summary_name, listing.last()) {
            let ops = removals(blocks, summary_name, listing);
            assert(ops.drop_last() == removals(blocks, summary_name, shorter));
            assert(now == after_op(mid, FileOpView::Remove { name: listing.last() }));
        }
        assert forall|name: Seq<char>|
            #![trigger now.files.contains_key(name)]
            now.files.contains_key(name) <==> (tree.files.contains_key(name) && !(
            listing.contains(name) && is_stale(blocks, summary_name, name))) by {
            assert(mid.files.contains_key(name) <==> (tree.files.contains_key(name) && !(
            shorter.contains(name) && is_stale(blocks, summary_name, name))));
            if listing.contains(name) {
                let i = choose|i: int| 0 <= i < listing.len() && listing[i] == name;
                if i < listing.len() - 1 {
                    assert(shorter[i] == name);
                }
            }
            if shorter.contains(name) {
                let i = choose|i: int| 0 <= i < shorter.len() && shorter[i] == name;
                assert(listing[i] == name);
            }
            assert(listing[listing.len() - 1] == listing.last());
        }
        assert forall|name: Seq<char>|
            #![trigger now.files[name]]
            now.files.contains_key(name) implies now.files[name] == tree.files[name] by {
            assert(mid.files.contains_key(name) ==> mid.files[name] == tree.files[name]);
        }
    } else {
        assert forall|name: Seq<char>| !listing.contains(name) by {}
    }
}

/// What a run makes of a tree, file by file.
proof fn lemma_synced(
    tree: Tree,
    blocks: Seq<MarkerBlockView>,
    listing: Seq<Seq<char>>,
    summary_name: Seq<char>,
    mirror: bool,
)
    ensures
        synced(tree, blocks, listing, summary_name, mirror).mirror == (if mirror {
            Some(summary_text(blocks))
        } else {
            tree.mirror
        }),
        forall|name: Seq<char>|
            #![trigger synced(tree, blocks, listing, summary_name, mirror).files.contains_key(name)]
            synced(tree, blocks, listing, summary_name, mirror).files.contains_key(name) <==> (name
                == summary_name || names_of(blocks).contains(name) || (tree.files.contains_key(
                name,
            ) && !(listing.contains(name) && is_stale(blocks, summary_name, name)))),
        forall|name: Seq<char>|
            #![trigger synced(tree, blocks, listing, summary_name, mirror).files[name]]
            synced(tree, blocks, listing, summary_name, mirror).files.contains_key(name) ==> synced(
                tree,
                blocks,
                listing,
                summary_name,
                mirror,
            ).files[name] == (if name == summary_name {
                summary_text(blocks)
            } else if names_of(blocks).contains(name) {
                cleaned(blocks[last_named(blocks, name)].content)
            } else {
                tree.files[name]
            }),
{
    let summary = summary_text(blocks);
    let entries = summary_order(blocks).len();
    let writes = doc_writes(blocks);
    let heads = summary_writes(summary_name, summary, entries, mirror);
    let drops = removals(blocks, summary_name, listing);
    let t1 = after_ops(tree, writes);
    let t2 = after_ops(t1, heads);
    let t3 = after_ops(t2, drops);
    lemma_after_both(tree, writes + heads, drops);
    lemma_after_both(tree, writes, heads);
    assert(synced(tree, blocks, listing, summary_name, mirror) == t3);
    lemma_after_doc_writes(tree, blocks);
    lemma_after_removals(t2, blocks, summary_name, listing);
    let write = FileOpView::WriteSummary { name: summary_name, content: summary, entries };
    let t15 = after_op(t1, write);
    if mirror {
        let one = heads.drop_last();
        assert(one.len() == 1 && one.last() == write);
        assert(one.drop_last().len() == 0);
        assert(after_ops(t1, one.drop_last()) == t1);
        assert(after_ops(t1, one) == t15);
        assert(t2 == after_op(t15, FileOpView::MirrorSummary { content: summary }));
    } else {
        assert(heads.len() == 1 && heads.last() == write);
        assert(heads.drop_last().len() == 0);
        assert(after_ops(t1, heads.drop_last()) == t1);
        assert(t2 == t15);
    }
    assert(t2.files == t1.files.insert(summary_name, summary));
    assert forall|name: Seq<char>|
        #![trigger t3.files.contains_key(name)]
        t3.files.contains_key(name) <==> (name == summary_name || names_of(blocks).contains(name)
            || (tree.files.contains_key(name) && !(listing.contains(name) && is_stale(
            blocks,
            summary_name,
            name,
        )))) by {
        assert(t1.files.contains_key(name) <==> (tree.files.contains_key(name) || names_of(
            blocks,
        ).contains(name)));
        assert(t2.files.contains_key(name) <==> (name == summary_name || t1.files.contains_key(
            name,
        )));
    }
    assert forall|name: Seq<char>|
        #![trigger t3.files[name]]
        t3.files.contains_key(name) implies t3.files[name] == (if name == summary_name {
            summary_text(blocks)
        } else if names_of(blocks).contains(name) {
            cleaned(blocks[last_named(blocks, name)].content)
        } else {
            tree.files[name]
        }) by {
        assert(t3.files[name] == t2.files[name]);
        assert(t1.files[name] == (if names_of(blocks).contains(name) {
            cleaned(blocks[last_named(blocks, name)].content)
        } else {
            tree.files[name]
        }));
    }
}

/// After a run the tree mirrors the blocks. The summary holds the summary
/// text, and its copy too where it was asked for. Every block has its file,
/// which holds the cleaned content of the last block of that name (unless
/// the name is the summary's, which then holds the summary). Where the
/// listing named every file of the directory, every markdown file that is
/// left is the summary or the file of a block. A file that is no markdown
/// file, or that was not listed, is as it was.
pub proof fn law_tree_mirrors_blocks(
    tree: Tree,
    blocks: Seq<MarkerBlockView>,
    listing: Seq<Seq<char>>,
    summary_name: Seq<char>,
    mirror: bool,
)
    ensures
        synced(tree, blocks, listing, summary_name, mirror).files.contains_key(summary_name),
        synced(tree, blocks, listing, summary_name, mirror).files[summary_name] == summary_text(
            blocks,
        ),
        mirror ==> synced(tree, blocks, listing, summary_name, mirror).mirror == Some(
            summary_text(blocks),
        ),
        !mirror ==> synced(tree, blocks, listing, summary_name, mirror).mirror == tree.mirror,
        forall|i: int|
            #![trigger blocks[i]]
            0 <= i < blocks.len() && blocks[i].target_md != summary_name ==> synced(
                tree,
                blocks,
                listing,
                summary_name,
                mirror,
            ).files.contains_key(blocks[i].target_md) && synced(
                tree,
                blocks,
                listing,
                summary_name,
                mirror,
            ).files[blocks[i].target_md] == cleaned(
                blocks[last_named(blocks, blocks[i].target_md)].content,
            ) && i <= last_named(blocks, blocks[i].target_md) < blocks.len(),
        forall|name: Seq<char>|
            #![trigger synced(tree, blocks, listing, summary_name, mirror).files.contains_key(name)]
            lists_files_of(listing, tree) && is_markdown_name(name) && synced(
                tree,
                blocks,
                listing,
                summary_name,
                mirror,
            ).files.contains_key(name) ==> name == summary_name || names_of(blocks).contains(name),
        forall|name: Seq<char>|
            #![trigger synced(tree, blocks, listing, summary_name, mirror).files[name]]
            name != summary_name && !names_of(blocks).contains(name) && tree.files.contains_key(
                name,
            ) && !(listing.contains(name) && is_markdown_name(name)) ==> synced(
                tree,
                blocks,
                listing,
                summary_name,
                mirror,
            ).files.contains_key(name) && synced(
                tree,
                blocks,
                listing,
                summary_name,
                mirror,
            ).files[name] == tree.files[name],
{
    let after = synced(tree, blocks, listing, summary_name, mirror);
    lemma_synced(tree, blocks, listing, summary_name, mirror);
    assert(after.files.contains_key(summary_name));
    assert(after.files[summary_name] == summary_text(blocks));
    assert forall|i: int|
        #![trigger blocks[i]]
        0 <= i < blocks.len() && blocks[i].target_md != summary_name implies after.files.contains_key(
        blocks[i].target_md) && after.files[blocks[i].target_md] == cleaned(
            blocks[last_named(blocks, blocks[i].target_md)].content,
        ) && i <= last_named(blocks, blocks[i].target_md) < blocks.len() by {
        let name = blocks[i].target_md;
        assert(names_of(blocks)[i] == name);
        lemma_last_named(blocks, name);
        assert(after.files.contains_key(name));
        assert(after.files[name] == cleaned(blocks[last_named(blocks, name)].content));
    }
    assert forall|name: Seq<char>|
        #![trigger after.files.contains_key(name)]
        lists_files_of(listing, tree) && is_markdown_name(name) && after.files.contains_key(
            name,
        ) implies name == summary_name || names_of(blocks).contains(name) by {
        if name != summary_name && !names_of(blocks).contains(name) {
            assert(tree.files.contains_key(name));
            assert(listing.contains(name));
        }
    }
    assert forall|name: Seq<char>|
        #![trigger after.files[name]]
        name != summary_name && !names_of(blocks).contains(name) && tree.files.contains_key(name)
            && !(listing.contains(name) && is_markdown_name(name)) implies after.files.contains_key(
        name) && after.files[name] == tree.files[name] by {
        assert(after.files.contains_key(name));
    }
}

/// Synchronizing is idempotent: a second run on the same blocks, over the
/// directory as the first run left it, removes nothing and leaves every
/// file, the summary and its copy as they are.
pub proof fn law_sync_is_idempotent(
    tree: Tree,
    blocks: Seq<MarkerBlockView>,
    first_listing: Seq<Seq<char>>,
    second_listing: Seq<Seq<char>>,
    summary_name: Seq<char>,
    mirror: bool,
)
    requires
        lists_files_of(first_listing, tree),
        lists_files_of(second_listing, synced(tree, blocks, first_listing, summary_name, mirror)),
    ensures
        synced(
            synced(tree, blocks, first_listing, summary_name, mirror),
            blocks,
            second_listing,
            summary_name,
            mirror,
        ) == synced(tree, blocks, first_listing, summary_name, mirror),
        removals(blocks, summary_name, second_listing).len() == 0,
{
    let once = synced(tree, blocks, first_listing, summary_name, mirror);
    let twice = synced(once, blocks, second_listing, summary_name, mirror);
    lemma_synced(tree, blocks, first_listing, summary_name, mirror);
    lemma_synced(once, blocks, second_listing, summary_name, mirror);
    assert forall|name: Seq<char>| once.files.contains_key(name) implies !is_stale(
        blocks,
        summary_name,
        name,
    ) by {
        if is_stale(blocks, summary_name, name) {
            assert(tree.files.contains_key(name));
            assert(first_listing.contains(name));
        }
    }
    assert forall|name: Seq<char>|
        twice.files.contains_key(name) <==> once.files.contains_key(name) by {
        assert(twice.files.contains_key(name) <==> (name == summary_name || names_of(
            blocks,
        ).contains(name) || (once.files.contains_key(name) && !(second_listing.contains(name)
            && is_stale(blocks, summary_name, name)))));
        assert(once.files.contains_key(name) <==> (name == summary_name || names_of(
            blocks,
        ).contains(name) || (tree.files.contains_key(name) && !(first_listing.contains(name)
            && is_stale(blocks, summary_name, name)))));
    }
    assert forall|name: Seq<char>| twice.files.contains_key(name) implies twice.files[name]
        == once.files[name] by {
        assert(once.files.contains_key(name));
        assert(twice.files[name] == (if name == summary_name {
            summary_text(blocks)
        } else if names_of(blocks).contains(name) {
            cleaned(blocks[last_named(blocks, name)].content)
        } else {
            once.files[name]
        }));
        assert(once.files[name] == (if name == summary_name {
            summary_text(blocks)
        } else if names_of(blocks).contains(name) {
            cleaned(blocks[last_named(blocks, name)].content)
        } else {
            tree.files[name]
        }));
    }
    assert(twice.files =~= once.files);
    assert(twice.mirror == once.mirror);
    lemma_no_removals(blocks, summary_name, second_listing);
}

/// Where no listed file is left over, nothing is removed.
proof fn lemma_no_removals(
    blocks: Seq<MarkerBlockView>,
    summary_name: Seq<char>,
    listing: Seq<Seq<char>>,
)
    requires
        forall|name: Seq<char>|
            listing.contains(name) ==> !is_stale(blocks, summary_name, name),
    ensures
        removals(blocks, summary_name, listing).len() == 0,
    decreases listing.len(),
{
    if listing.len() > 0 {
        let shorter = listing.drop_last();
        assert(listing[listing.len() - 1] == listing.last());
        assert(listing.contains(listing.last()));
        assert forall|name: Seq<char>| shorter.contains(name) implies !is_stale(
            blocks,
            summary_name,
            name,
        ) by {
            let i = choose|i: int| 0 <= i < shorter.len() && shorter[i] == name;
            assert(listing[i] == name);
            assert(listing.contains(name));
        }
        lemma_no_removals(blocks, summary_name, shorter);
    }
}

/// A marker that is gone takes its file and its entry with it: after a run
/// the directory holds no markdown file of a name that no block has (the
/// summary apart), provided the listing named the file if it was there; and
/// the summary lists no block of that name.
pub proof fn law_removed_marker_disappears(
    tree: Tree,
    blocks: Seq<MarkerBlockView>,
    listing: Seq<Seq<char>>,
    summary_name: Seq<char>,
    mirror: bool,
    name: Seq<char>,
)
    requires
        is_markdown_name(name),
        name != summary_name,
        !names_of(blocks).contains(name),
        tree.files.contains_key(name) ==> listing.contains(name),
    ensures
        !synced(tree, blocks, listing, summary_name, mirror).files.contains_key(name),
        forall|k: int|
            0 <= k < summary_order(blocks).len() ==> blocks[#[trigger] summary_order(
                blocks,
            )[k]].target_md != name,
{
    lemma_synced(tree, blocks, listing, summary_name, mirror);
    law_summary_rises_by_key(blocks);
    assert forall|k: int| 0 <= k < summary_order(blocks).len() implies blocks[#[trigger] summary_order(
        blocks,
    )[k]].target_md != name by {
        let i = summary_order(blocks)[k];
        assert(names_of(blocks)[i] == blocks[i].target_md);
    }
}

/// A simulated run changes nothing, and it reports the operations that the
/// real run performs: both runs are about the same operations, in the same
/// order; the one leaves the tree as it is, the other makes of it what the
/// operations make of it.
pub proof fn law_simulation_reports_the_real_run(tree: Tree, ops: Seq<FileOpView>)
    ensures
        after_actions(tree, actions_of(ops, true)) == tree,
        after_actions(tree, actions_of(ops, false)) == after_ops(tree, ops),
        actions_of(ops, true).len() == ops.len(),
        actions_of(ops, false).len() == ops.len(),
        forall|i: int|
            0 <= i < ops.len() ==> intended(#[trigger] actions_of(ops, true)[i]) == ops[i]
                && intended(actions_of(ops, false)[i]) == ops[i] && actions_of(ops, true)[i]
                is Report && actions_of(ops, false)[i] is Perform,
    decreases ops.len(),
{
    if ops.len() > 0 {
        law_simulation_reports_the_real_run(tree, ops.drop_last());
        assert(actions_of(ops, true).drop_last() =~= actions_of(ops.drop_last(), true));
        assert(actions_of(ops, false).drop_last() =~= actions_of(ops.drop_last(), false));
    }
}

} // verus!
