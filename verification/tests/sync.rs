use rustdocmd::parser::{extract_marker_blocks, MarkerBlock};
use rustdocmd::sync::{
    is_markdown_file, plan_with_summary, sync_actions, sync_plan, Action, FileOp, SUMMARY_FILE,
};
use std::collections::BTreeMap;

fn doc(target_md: &str, order: Option<usize>, content: &str) -> MarkerBlock {
    MarkerBlock {
        target_md: target_md.to_string(),
        order,
        source_ref: String::new(),
        content: content.to_string(),
    }
}

fn listing_of(tree: &BTreeMap<String, String>) -> Vec<String> {
    tree.keys().cloned().collect()
}

fn carry_out(tree: &mut BTreeMap<String, String>, mirror: &mut Option<String>, actions: &[Action]) {
    for action in actions {
        match action {
            Action::Perform(FileOp::WriteDoc { name, content }) => {
                tree.insert(name.clone(), content.clone());
            }
            Action::Perform(FileOp::WriteSummary { name, content, .. }) => {
                tree.insert(name.clone(), content.clone());
            }
            Action::Perform(FileOp::MirrorSummary { content }) => {
                *mirror = Some(content.clone());
            }
            Action::Perform(FileOp::Remove { name }) => {
                tree.remove(name);
            }
            Action::Report(_) => {}
        }
    }
}

fn run(
    tree: &mut BTreeMap<String, String>,
    mirror: &mut Option<String>,
    blocks: &Vec<MarkerBlock>,
    dry_run: bool,
) -> Vec<Action> {
    let plan = sync_plan(blocks, &listing_of(tree), SUMMARY_FILE, true);
    let actions = sync_actions(plan, dry_run);
    carry_out(tree, mirror, &actions);
    actions
}

fn intended(actions: &[Action]) -> Vec<FileOp> {
    actions
        .iter()
        .map(|a| match a {
            Action::Perform(op) => op.clone(),
            Action::Report(op) => op.clone(),
        })
        .collect()
}

#[test]
fn markdown_files_are_told_by_their_extension() {
    assert!(is_markdown_file("a.md"));
    assert!(is_markdown_file("a.b.md"));
    assert!(is_markdown_file("..md"));
    assert!(!is_markdown_file(".md"));
    assert!(!is_markdown_file("md"));
    assert!(!is_markdown_file("a.MD"));
    assert!(!is_markdown_file("a.md "));
    assert!(!is_markdown_file("a.txt"));
    assert!(!is_markdown_file(""));
}

#[test]
fn markdown_files_agree_with_the_path_extension() {
    for name in ["a.md", ".md", "..md", "a.b.md", "md", "a.md.txt", "x.mdx", "..", ".", "a.", "\u{e9}.md"] {
        let expected = std::path::Path::new(name).extension().map(|e| e == "md").unwrap_or(false);
        assert_eq!(is_markdown_file(name), expected, "{:?}", name);
    }
}

#[test]
fn plan_writes_then_summarizes_then_removes() {
    let blocks = vec![doc("b.md", Some(2), " B "), doc("a.md", Some(1), "<readme>A</readme>")];
    let listing = vec![
        "old.md".to_string(),
        "a.md".to_string(),
        "SUMMARY.md".to_string(),
        "notes.txt".to_string(),
        "gone.md".to_string(),
    ];
    let summary = "# Summary\n\n* [A](a.md)\n* [B](b.md)\n".to_string();
    assert_eq!(
        sync_plan(&blocks, &listing, "SUMMARY.md", true),
        vec![
            FileOp::WriteDoc { name: "b.md".to_string(), content: "B".to_string() },
            FileOp::WriteDoc { name: "a.md".to_string(), content: "A".to_string() },
            FileOp::WriteSummary {
                name: "SUMMARY.md".to_string(),
                content: summary.clone(),
                entries: 2
            },
            FileOp::MirrorSummary { content: summary },
            FileOp::Remove { name: "old.md".to_string() },
            FileOp::Remove { name: "gone.md".to_string() },
        ]
    );
}

#[test]
fn plan_without_mirror_has_no_copy() {
    let blocks = vec![doc("a.md", None, "x")];
    let plan = plan_with_summary(&blocks, &Vec::new(), "S.md", "text", 7, false);
    assert_eq!(
        plan,
        vec![
            FileOp::WriteDoc { name: "a.md".to_string(), content: "x".to_string() },
            FileOp::WriteSummary { name: "S.md".to_string(), content: "text".to_string(), entries: 7 },
        ]
    );
}

#[test]
fn summary_is_never_removed() {
    let listing = vec!["SUMMARY.md".to_string(), "x.md".to_string()];
    let plan = sync_plan(&Vec::new(), &listing, "SUMMARY.md", false);
    assert_eq!(
        plan,
        vec![
            FileOp::WriteSummary {
                name: "SUMMARY.md".to_string(),
                content: "# Summary\n\n".to_string(),
                entries: 0
            },
            FileOp::Remove { name: "x.md".to_string() },
        ]
    );
}

#[test]
fn sample_run_gives_file_and_summary() {
    let source = "\n    /// <intro.md(1)> \"a.rs\"\n    /// # Hi\n    /// </intro.md>\n    ";
    let blocks = extract_marker_blocks(source);
    let mut tree = BTreeMap::new();
    let mut mirror = None;
    run(&mut tree, &mut mirror, &blocks, false);
    assert_eq!(tree.get("intro.md").map(String::as_str), Some("# Hi"));
    assert!(tree["SUMMARY.md"].contains("* [Intro](intro.md)"));
    assert_eq!(tree["SUMMARY.md"], "# Summary\n\n* [Intro](intro.md)\n");
    assert_eq!(mirror.as_deref(), Some("# Summary\n\n* [Intro](intro.md)\n"));
    assert_eq!(tree.len(), 2);
}

#[test]
fn second_run_changes_nothing() {
    let blocks = vec![doc("a.md", Some(1), "A"), doc("b.md", None, "B"), doc("a.md", Some(3), "C")];
    let mut tree = BTreeMap::new();
    tree.insert("stale.md".to_string(), "old".to_string());
    tree.insert("keep.txt".to_string(), "kept".to_string());
    let mut mirror = None;
    run(&mut tree, &mut mirror, &blocks, false);
    let after_first = (tree.clone(), mirror.clone());
    let second = run(&mut tree, &mut mirror, &blocks, false);
    assert_eq!((tree.clone(), mirror.clone()), after_first);
    assert!(second.iter().all(|a| !matches!(a, Action::Perform(FileOp::Remove { .. }))));
    assert!(!tree.contains_key("stale.md"));
    assert_eq!(tree["keep.txt"], "kept");
}

#[test]
fn removed_marker_takes_file_and_entry_along() {
    let first = vec![doc("a.md", Some(1), "A"), doc("b.md", Some(2), "B")];
    let mut tree = BTreeMap::new();
    let mut mirror = None;
    run(&mut tree, &mut mirror, &first, false);
    assert!(tree.contains_key("b.md"));
    assert!(tree["SUMMARY.md"].contains("(b.md)"));
    let second = vec![doc("a.md", Some(1), "A")];
    run(&mut tree, &mut mirror, &second, false);
    assert!(!tree.contains_key("b.md"));
    assert!(!tree["SUMMARY.md"].contains("(b.md)"));
    assert_eq!(tree["SUMMARY.md"], "# Summary\n\n* [A](a.md)\n");
}

#[test]
fn later_block_of_a_name_wins_the_file() {
    let blocks = vec![doc("dup.md", None, "first"), doc("dup.md", None, "second")];
    let mut tree = BTreeMap::new();
    let mut mirror = None;
    run(&mut tree, &mut mirror, &blocks, false);
    assert_eq!(tree.keys().filter(|k| k.as_str() == "dup.md").count(), 1);
    assert_eq!(tree["dup.md"], "second");
}

#[test]
fn simulated_run_touches_nothing_and_reports_the_same() {
    let blocks = vec![doc("a.md", Some(1), "A"), doc("b.md", None, "B")];
    let mut tree = BTreeMap::new();
    tree.insert("stale.md".to_string(), "old".to_string());
    let before = tree.clone();
    let mut mirror = None;
    let simulated = run(&mut tree, &mut mirror, &blocks, true);
    assert_eq!(tree, before);
    assert_eq!(mirror, None);
    assert!(simulated.iter().all(|a| matches!(a, Action::Report(_))));
    let real = run(&mut tree, &mut mirror, &blocks, false);
    assert!(real.iter().all(|a| matches!(a, Action::Perform(_))));
    assert_eq!(intended(&simulated), intended(&real));
    assert_eq!(simulated.len(), 5);
}
