use rustdocmd::parser::{MarkerBlock, ReadmeBlock};
use rustdocmd::summary::{entry_order, summary_document, summary_from_titles};
use rustdocmd::writer::{
    clean_content, file_name_words, readme_document, title_from_filename, with_capital,
};

fn block(target_md: &str, order: Option<usize>) -> MarkerBlock {
    MarkerBlock {
        target_md: target_md.to_string(),
        order,
        source_ref: String::new(),
        content: String::new(),
    }
}

fn chained_title(filename: &str) -> String {
    let stem = filename.trim_end_matches(".md");
    stem.split(|c: char| c == '-' || c == '_' || c == ' ')
        .filter(|s| !s.is_empty())
        .map(|w| {
            let mut chars = w.chars();
            match chars.next() {
                Some(first) => first.to_uppercase().collect::<String>() + chars.as_str(),
                None => String::new(),
            }
        })
        .collect::<Vec<_>>()
        .join(" ")
}

fn replaced_clean(content: &str) -> String {
    content.replace("<readme>", "").replace("</readme>", "").trim().to_string()
}

#[test]
fn title_capitalizes_each_word() {
    assert_eq!(title_from_filename("intro.md"), "Intro");
    assert_eq!(title_from_filename("getting-started_with rustdocmd.md"), "Getting Started With Rustdocmd");
    assert_eq!(title_from_filename("API.md"), "API");
}

#[test]
fn title_uses_the_uppercase_mapping() {
    assert_eq!(title_from_filename("\u{df}eta.md"), "SSeta");
    assert_eq!(title_from_filename("\u{e9}t\u{e9}.md"), "\u{c9}t\u{e9}");
    assert_eq!(title_from_filename("1st.md"), "1st");
}

#[test]
fn title_drops_every_markdown_ending_and_empty_words() {
    assert_eq!(title_from_filename("a.md.md"), "A");
    assert_eq!(title_from_filename("--a__b  c-.md"), "A B C");
    assert_eq!(title_from_filename(".md"), "");
    assert_eq!(title_from_filename(""), "");
    assert_eq!(title_from_filename("a.mdx"), "A.mdx");
    assert_eq!(title_from_filename("a.md-b.md"), "A.md B");
}

#[test]
fn titles_agree_with_the_iterator_chain() {
    for name in [
        "intro.md", "a-b_c d.md", "", ".md", "md", "x.md.md.md", "-", "_a", "a.b.md", "\u{df}.md",
        "\u{fb01}le.md", "a  b", "x.MD", "\u{1c6}x.md", "a\tb.md",
    ] {
        assert_eq!(title_from_filename(name), chained_title(name), "{:?}", name);
    }
}

#[test]
fn words_of_a_file_name() {
    assert_eq!(file_name_words("my-first_file name.md"), vec!["my", "first", "file", "name"]);
    assert_eq!(file_name_words("-.md"), Vec::<String>::new());
}

#[test]
fn capital_replaces_the_first_character() {
    assert_eq!(with_capital("intro", "I"), "Intro");
    assert_eq!(with_capital("\u{df}eta", "SS"), "SSeta");
    assert_eq!(with_capital("", "X"), "X");
    assert_eq!(with_capital("a", ""), "");
}

#[test]
fn cleaning_strips_readme_tags_and_trims() {
    assert_eq!(clean_content("<readme>\nhello\n</readme>"), "hello");
    assert_eq!(clean_content("  text  "), "text");
    assert_eq!(clean_content("a<readme>b</readme>c"), "abc");
    assert_eq!(clean_content(""), "");
}

#[test]
fn cleaning_agrees_with_two_replacements() {
    for s in [
        "<readme>", "</readme>", "</<readme>readme>", "<read<readme>me>", "<<readme>readme>x",
        "<readme><readme>", " <readme> a </readme> ", "<readme", "readme>", "<<readme>/readme>",
    ] {
        assert_eq!(clean_content(s), replaced_clean(s), "{:?}", s);
    }
}

#[test]
fn readme_joins_regions_with_blank_lines() {
    let blocks = vec![
        ReadmeBlock { content: "<readme>\nfirst\n</readme>".to_string() },
        ReadmeBlock { content: "<readme>\n\nsecond  \n</readme>".to_string() },
    ];
    assert_eq!(readme_document(&blocks), "first\n\nsecond");
    assert_eq!(readme_document(&Vec::new()), "");
}

#[test]
fn readme_agrees_with_the_accumulating_loop() {
    let contents = ["<readme>\na\n</readme>", "", "<readme>\n</readme>", " b ", "c\n\n"];
    let blocks: Vec<ReadmeBlock> =
        contents.iter().map(|c| ReadmeBlock { content: c.to_string() }).collect();
    let mut expected = String::new();
    for block in &blocks {
        expected.push_str(replaced_clean(&block.content).as_str());
        expected.push_str("\n\n");
    }
    assert_eq!(readme_document(&blocks), expected.trim_end());
}

#[test]
fn explicit_orders_are_listed_rising() {
    let blocks = vec![block("b.md", Some(2)), block("a.md", Some(1)), block("c.md", Some(3))];
    assert_eq!(entry_order(&blocks), vec![1, 0, 2]);
    assert_eq!(
        summary_document(&blocks),
        "# Summary\n\n* [A](a.md)\n* [B](b.md)\n* [C](c.md)\n"
    );
}

#[test]
fn blocks_without_order_are_appended_in_discovery_order() {
    let blocks = vec![
        block("x.md", None),
        block("b.md", Some(2)),
        block("y.md", None),
        block("a.md", Some(1)),
    ];
    assert_eq!(entry_order(&blocks), vec![3, 1, 0, 2]);
}

#[test]
fn blocks_without_order_come_after_large_orders() {
    let blocks = vec![
        block("x.md", None),
        block("big.md", Some(5000)),
        block("y.md", None),
        block("edge.md", Some(1001)),
        block("max.md", Some(usize::MAX)),
    ];
    assert_eq!(entry_order(&blocks), vec![3, 1, 4, 0, 2]);
}

#[test]
fn later_block_takes_the_place_of_an_equal_order() {
    let blocks = vec![block("a.md", Some(1)), block("b.md", Some(1)), block("c.md", Some(0))];
    assert_eq!(entry_order(&blocks), vec![2, 1]);
    assert_eq!(summary_document(&blocks), "# Summary\n\n* [C](c.md)\n* [B](b.md)\n");
}

#[test]
fn summary_of_no_blocks_is_the_heading() {
    assert_eq!(summary_document(&Vec::new()), "# Summary\n\n");
    assert_eq!(entry_order(&Vec::new()), Vec::<usize>::new());
}

#[test]
fn summary_takes_the_given_titles() {
    let blocks = vec![block("b.md", Some(2)), block("a.md", Some(1)), block("c.md", None)];
    let titles = vec!["Bee".to_string(), "Ay".to_string()];
    assert_eq!(
        summary_from_titles(&blocks, &titles),
        "# Summary\n\n* [Ay](a.md)\n* [Bee](b.md)\n* [](c.md)\n"
    );
}

#[test]
fn summary_agrees_with_the_ordered_map() {
    let blocks = vec![
        block("z.md", None),
        block("intro.md", Some(1)),
        block("m-n.md", Some(7)),
        block("q.md", None),
        block("again.md", Some(7)),
        block("zero.md", Some(0)),
        block("k.md", Some(1000)),
    ];
    let mut entries = std::collections::BTreeMap::new();
    let mut last_index = 0;
    for b in &blocks {
        let idx = b.order.unwrap_or_else(|| {
            last_index += 1;
            1000 + last_index
        });
        entries.insert(idx, format!("* [{}]({})\n", chained_title(&b.target_md), b.target_md));
    }
    let mut expected = String::from("# Summary\n\n");
    for entry in entries.values() {
        expected.push_str(entry);
    }
    assert_eq!(summary_document(&blocks), expected);
}
