use regex::Regex;
use rustdocmd::parser::{
    extract_marker_blocks, extract_readme_blocks, extract_rustdoc_comments, is_closing_line,
    parse_open_tag, split_open_tag, MarkerBlock, OpenTag, ReadmeBlock, TagParts,
};

fn block(target_md: &str, order: Option<usize>, source_ref: &str, content: &str) -> MarkerBlock {
    MarkerBlock {
        target_md: target_md.to_string(),
        order,
        source_ref: source_ref.to_string(),
        content: content.to_string(),
    }
}

fn tag(name: &str, order: Option<usize>, source_ref: &str) -> OpenTag {
    OpenTag { name: name.to_string(), order, source_ref: source_ref.to_string() }
}

#[test]
fn keeps_only_doc_comment_lines() {
    let source = "fn main() {}\n/// one\n   //! two  \n// three\nlet x = 1; /// four\n";
    assert_eq!(extract_rustdoc_comments(source), "one\ntwo");
}

#[test]
fn no_comments_give_empty_text() {
    assert_eq!(extract_rustdoc_comments("fn main() {}\n"), "");
    assert_eq!(extract_rustdoc_comments(""), "");
}

#[test]
fn comment_lines_are_trimmed_and_may_be_empty() {
    assert_eq!(extract_rustdoc_comments("///\n///   a  b \t\r\n////\n///"), "\na  b\n/\n");
    assert_eq!(extract_rustdoc_comments("\u{a0}\u{3000}//!x\u{2003}"), "x");
}

#[test]
fn only_one_marker_is_stripped() {
    assert_eq!(extract_rustdoc_comments("/// /// nested"), "/// nested");
    assert_eq!(extract_rustdoc_comments("//!//! x"), "//! x");
}

#[test]
fn comments_agree_with_the_line_by_line_reading() {
    let sources = [
        "",
        "\n",
        "///",
        "/// a\n",
        "/// a\r\n/// b\r\n",
        "x\n\n/// a\n\n//! b",
        "  \t/// indented\n//// four\n//!\n",
        "/// a\rb\n",
        "///\u{85}x\u{85}\n",
    ];
    for source in sources {
        let expected = source
            .lines()
            .filter_map(|line| {
                let line = line.trim_start();
                if let Some(rest) = line.strip_prefix("///") {
                    Some(rest.trim())
                } else if let Some(rest) = line.strip_prefix("//!") {
                    Some(rest.trim())
                } else {
                    None
                }
            })
            .collect::<Vec<_>>()
            .join("\n");
        assert_eq!(extract_rustdoc_comments(source), expected, "source {:?}", source);
    }
}

#[test]
fn opening_tag_with_order_and_reference() {
    assert_eq!(parse_open_tag("<intro.md(1)> \"a.rs\""), Some(tag("intro.md", Some(1), "a.rs")));
}

#[test]
fn opening_tag_alone() {
    assert_eq!(parse_open_tag("<notes>"), Some(tag("notes", None, "")));
    assert_eq!(parse_open_tag("  <my-file_2.md>\t"), Some(tag("my-file_2.md", None, "")));
}

#[test]
fn opening_tag_pieces() {
    assert_eq!(
        split_open_tag(" <a b(x)>  \"r s\" "),
        Some(TagParts {
            name: "a b".to_string(),
            digits: Some("x".to_string()),
            source_ref: "r s".to_string(),
        })
    );
    assert_eq!(split_open_tag("<>"), Some(TagParts {
        name: String::new(),
        digits: None,
        source_ref: String::new(),
    }));
    assert_eq!(split_open_tag("<a(1>"), None);
    assert_eq!(split_open_tag("<a(1)x>"), None);
    assert_eq!(split_open_tag("x <a>"), None);
    assert_eq!(split_open_tag("<a> \"\""), None);
    assert_eq!(split_open_tag("<a> \"x\" y"), None);
}

#[test]
fn names_are_judged_by_the_word_class() {
    assert_eq!(parse_open_tag("<a b>"), None);
    assert_eq!(parse_open_tag("<>"), None);
    assert_eq!(parse_open_tag("<a/b>"), None);
    assert_eq!(parse_open_tag("<\u{e9}t\u{e9}.md>"), Some(tag("\u{e9}t\u{e9}.md", None, "")));
    assert_eq!(parse_open_tag("<\u{4e2d}\u{6587}>"), Some(tag("\u{4e2d}\u{6587}", None, "")));
}

#[test]
fn order_must_be_digits() {
    assert_eq!(parse_open_tag("<a()>"), None);
    assert_eq!(parse_open_tag("<a(-1)>"), None);
    assert_eq!(parse_open_tag("<a(1 )>"), None);
    assert_eq!(parse_open_tag("<a(007)>"), Some(tag("a", Some(7), "")));
    assert_eq!(parse_open_tag("<a(0)>"), Some(tag("a", Some(0), "")));
}

#[test]
fn order_that_is_no_usize_is_dropped() {
    assert_eq!(
        parse_open_tag("<a(99999999999999999999999999999999)>"),
        Some(tag("a", None, ""))
    );
    assert_eq!(parse_open_tag("<a(\u{663})>"), Some(tag("a", None, "")));
    let max = usize::MAX.to_string();
    assert_eq!(parse_open_tag(&format!("<a({})>", max)), Some(tag("a", Some(usize::MAX), "")));
}

fn one_line_pattern() -> Regex {
    Regex::new(r#"^\s*<([\w\-.]+)(?:\((\d+)\))?>\s*(?:\"([^\"]+)\")?\s*$"#).unwrap()
}

fn pattern_open(re: &Regex, line: &str) -> Option<OpenTag> {
    re.captures(line).map(|cap| OpenTag {
        name: cap[1].to_string(),
        order: cap.get(2).and_then(|m| m.as_str().parse::<usize>().ok()),
        source_ref: cap.get(3).map(|m| m.as_str().to_string()).unwrap_or_default(),
    })
}

fn agree_on(names: &[&str], orders: &[&str], tails: &[&str]) {
    let re = one_line_pattern();
    for h in ["", " \u{a0}", "x"] {
        for n in names {
            for o in orders {
                for t in tails {
                    let line = format!("{}<{}{}>{}", h, n, o, t);
                    assert_eq!(parse_open_tag(&line), pattern_open(&re, &line), "line {:?}", line);
                }
            }
        }
    }
}

#[test]
fn names_agree_with_the_one_line_pattern() {
    let names = ["a", "a.md", "a-b_c", "", "a b", "\u{e9}", "a(b", "a>b", "readme", "..", "a\u{301}", "a+", "\u{2160}", "a\u{200d}b", "_"];
    agree_on(&names, &["", "(1)"], &["", " \"r\""]);
}

#[test]
fn orders_agree_with_the_one_line_pattern() {
    let orders = ["", "(1)", "(12)", "()", "(x)", "(1", "1)", "(\u{663})", "((1))", "(1)(2)", "(+1)", "(1\u{663})", "(\u{b2})", "( 1)", "(18446744073709551616)"];
    agree_on(&["a", "a.md"], &orders, &["", "\"r\""]);
}

#[test]
fn references_agree_with_the_one_line_pattern() {
    let tails = [
        "", " ", "\"r\"", " \"r s\" ", "\"\"", "\"r", "r\"", "\"a\"b\"", " \"a\" \"b\"", "x",
        "\u{3000}\"\u{e9}\"\u{2003}", "\" \"", "\"", "\"\"\"", " \t", "\"a\" x",
    ];
    agree_on(&["a", "a.md"], &["", "(1)"], &tails);
}

#[test]
fn odd_lines_agree_with_the_one_line_pattern() {
    let re = one_line_pattern();
    for line in ["", "<", ">", "</a>", "<a", "<a(1)", "<<a>", "<a>>", "<a> <b>", "< a>", "<a >"] {
        assert_eq!(parse_open_tag(line), pattern_open(&re, line), "line {:?}", line);
    }
}

#[test]
fn closing_lines_agree_with_the_escaped_pattern() {
    let names = ["a", "a.md", "a-b", "readme", "\u{e9}", "a.b.c"];
    let lines = [
        "</a>", " </a> ", "</a.md>", "</aXmd>", "</a-b>", "</readme>", "<readme>", "</a>x",
        "x</a>", "</ a>", "</a >", "\t</\u{e9}>\u{a0}", "</a.b.c>", "</>", "", "</a></a>",
    ];
    for name in names {
        let re = Regex::new(&format!(r#"^\s*</{}>\s*$"#, regex::escape(name))).unwrap();
        for line in lines {
            assert_eq!(is_closing_line(line, name), re.is_match(line), "{:?} {:?}", line, name);
        }
    }
}

#[test]
fn one_block_from_one_pair() {
    let source = "/// <intro.md(1)> \"sample.rs\"\n/// # Hello Integration\n///\n/// Body\n/// </intro.md>\n";
    assert_eq!(
        extract_marker_blocks(source),
        vec![block("intro.md", Some(1), "sample.rs", "# Hello Integration\n\nBody")]
    );
}

#[test]
fn content_is_trimmed() {
    let source = "/// <a.md>\n///\n///\n/// text\n///\n/// </a.md>";
    assert_eq!(extract_marker_blocks(source), vec![block("a.md", None, "", "text")]);
    let empty = "/// <a.md>\n/// </a.md>";
    assert_eq!(extract_marker_blocks(empty), vec![block("a.md", None, "", "")]);
}

#[test]
fn dangling_opening_tag_gives_no_block() {
    let source = "/// <a.md>\n/// text\n/// <b.md>\n/// more\n/// </b.md>\n";
    assert_eq!(extract_marker_blocks(source), vec![block("b.md", None, "", "more")]);
    assert_eq!(extract_marker_blocks("/// <a.md>\n/// text\n"), vec![]);
}

#[test]
fn first_closing_line_closes() {
    let source = "/// <a.md>\n/// one\n/// </a.md>\n/// two\n/// </a.md>\n";
    assert_eq!(extract_marker_blocks(source), vec![block("a.md", None, "", "one")]);
}

#[test]
fn tags_inside_a_block_are_text() {
    let source = "/// <a.md>\n/// <b.md>\n/// x\n/// </b.md>\n/// </a.md>\n/// <c.md>\n/// y\n/// </c.md>";
    assert_eq!(
        extract_marker_blocks(source),
        vec![block("a.md", None, "", "<b.md>\nx\n</b.md>"), block("c.md", None, "", "y")]
    );
}

#[test]
fn code_between_comment_lines_is_invisible() {
    let source = "/// <a.md>\nfn f() {}\n/// one\nlet x = \"</a.md>\";\n/// two\n/// </a.md>\n";
    assert_eq!(extract_marker_blocks(source), vec![block("a.md", None, "", "one\ntwo")]);
}

#[test]
fn readme_regions_are_not_documentation_blocks() {
    let source = "/// <readme>\n/// hello\n/// </readme>\n/// <a.md>\n/// x\n/// </a.md>";
    assert_eq!(extract_marker_blocks(source), vec![block("a.md", None, "", "x")]);
    assert_eq!(
        extract_readme_blocks(source),
        vec![ReadmeBlock { content: "<readme>\nhello\n</readme>".to_string() }]
    );
}

#[test]
fn readme_region_inside_a_block() {
    let source = "/// <introducing.md(1)> \"main.rs\"\n/// <readme>\n/// rustdocmd Test\n///\n/// </readme>\n/// </introducing.md>\n";
    assert_eq!(
        extract_marker_blocks(source),
        vec![block("introducing.md", Some(1), "main.rs", "<readme>\nrustdocmd Test\n\n</readme>")]
    );
    assert_eq!(
        extract_readme_blocks(source),
        vec![ReadmeBlock { content: "<readme>\nrustdocmd Test\n\n</readme>".to_string() }]
    );
}

#[test]
fn readme_without_closing_line_gives_nothing() {
    assert_eq!(extract_readme_blocks("/// <readme>\n/// text\n"), vec![]);
    assert_eq!(extract_readme_blocks("/// text\n/// </readme>\n"), vec![]);
}

#[test]
fn blocks_agree_with_the_two_pointer_scan_over_patterns() {
    let sources = [
        "/// <a.md(2)> \"x\"\n/// one\n/// </a.md>\n/// <b.md>\n/// two\n/// </b.md>\n",
        "/// <a.md>\n/// <a.md>\n/// x\n/// </a.md>\n/// y\n/// </a.md>\n",
        "/// <a.md>\n/// </b.md>\n/// <b.md>\n/// </a.md>\n/// </b.md>\n",
        "/// <a>\n///\n",
        "///\n/// <a.b-c(10)>\n///   indented\n/// </a.b-c>\n///\n",
        "/// <\u{e9}(3)> \"r\"\n/// \u{e9}\n/// </\u{e9}>",
        "//! <a>\n//! </a>\n//! </a>\n//! <a>\n",
    ];
    for source in sources {
        let doc = extract_rustdoc_comments(source);
        let lines: Vec<&str> = doc.lines().collect();
        let mut expected = Vec::new();
        let re = one_line_pattern();
        let mut i = 0;
        while i < lines.len() {
            if let Some(open) = pattern_open(&re, lines[i]) {
                let re_close =
                    Regex::new(&format!(r#"^\s*</{}>\s*$"#, regex::escape(&open.name))).unwrap();
                let mut j = i + 1;
                while j < lines.len() && !re_close.is_match(lines[j]) {
                    j += 1;
                }
                if j < lines.len() {
                    let content = lines[i + 1..j].join("\n").trim().to_string();
                    expected.push(block(&open.name, open.order, &open.source_ref, &content));
                    i = j + 1;
                    continue;
                }
            }
            i += 1;
        }
        assert_eq!(extract_marker_blocks(source), expected, "source {:?}", source);
    }
}
