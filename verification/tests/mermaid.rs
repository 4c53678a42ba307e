use regex::Regex;
use rustdocmd::mermaid::{diagram_sources, file_stem, svg_name, temp_source_name, with_image_links};

fn pattern_sources(content: &str) -> Vec<String> {
    let re = Regex::new(r"(?s)```mermaid\n(.*?)\n```\n?").unwrap();
    re.captures_iter(content).map(|cap| cap[1].to_string()).collect()
}

fn samples() -> Vec<&'static str> {
    vec![
        "",
        "no diagrams here\n",
        "```mermaid\ngraph TD\nA-->B\n```\n",
        "```mermaid\ngraph TD\n```",
        "```mermaid\n```\n",
        "```mermaid\n\n```\n",
        "a\n```mermaid\nx\n```\nb\n```mermaid\ny\n```\n\nc",
        "```mermaid\nopen only\n",
        "```mermaid\nx\n```mermaid\ny\n```\n",
        "```mermaid\nx\n``````mermaid\ny\n```",
        "text ```mermaid\nx\n```\n```rust\nfn f() {}\n```\n",
        "```mermaid\r\nx\r\n```\r\n",
        "```mermaid\nx\n````\n",
    ]
}

#[test]
fn sources_of_two_diagrams() {
    let content = "# T\n```mermaid\ngraph TD\nA-->B\n```\ntext\n```mermaid\npie\n```\n";
    assert_eq!(diagram_sources(content), vec!["graph TD\nA-->B", "pie"]);
}

#[test]
fn unclosed_fence_is_no_diagram() {
    assert_eq!(diagram_sources("```mermaid\ngraph TD\n"), Vec::<String>::new());
    assert_eq!(diagram_sources("```mermaid\n```"), Vec::<String>::new());
}

#[test]
fn sources_agree_with_the_lazy_pattern() {
    for content in samples() {
        assert_eq!(diagram_sources(content), pattern_sources(content), "{:?}", content);
    }
}

#[test]
fn image_names_count_in_base_ten() {
    assert_eq!(svg_name("intro", 1), "intro-mermaid-1.svg");
    assert_eq!(svg_name("a.b", 10), "a.b-mermaid-10.svg");
    assert_eq!(svg_name("", 0), "-mermaid-0.svg");
    assert_eq!(svg_name("x", 907), "x-mermaid-907.svg");
    assert_eq!(svg_name("x", usize::MAX), format!("x-mermaid-{}.svg", usize::MAX));
    assert_eq!(temp_source_name(3), "__tmp_mermaid_3.mmd");
    assert_eq!(temp_source_name(120), "__tmp_mermaid_120.mmd");
}

#[test]
fn stems_agree_with_the_path_stem() {
    for name in ["intro.md", "a.b.md", ".md", "..md", "md", "a.", "a", "", "\u{e9}.md", ".a.b"] {
        let expected = std::path::Path::new(name)
            .file_stem()
            .and_then(|s| s.to_str())
            .unwrap_or(name)
            .to_string();
        if name == ".." || name.is_empty() {
            continue;
        }
        assert_eq!(file_stem(name), expected, "{:?}", name);
    }
    assert_eq!(file_stem("intro.md"), "intro");
    assert_eq!(file_stem(""), "");
}

#[test]
fn link_follows_a_rendered_diagram() {
    let content = "a\n```mermaid\nx\n```\nb\n";
    assert_eq!(
        with_image_links(content, "intro", &vec![true]),
        "a\n```mermaid\nx\n```\n\n![Mermaid Diagram](intro-mermaid-1.svg)\nb\n"
    );
}

#[test]
fn link_at_the_end_of_the_file_gets_its_newline() {
    let content = "```mermaid\nx\n```";
    assert_eq!(
        with_image_links(content, "f", &vec![true]),
        "```mermaid\nx\n```\n\n![Mermaid Diagram](f-mermaid-1.svg)\n"
    );
}

#[test]
fn failed_diagrams_stay_untouched() {
    let content = "```mermaid\nx\n```\nmid\n```mermaid\ny\n```\nend";
    assert_eq!(with_image_links(content, "f", &vec![false, false]), content);
    assert_eq!(with_image_links(content, "f", &Vec::new()), content);
    assert_eq!(
        with_image_links(content, "f", &vec![false, true, true]),
        "```mermaid\nx\n```\nmid\n```mermaid\ny\n```\n\n![Mermaid Diagram](f-mermaid-2.svg)\nend"
    );
}

#[test]
fn text_without_diagrams_stays_as_it_is() {
    for content in ["", "plain\n", "```mermaid\nnever closed"] {
        assert_eq!(with_image_links(content, "f", &vec![true, true]), content);
    }
}

#[test]
fn links_agree_with_replacing_each_match() {
    for content in samples() {
        let re = Regex::new(r"(?s)```mermaid\n(.*?)\n```\n?").unwrap();
        let mut index = 0;
        let expected = re
            .replace_all(content, |cap: &regex::Captures| {
                index += 1;
                format!(
                    "```mermaid\n{}\n```\n\n![Mermaid Diagram]({})\n",
                    &cap[1],
                    format!("{}-mermaid-{}.svg", "stem", index)
                )
            })
            .to_string();
        let all = vec![true; 8];
        assert_eq!(with_image_links(content, "stem", &all), expected, "{:?}", content);
    }
}
