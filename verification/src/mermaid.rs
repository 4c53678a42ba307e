//! Diagrams in the written markdown: where the fenced diagram sources stand
//! in a file, what the rendered images are called, and the file with the
//! image links put in.
//!
//! Rendering is not done here. The caller hands each diagram source to the
//! renderer and says which of them came out.

use crate::text::{
    chars_of, decimal, decimal_of, find, find_from, lemma_find, push_all, string_of, subvec,
};
use vstd::prelude::*;

verus! {

/// The line that opens a diagram source.
pub const FENCE_OPEN: &'static str = "```mermaid\n";

/// What closes a diagram source: a fence at the start of a line.
pub const FENCE_CLOSE: &'static str = "\n```";

/// What stands before the image's file name in an image link.
pub const LINK_OPEN: &'static str = "\n![Mermaid Diagram](";

/// What stands behind the image's file name in an image link.
pub const LINK_CLOSE: &'static str = ")\n";

/// What stands between the stem and the number in an image's file name.
pub const IMAGE_INFIX: &'static str = "-mermaid-";

/// The ending of an image's file name.
pub const IMAGE_ENDING: &'static str = ".svg";

/// What stands before the number in the name of a renderer's input file.
pub const TEMP_PREFIX: &'static str = "__tmp_mermaid_";

/// The ending of the name of a renderer's input file.
pub const TEMP_ENDING: &'static str = ".mmd";

/// One fenced diagram source in a text: it begins at `start` with the
/// opening line, its source runs from `code_start` to `code_end`, where the
/// closing fence begins, and it ends before `end`; `newline` says whether
/// the newline behind the closing fence is part of it.
pub struct Diagram {
    pub start: int,
    pub code_start: int,
    pub code_end: int,
    pub end: int,
    pub newline: bool,
}

/// The first diagram at or after `from`: the first opening line there, up
/// to the first closing fence behind it and the newline that follows the
/// fence, if one does. No diagram where either is missing.
pub open spec fn next_diagram(text: Seq<char>, from: int) -> Option<Diagram> {
    match find(text, FENCE_OPEN@, from) {
        Some(start) => {
            let code_start = start + FENCE_OPEN@.len();
            match find(text, FENCE_CLOSE@, code_start) {
                Some(code_end) => {
                    let fence_end = code_end + FENCE_CLOSE@.len();
                    let newline = fence_end < text.len() && text[fence_end] == '\n';
                    Some(
                        Diagram {
                            start,
                            code_start,
                            code_end,
                            end: if newline {
                                fence_end + 1
                            } else {
                                fence_end
                            },
                            newline,
                        },
                    )
                },
                None => None,
            }
        },
        None => None,
    }
}

/// The diagram sources of a text from `from` on, in order.
pub open spec fn sources_from(text: Seq<char>, from: int) -> Seq<Seq<char>>
    decreases text.len() - from,
    via sources_decrease
{
    match next_diagram(text, from) {
        Some(d) => seq![text.subrange(d.code_start, d.code_end)] + sources_from(text, d.end),
        None => Seq::empty(),
    }
}

#[via_fn]
proof fn sources_decrease(text: Seq<char>, from: int) {
    lemma_next_diagram(text, from);
}

/// The file name of the image of a file's diagram: the stem of the file's
/// name, `-mermaid-`, the number of the diagram in the file, `.svg`.
pub open spec fn image_name(stem: Seq<char>, number: nat) -> Seq<char> {
    stem + IMAGE_INFIX@ + decimal(number) + IMAGE_ENDING@
}

/// The name of the file in which a diagram source is handed to the renderer.
pub open spec fn temp_name(number: nat) -> Seq<char> {
    TEMP_PREFIX@ + decimal(number) + TEMP_ENDING@
}

/// The line that shows an image, with an empty line before it.
pub open spec fn image_link(stem: Seq<char>, number: nat) -> Seq<char> {
    LINK_OPEN@ + image_name(stem, number) + LINK_CLOSE@
}

/// Whether diagram number `k`, counted from 0, came out of the renderer.
pub open spec fn was_rendered(rendered: Seq<bool>, k: int) -> bool {
    0 <= k < rendered.len() && rendered[k]
}

/// What is put behind a diagram: nothing where it was not rendered; else
/// the image link, behind a newline where the diagram does not end in one.
pub open spec fn addition(d: Diagram, stem: Seq<char>, rendered: Seq<bool>, k: int) -> Seq<char> {
    if was_rendered(rendered, k) {
        if d.newline {
            image_link(stem, (k + 1) as nat)
        } else {
            seq!['\n'] + image_link(stem, (k + 1) as nat)
        }
    } else {
        Seq::empty()
    }
}

/// The text from `from` on with the image links put in, where `done`
/// diagrams stand before `from`.
pub open spec fn linked_from(
    text: Seq<char>,
    stem: Seq<char>,
    rendered: Seq<bool>,
    from: int,
    done: int,
) -> Seq<char>
    decreases text.len() - from,
    via linked_decrease
{
    match next_diagram(text, from) {
        Some(d) => text.subrange(from, d.end) + addition(d, stem, rendered, done) + linked_from(
            text,
            stem,
            rendered,
            d.end,
            done + 1,
        ),
        None => text.skip(from),
    }
}

#[via_fn]
proof fn linked_decrease(
    text: Seq<char>,
    stem: Seq<char>,
    rendered: Seq<bool>,
    from: int,
    done: int,
) {
    lemma_next_diagram(text, from);
}

/// The index of the last `.` of a name; -1 where it has none.
pub open spec fn last_dot(name: Seq<char>) -> int
    decreases name.len(),
{
    if name.len() == 0 {
        -1
    } else if name.last() == '.' {
        name.len() - 1
    } else {
        last_dot(name.drop_last())
    }
}

/// The stem of a file name: what stands before its last `.`; the whole
/// name where it has no `.` or only one, at its start.
pub open spec fn stem_of(name: Seq<char>) -> Seq<char> {
    if last_dot(name) <= 0 {
        name
    } else {
        name.take(last_dot(name))
    }
}

/// A diagram lies behind `from`, inside the text, and is not empty.
proof fn lemma_next_diagram(text: Seq<char>, from: int)
    ensures
        next_diagram(text, from) matches Some(d) ==> 0 <= from <= d.start < d.code_start
            <= d.code_end < d.end <= text.len(),
{
    reveal_strlit("```mermaid\n");
    reveal_strlit("\n```");
    lemma_find(text, FENCE_OPEN@, from);
    match find(text, FENCE_OPEN@, from) {
        Some(start) => {
            lemma_find(text, FENCE_CLOSE@, start + FENCE_OPEN@.len());
        },
        None => {},
    }
}

/// A diagram in a vector of characters.
struct Found {
    code_start: usize,
    code_end: usize,
    end: usize,
    newline: bool,
}

/// Finds [`next_diagram`].
fn find_diagram(text: &Vec<char>, from: usize, open: &Vec<char>, close: &Vec<char>) -> (r: Option<
    Found,
>)
    requires
        from <= text.len(),
        open@ == FENCE_OPEN@,
        close@ == FENCE_CLOSE@,
    ensures
        match r {
            Some(f) => next_diagram(text@, from as int) matches Some(d) && d.code_start
                == f.code_start && d.code_end == f.code_end && d.end == f.end && d.newline
                == f.newline && from < f.end <= text.len() && f.code_start <= f.code_end,
            None => next_diagram(text@, from as int) is None,
        },
{
    proof {
        lemma_next_diagram(text@, from as int);
        reveal_strlit("```mermaid\n");
        reveal_strlit("\n```");
    }
    let start = match find_from(text, open, from) {
        Some(i) => i,
        None => {
            return None;
        },
    };
    proof {
        lemma_find(text@, FENCE_OPEN@, from as int);
    }
    let code_start = start + open.len();
    let code_end = match find_from(text, close, code_start) {
        Some(i) => i,
        None => {
            return None;
        },
    };
    proof {
        lemma_find(text@, FENCE_CLOSE@, code_start as int);
    }
    let fence_end = code_end + close.len();
    let newline = fence_end < text.len() && text[fence_end] == '\n';
    let end = if newline {
        fence_end + 1
    } else {
        fence_end
    };
    Some(Found { code_start, code_end, end, newline })
}

/// The diagram sources of a markdown text, in order. A diagram source
/// begins with a line that opens a `mermaid` fence and runs to the first
/// closing fence at the start of a later line; the source is what stands
/// between those two lines. The search for the next diagram goes on behind
/// the closing fence, and behind the newline after it if there is one.
pub fn diagram_sources(content: &str) -> (sources: Vec<String>)
    ensures
        sources.deep_view() == sources_from(content@, 0),
{
    let text = chars_of(content);
    let open = chars_of(FENCE_OPEN);
    let close = chars_of(FENCE_CLOSE);
    let mut sources: Vec<String> = Vec::new();
    let mut from: usize = 0;
    assert(sources.deep_view() =~= Seq::<Seq<char>>::empty());
    assert(Seq::<Seq<char>>::empty() + sources_from(text@, 0) == sources_from(text@, 0));
    loop
        invariant
            from <= text.len(),
            text@ == content@,
            open@ == FENCE_OPEN@,
            close@ == FENCE_CLOSE@,
            sources.deep_view() + sources_from(text@, from as int) == sources_from(text@, 0),
        decreases text.len() - from,
    {
        let ghost before = sources.deep_view();
        match find_diagram(&text, from, &open, &close) {
            Some(f) => {
                let code = string_of(&subvec(&text, f.code_start, f.code_end));
                let ghost cv = code@;
                sources.push(code);
                proof {
                    assert(sources.deep_view() =~= before.push(cv));
                    assert(before.push(cv) + sources_from(text@, f.end as int) =~= before + (
                    seq![cv] + sources_from(text@, f.end as int)));
                }
                from = f.end;
            },
            None => {
                assert(before + Seq::<Seq<char>>::empty() == before);
                return sources;
            },
        }
    }
}

/// [`image_name`] on vectors.
fn image_name_chars(stem: &Vec<char>, number: usize) -> (r: Vec<char>)
    ensures
        r@ == image_name(stem@, number as nat),
{
    let mut r: Vec<char> = Vec::new();
    push_all(&mut r, stem);
    push_all(&mut r, &chars_of(IMAGE_INFIX));
    push_all(&mut r, &decimal_of(number));
    push_all(&mut r, &chars_of(IMAGE_ENDING));
    assert(r@ =~= image_name(stem@, number as nat));
    r
}

/// The file name of the image of a diagram: `{stem}-mermaid-{number}.svg`,
/// the number written in base ten.
pub fn svg_name(stem: &str, number: usize) -> (name: String)
    ensures
        name@ == image_name(stem@, number as nat),
{
    string_of(&image_name_chars(&chars_of(stem), number))
}

/// The name of the file in which a diagram source is handed to the
/// renderer: `__tmp_mermaid_{number}.mmd`.
pub fn temp_source_name(number: usize) -> (name: String)
    ensures
        name@ == temp_name(number as nat),
{
    let mut r = chars_of(TEMP_PREFIX);
    push_all(&mut r, &decimal_of(number));
    push_all(&mut r, &chars_of(TEMP_ENDING));
    string_of(&r)
}

/// The stem of a file name: the name up to its last `.`; the whole name
/// where it has no `.`, or none but a first character `.`.
pub fn file_stem(name: &str) -> (stem: String)
    ensures
        stem@ == stem_of(name@),
{
    let v = chars_of(name);
    let mut k: usize = v.len();
    proof {
        assert(v@.take(k as int) == v@);
    }
    while k > 0 && v[k - 1] != '.'
        invariant
            k <= v.len(),
            last_dot(v@) == last_dot(v@.take(k as int)),
        decreases k,
    {
        proof {
            let cur = v@.take(k as int);
            assert(cur.drop_last() == v@.take(k - 1));
            assert(cur.last() == v@[k - 1]);
        }
        k -= 1;
    }
    proof {
        let cur = v@.take(k as int);
        if k > 0 {
            assert(cur.last() == v@[k - 1]);
        }
        assert(last_dot(v@) == k - 1);
    }
    if k <= 1 {
        string_of(&v)
    } else {
        assert(v@.subrange(0, k - 1) == v@.take(k - 1));
        string_of(&subvec(&v, 0, k - 1))
    }
}

/// A markdown text with the image links put in. The diagrams are counted
/// from 1 as [`diagram_sources`] finds them; diagram `n` was rendered if
/// `rendered[n - 1]` is there and set. Behind each rendered diagram stands
/// an empty line and the line `![Mermaid Diagram]({stem}-mermaid-{n}.svg)`;
/// the diagram itself stays, and ends in a newline now if it did not
/// before. A diagram that was not rendered stays as it is, and so does all
/// other text.
pub fn with_image_links(content: &str, stem: &str, rendered: &Vec<bool>) -> (text: String)
    ensures
        text@ == linked_from(content@, stem@, rendered@, 0, 0),
{
    let text = chars_of(content);
    let stem_chars = chars_of(stem);
    let open = chars_of(FENCE_OPEN);
    let close = chars_of(FENCE_CLOSE);
    let link_open = chars_of(LINK_OPEN);
    let link_close = chars_of(LINK_CLOSE);
    let ghost whole = linked_from(text@, stem@, rendered@, 0, 0);
    let mut out: Vec<char> = Vec::new();
    let mut from: usize = 0;
    let mut done: usize = 0;
    assert(out@ + whole == whole);
    loop
        invariant
            done <= from <= text.len(),
            text@ == content@,
            stem_chars@ == stem@,
            open@ == FENCE_OPEN@,
            close@ == FENCE_CLOSE@,
            link_open@ == LINK_OPEN@,
            link_close@ == LINK_CLOSE@,
            whole == linked_from(text@, stem@, rendered@, 0, 0),
            out@ + linked_from(text@, stem@, rendered@, from as int, done as int) == whole,
        decreases text.len() - from,
    {
        let ghost before = out@;
        match find_diagram(&text, from, &open, &close) {
            Some(f) => {
                let ghost d = next_diagram(text@, from as int)->0;
                push_all(&mut out, &subvec(&text, from, f.end));
                let ghost mid = out@;
                if done < rendered.len() && rendered[done] {
                    if !f.newline {
                        out.push('\n');
                    }
                    push_all(&mut out, &link_open);
                    push_all(&mut out, &image_name_chars(&stem_chars, done + 1));
                    push_all(&mut out, &link_close);
                    assert(out@ =~= mid + addition(d, stem@, rendered@, done as int));
                } else {
                    assert(out@ =~= mid + addition(d, stem@, rendered@, done as int));
                }
                proof {
                    let tail = linked_from(text@, stem@, rendered@, f.end as int, done + 1);
                    let piece = text@.subrange(from as int, f.end as int);
                    let add = addition(d, stem@, rendered@, done as int);
                    assert(out@ + tail =~= before + (piece + add + tail));
                }
                from = f.end;
                done += 1;
            },
            None => {
                push_all(&mut out, &subvec(&text, from, text.len()));
                assert(text@.skip(from as int) == text@.subrange(from as int, text.len() as int));
                return string_of(&out);
            },
        }
    }
}

} // verus!
