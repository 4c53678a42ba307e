//! From source text to documentation blocks: the doc-comment lines of a
//! source file, the grammar of the tags that stand in them, and the scan that
//! pairs each opening tag with its closing tag.

use crate::pattern::{regex_is_match, regex_match};
use crate::text::{
    chars_of, contains_between, decimal_value, find_any, first_of, join, join_range,
    leading_whitespace, occurs_at, parse_decimal, same_text, skip_whitespace, split, split_chars,
    string_of, subvec, texts, trim, trim_bounds, trim_start, trimmed,
};
use vstd::prelude::*;

verus! {

/// One documentation block: the file it is written to, its place in the
/// summary if the tag gave one, the label of its origin, and its text.
#[derive(Debug, Clone, PartialEq, Eq)]
pub struct MarkerBlock {
    pub target_md: String,
    pub order: Option<usize>,
    pub source_ref: String,
    pub content: String,
}

/// A [`MarkerBlock`] as plain values.
pub struct MarkerBlockView {
    pub target_md: Seq<char>,
    pub order: Option<usize>,
    pub source_ref: Seq<char>,
    pub content: Seq<char>,
}

impl View for MarkerBlock {
    type V = MarkerBlockView;

    open spec fn view(&self) -> MarkerBlockView {
        MarkerBlockView {
            target_md: self.target_md@,
            order: self.order,
            source_ref: self.source_ref@,
            content: self.content@,
        }
    }
}

/// The views of a list of blocks.
pub open spec fn block_views(blocks: Seq<MarkerBlock>) -> Seq<MarkerBlockView> {
    Seq::new(blocks.len(), |i: int| blocks[i]@)
}

/// The doc-comment markers: `///` and `//!`.
pub open spec fn is_comment_marker(m: Seq<char>) -> bool {
    m == seq!['/', '/', '/'] || m == seq!['/', '/', '!']
}

/// What a source line contributes to the documentation: the trimmed text
/// behind its doc-comment marker, where its first visible characters are one.
pub open spec fn comment_of(line: Seq<char>) -> Option<Seq<char>> {
    let s = trim_start(line);
    if s.len() >= 3 && is_comment_marker(s.take(3)) {
        Some(trim(s.skip(3)))
    } else {
        None
    }
}

/// The contributions of the lines that have one, in order.
pub open spec fn comments_of(lines: Seq<Seq<char>>) -> Seq<Seq<char>>
    decreases lines.len(),
{
    if lines.len() == 0 {
        Seq::empty()
    } else {
        let before = comments_of(lines.drop_last());
        match comment_of(lines.last()) {
            Some(c) => before.push(c),
            None => before,
        }
    }
}

/// The documentation lines of a source text.
pub open spec fn doc_lines(source: Seq<char>) -> Seq<Seq<char>> {
    comments_of(split(source, seq!['\n']))
}

/// The documentation of a source text, one line per doc-comment line.
pub open spec fn doc_text(source: Seq<char>) -> Seq<char> {
    join(doc_lines(source), seq!['\n'])
}

/// The contribution of one source line.
fn comment_in(line: &Vec<char>) -> (r: Option<Vec<char>>)
    ensures
        match r {
            Some(c) => comment_of(line@) == Some(c@),
            None => comment_of(line@) is None,
        },
{
    let n = line.len();
    let a = skip_whitespace(line, 0, n);
    proof {
        assert(line@.subrange(0, n as int) == line@);
        assert(trim_start(line@) == line@.skip(a as int));
    }
    if n - a < 3 {
        return None;
    }
    let ghost s = line@.skip(a as int);
    proof {
        assert(s.take(3) =~= seq![line@[a as int], line@[a + 1], line@[a + 2]]);
    }
    if line[a] == '/' && line[a + 1] == '/' && (line[a + 2] == '/' || line[a + 2] == '!') {
        let (lo, hi) = trim_bounds(line, a + 3, n);
        proof {
            assert(s.skip(3) == line@.subrange(a + 3, n as int));
        }
        Some(subvec(line, lo, hi))
    } else {
        proof {
            let m = s.take(3);
            assert(m[0] == line@[a as int] && m[1] == line@[a + 1] && m[2] == line@[a + 2]);
            assert(seq!['/', '/', '/'][0] == '/' && seq!['/', '/', '/'][1] == '/' && seq![
                '/',
                '/',
                '/',
            ][2] == '/');
            assert(seq!['/', '/', '!'][0] == '/' && seq!['/', '/', '!'][1] == '/' && seq![
                '/',
                '/',
                '!',
            ][2] == '!');
        }
        None
    }
}

/// The documentation lines of a source text.
pub(crate) fn doc_lines_of(source: &Vec<char>) -> (r: Vec<Vec<char>>)
    ensures
        texts(r@) == doc_lines(source@),
{
    let mut newline: Vec<char> = Vec::new();
    newline.push('\n');
    assert(newline@ == seq!['\n']);
    let lines = split_chars(source, &newline);
    let ghost all = texts(lines@);
    let mut r: Vec<Vec<char>> = Vec::new();
    let mut i: usize = 0;
    assert(texts(r@) =~= comments_of(all.take(0)));
    while i < lines.len()
        invariant
            i <= lines.len(),
            all == texts(lines@),
            texts(r@) == comments_of(all.take(i as int)),
        decreases lines.len() - i,
    {
        let ghost before = texts(r@);
        proof {
            let now = all.take(i + 1);
            assert(now.drop_last() == all.take(i as int));
            assert(now.last() == lines@[i as int]@);
        }
        match comment_in(&lines[i]) {
            Some(c) => {
                let ghost cv = c@;
                r.push(c);
                assert(texts(r@) =~= before.push(cv));
            },
            None => {},
        }
        i += 1;
    }
    assert(all.take(lines.len() as int) == all);
    r
}

/// The documentation of a source text: of every line whose first visible
/// characters are `///` or `//!`, what follows that marker, trimmed; these
/// joined by newlines, in the order of the source. Other lines leave no
/// trace.
pub fn extract_rustdoc_comments(source: &str) -> (doc: String)
    ensures
        doc@ == doc_text(source@),
{
    let chars = chars_of(source);
    let lines = doc_lines_of(&chars);
    let mut newline: Vec<char> = Vec::new();
    newline.push('\n');
    assert(newline@ == seq!['\n']);
    let joined = join_range(&lines, 0, lines.len(), &newline);
    assert(texts(lines@).subrange(0, lines.len() as int) == texts(lines@));
    string_of(&joined)
}

/// The pattern of a tag name: word characters, hyphens and dots, at least one.
pub const NAME_PATTERN: &'static str = "^[\\w\\-.]+$";

/// The pattern of an order: decimal digits, at least one.
pub const ORDER_PATTERN: &'static str = "^\\d+$";

/// Whether `regex` takes `name` for a tag name.
pub open spec fn is_tag_name(name: Seq<char>) -> bool {
    regex_match(NAME_PATTERN@, name) == Some(true)
}

/// Whether `regex` takes `digits` for a run of decimal digits.
pub open spec fn is_digit_run(digits: Seq<char>) -> bool {
    regex_match(ORDER_PATTERN@, digits) == Some(true)
}

/// The name of the tag whose blocks are gathered for the README.
pub const README_TAG: &'static str = "readme";

/// The text of an optional string.
pub open spec fn optional_text(s: Option<String>) -> Option<Seq<char>> {
    match s {
        Some(t) => Some(t@),
        None => None,
    }
}

/// The pieces of a line that has the shape of an opening tag, before anyone
/// has looked at what the name and the order are made of.
#[derive(Debug, Clone, PartialEq, Eq)]
pub struct TagParts {
    pub name: String,
    pub digits: Option<String>,
    pub source_ref: String,
}

/// [`TagParts`] as plain values.
pub struct TagPartsView {
    pub name: Seq<char>,
    pub digits: Option<Seq<char>>,
    pub source_ref: Seq<char>,
}

impl View for TagParts {
    type V = TagPartsView;

    open spec fn view(&self) -> TagPartsView {
        TagPartsView {
            name: self.name@,
            digits: optional_text(self.digits),
            source_ref: self.source_ref@,
        }
    }
}

/// An opening tag: the name, the order if one was given and fits a `usize`,
/// and the source reference (empty where the line has none).
#[derive(Debug, Clone, PartialEq, Eq)]
pub struct OpenTag {
    pub name: String,
    pub order: Option<usize>,
    pub source_ref: String,
}

/// [`OpenTag`] as plain values.
pub struct OpenTagView {
    pub name: Seq<char>,
    pub order: Option<usize>,
    pub source_ref: Seq<char>,
}

impl View for OpenTag {
    type V = OpenTagView;

    open spec fn view(&self) -> OpenTagView {
        OpenTagView { name: self.name@, order: self.order, source_ref: self.source_ref@ }
    }
}

/// What may follow the `>` of an opening tag: nothing but whitespace, which
/// gives the empty reference, or one quoted text with whitespace around it,
/// which gives the text between the quotes. The text is not empty and holds
/// no quote.
pub open spec fn trailing_reference(rest: Seq<char>) -> Option<Seq<char>> {
    let r = trim(rest);
    if r.len() == 0 {
        Some(Seq::empty())
    } else if r.len() >= 3 && r.first() == '"' && r.last() == '"' && !r.subrange(
        1,
        r.len() - 1,
    ).contains('"') {
        Some(r.subrange(1, r.len() - 1))
    } else {
        None
    }
}

/// The shape of an opening tag. After leading whitespace stands `<`; the
/// name runs from there to the first `(` or `>`; behind a `(` the digits run
/// to the first `)`, which `>` must follow at once; behind the `>` stands
/// what [`trailing_reference`] admits.
pub open spec fn raw_open_tag(line: Seq<char>) -> Option<TagPartsView> {
    let a = leading_whitespace(line) as int;
    let j = first_of(line, seq!['(', '>'], a + 1);
    let k = first_of(line, seq![')'], j + 1);
    if a >= line.len() || line[a] != '<' || j >= line.len() {
        None
    } else if line[j] == '>' {
        match trailing_reference(line.skip(j + 1)) {
            Some(r) => Some(
                TagPartsView { name: line.subrange(a + 1, j), digits: None, source_ref: r },
            ),
            None => None,
        }
    } else if k + 1 < line.len() && line[k + 1] == '>' {
        match trailing_reference(line.skip(k + 2)) {
            Some(r) => Some(
                TagPartsView {
                    name: line.subrange(a + 1, j),
                    digits: Some(line.subrange(j + 1, k)),
                    source_ref: r,
                },
            ),
            None => None,
        }
    } else {
        None
    }
}

/// The tag that the pieces make once the name and the digits have been
/// judged: none unless the name is one and the digits, where there are any,
/// are digits. Digits that are no `usize` in base ten leave the tag without
/// an order.
pub open spec fn checked_open_tag(parts: TagPartsView, name_ok: bool, digits_ok: bool) -> Option<
    OpenTagView,
> {
    if name_ok && (parts.digits is Some ==> digits_ok) {
        Some(
            OpenTagView {
                name: parts.name,
                order: match parts.digits {
                    Some(d) => decimal_value(d),
                    None => None,
                },
                source_ref: parts.source_ref,
            },
        )
    } else {
        None
    }
}

/// The opening tag that a line is, if it is one.
pub open spec fn open_tag(line: Seq<char>) -> Option<OpenTagView> {
    match raw_open_tag(line) {
        Some(parts) => checked_open_tag(
            parts,
            is_tag_name(parts.name),
            parts.digits is Some && is_digit_run(parts.digits->0),
        ),
        None => None,
    }
}

/// Whether a line is the closing tag of `name`: `</name>` and whitespace
/// around it.
pub open spec fn is_closing_tag(line: Seq<char>, name: Seq<char>) -> bool {
    trim(line) == seq!['<', '/'] + name + seq!['>']
}

/// Reads what follows the `>` of an opening tag, from index `from` on.
fn reference_after(line: &Vec<char>, from: usize) -> (r: Option<String>)
    requires
        from <= line.len(),
    ensures
        optional_text(r) == trailing_reference(line@.skip(from as int)),
{
    let n = line.len();
    let (lo, hi) = trim_bounds(line, from, n);
    let ghost t = line@.subrange(lo as int, hi as int);
    proof {
        assert(line@.skip(from as int) == line@.subrange(from as int, n as int));
        assert(t == trim(line@.skip(from as int)));
    }
    if lo == hi {
        let r = String::new();
        assert(r@ == Seq::<char>::empty());
        return Some(r);
    }
    if hi - lo < 3 || line[lo] != '"' || line[hi - 1] != '"' {
        assert(t.first() == line@[lo as int]);
        assert(t.last() == line@[hi - 1]);
        return None;
    }
    proof {
        assert(t.first() == line@[lo as int]);
        assert(t.last() == line@[hi - 1]);
        assert(t.subrange(1, t.len() - 1) == line@.subrange(lo + 1, hi - 1));
    }
    if contains_between(line, lo + 1, hi - 1, '"') {
        return None;
    }
    Some(string_of(&subvec(line, lo + 1, hi - 1)))
}

/// Splits a line that has the shape of an opening tag into its pieces.
fn scan_open_tag(line: &Vec<char>) -> (r: Option<TagParts>)
    ensures
        match r {
            Some(p) => raw_open_tag(line@) == Some(p@),
            None => raw_open_tag(line@) is None,
        },
{
    let n = line.len();
    let a = skip_whitespace(line, 0, n);
    proof {
        assert(line@.subrange(0, n as int) == line@);
    }
    if a >= n || line[a] != '<' {
        return None;
    }
    let mut ends: Vec<char> = Vec::new();
    ends.push('(');
    ends.push('>');
    assert(ends@ == seq!['(', '>']);
    let j = find_any(line, &ends, a + 1);
    if j >= n {
        return None;
    }
    if line[j] == '>' {
        match reference_after(line, j + 1) {
            Some(source_ref) => {
                let name = string_of(&subvec(line, a + 1, j));
                Some(TagParts { name, digits: None, source_ref })
            },
            None => None,
        }
    } else {
        let mut close: Vec<char> = Vec::new();
        close.push(')');
        assert(close@ == seq![')']);
        let k = find_any(line, &close, j + 1);
        if n - k >= 2 && line[k + 1] == '>' {
            match reference_after(line, k + 2) {
                Some(source_ref) => {
                    let name = string_of(&subvec(line, a + 1, j));
                    let digits = string_of(&subvec(line, j + 1, k));
                    Some(TagParts { name, digits: Some(digits), source_ref })
                },
                None => None,
            }
        } else {
            None
        }
    }
}

/// Whether a line is the closing tag of `name`.
fn closes(line: &Vec<char>, name: &Vec<char>) -> (b: bool)
    ensures
        b == is_closing_tag(line@, name@),
{
    let n = line.len();
    let (lo, hi) = trim_bounds(line, 0, n);
    let ghost t = line@.subrange(lo as int, hi as int);
    let ghost want = seq!['<', '/'] + name@ + seq!['>'];
    proof {
        assert(line@.subrange(0, n as int) == line@);
        assert(want.len() == name@.len() + 3);
    }
    if hi - lo < 3 || hi - lo - 3 != name.len() {
        return false;
    }
    proof {
        assert(t[0] == line@[lo as int]);
        assert(t[1] == line@[lo + 1]);
        assert(t[t.len() - 1] == line@[hi - 1]);
        assert(want[0] == '<' && want[1] == '/' && want[want.len() - 1] == '>');
    }
    if line[lo] != '<' || line[lo + 1] != '/' || line[hi - 1] != '>' {
        return false;
    }
    let inner = occurs_at(line, lo + 2, name);
    proof {
        let rest = line@.skip(lo + 2);
        if inner {
            assert forall|i: int| 0 <= i < t.len() implies t[i] == want[i] by {
                if 2 <= i < t.len() - 1 {
                    assert(rest.subrange(0, name@.len() as int)[i - 2] == line@[lo + i]);
                }
            }
            assert(t =~= want);
        } else {
            if t == want {
                assert forall|i: int| 0 <= i < name@.len() implies name@[i] == rest.subrange(
                    0,
                    name@.len() as int,
                )[i] by {
                    assert(want[i + 2] == name@[i]);
                    assert(t[i + 2] == line@[lo + 2 + i]);
                }
                assert(name@ =~= rest.subrange(0, name@.len() as int));
            }
        }
    }
    inner
}

/// The pieces of a line that has the shape of an opening tag: `<`, a name up
/// to the first `(` or `>`, digits in round brackets if a `(` came first,
/// `>`, and behind it at most one quoted source reference. Whitespace may
/// stand before the `<`, behind the `>` and at the end of the line, and
/// nowhere else outside the quotes. Whether the name and the digits are made
/// of the right characters is not looked at here.
pub fn split_open_tag(line: &str) -> (r: Option<TagParts>)
    ensures
        match r {
            Some(p) => raw_open_tag(line@) == Some(p@),
            None => raw_open_tag(line@) is None,
        },
{
    scan_open_tag(&chars_of(line))
}

/// Makes the opening tag out of its pieces and the two judgements on them.
pub fn checked_tag(parts: TagParts, name_ok: bool, digits_ok: bool) -> (r: Option<OpenTag>)
    ensures
        match r {
            Some(tag) => checked_open_tag(parts@, name_ok, digits_ok) == Some(tag@),
            None => checked_open_tag(parts@, name_ok, digits_ok) is None,
        },
{
    let has_digits = parts.digits.is_some();
    if name_ok && (!has_digits || digits_ok) {
        let order = match &parts.digits {
            Some(d) => parse_decimal(&chars_of(d.as_str())),
            None => None,
        };
        Some(OpenTag { name: parts.name, order, source_ref: parts.source_ref })
    } else {
        None
    }
}

/// Asks `regex` whether `text` matches `pattern`; a pattern that does not
/// compile matches nothing.
fn matches_pattern(pattern: &str, text: &str) -> (b: bool)
    ensures
        b == (regex_match(pattern@, text@) == Some(true)),
{
    match regex_is_match(pattern, text) {
        Some(b) => b,
        None => false,
    }
}

/// The opening tag that a line of characters is, if it is one.
fn open_tag_in(line: &Vec<char>) -> (r: Option<OpenTag>)
    ensures
        match r {
            Some(tag) => open_tag(line@) == Some(tag@),
            None => open_tag(line@) is None,
        },
{
    match scan_open_tag(line) {
        Some(parts) => {
            let name_ok = matches_pattern(NAME_PATTERN, parts.name.as_str());
            let digits_ok = match &parts.digits {
                Some(d) => matches_pattern(ORDER_PATTERN, d.as_str()),
                None => false,
            };
            checked_tag(parts, name_ok, digits_ok)
        },
        None => None,
    }
}

/// The opening tag that a line is, if it is one: a line of the shape that
/// [`split_open_tag`] reads, whose name `regex` matches against
/// [`NAME_PATTERN`] and whose digits, if it has any, against
/// [`ORDER_PATTERN`].
pub fn parse_open_tag(line: &str) -> (r: Option<OpenTag>)
    ensures
        match r {
            Some(tag) => open_tag(line@) == Some(tag@),
            None => open_tag(line@) is None,
        },
{
    open_tag_in(&chars_of(line))
}

/// Whether `line` is the closing tag of `name`: the text `</name>`, with
/// nothing but whitespace before and behind it.
pub fn is_closing_line(line: &str, name: &str) -> (b: bool)
    ensures
        b == is_closing_tag(line@, name@),
{
    closes(&chars_of(line), &chars_of(name))
}

/// The raw text of one region tagged for the README, its two tag lines
/// included.
#[derive(Debug, Clone, PartialEq, Eq)]
pub struct ReadmeBlock {
    pub content: String,
}

impl View for ReadmeBlock {
    type V = Seq<char>;

    open spec fn view(&self) -> Seq<char> {
        self.content@
    }
}

/// The views of a list of README blocks.
pub open spec fn readme_views(blocks: Seq<ReadmeBlock>) -> Seq<Seq<char>> {
    Seq::new(blocks.len(), |i: int| blocks[i]@)
}

/// How many lines stand before the first closing tag of `name`; all of
/// them, where none closes it.
pub open spec fn lines_before_close(lines: Seq<Seq<char>>, name: Seq<char>) -> nat
    decreases lines.len(),
{
    if lines.len() == 0 || is_closing_tag(lines[0], name) {
        0
    } else {
        1 + lines_before_close(lines.skip(1), name)
    }
}

/// The block that an opening tag and the lines of its body make.
pub open spec fn block_of(tag: OpenTagView, body: Seq<Seq<char>>) -> MarkerBlockView {
    MarkerBlockView {
        target_md: tag.name,
        order: tag.order,
        source_ref: tag.source_ref,
        content: trim(join(body, seq!['\n'])),
    }
}

/// The documentation blocks of a sequence of lines, read from the first line
/// on. A line that is no opening tag is passed by. So is an opening tag that
/// no later line closes. An opening tag with a closing line takes the lines
/// between the two as its body, and the reading goes on behind the closing
/// line; the block is listed unless its name is that of the README tag.
pub open spec fn marker_blocks_in(lines: Seq<Seq<char>>) -> Seq<MarkerBlockView>
    decreases lines.len(),
{
    if lines.len() == 0 {
        Seq::empty()
    } else {
        match open_tag(lines[0]) {
            Some(tag) => {
                let n = lines_before_close(lines.skip(1), tag.name) as int;
                if n + 1 >= lines.len() {
                    marker_blocks_in(lines.skip(1))
                } else if tag.name == README_TAG@ {
                    marker_blocks_in(lines.skip(n + 2))
                } else {
                    seq![block_of(tag, lines.subrange(1, n + 1))] + marker_blocks_in(
                        lines.skip(n + 2),
                    )
                }
            },
            None => marker_blocks_in(lines.skip(1)),
        }
    }
}

/// The documentation blocks of a source text.
pub open spec fn marker_blocks(source: Seq<char>) -> Seq<MarkerBlockView> {
    marker_blocks_in(doc_lines(source))
}

/// Whether a line opens a README region.
pub open spec fn opens_readme(line: Seq<char>) -> bool {
    open_tag(line) matches Some(tag) && tag.name == README_TAG@
}

/// The README regions of a sequence of lines, read from the first line on.
/// Only opening tags of the README name count; one that a later line closes
/// gives the lines from the opening to the closing line, both included and
/// joined by newlines, and the reading goes on behind the closing line.
pub open spec fn readme_blocks_in(lines: Seq<Seq<char>>) -> Seq<Seq<char>>
    decreases lines.len(),
{
    if lines.len() == 0 {
        Seq::empty()
    } else if opens_readme(lines[0]) {
        let n = lines_before_close(lines.skip(1), README_TAG@) as int;
        if n + 1 >= lines.len() {
            readme_blocks_in(lines.skip(1))
        } else {
            seq![join(lines.take(n + 2), seq!['\n'])] + readme_blocks_in(lines.skip(n + 2))
        }
    } else {
        readme_blocks_in(lines.skip(1))
    }
}

/// The README regions of a source text.
pub open spec fn readme_blocks(source: Seq<char>) -> Seq<Seq<char>> {
    readme_blocks_in(doc_lines(source))
}

/// The index of the first line at or after `from` that closes `name`; the
/// number of lines, where none does.
fn find_close(lines: &Vec<Vec<char>>, from: usize, name: &Vec<char>) -> (k: usize)
    requires
        from <= lines.len(),
    ensures
        from <= k <= lines.len(),
        k - from == lines_before_close(texts(lines@).skip(from as int), name@),
{
    let ghost all = texts(lines@);
    let mut k: usize = from;
    while k < lines.len() && !closes(&lines[k], name)
        invariant
            from <= k <= lines.len(),
            all == texts(lines@),
            lines_before_close(all.skip(from as int), name@) == (k - from) + lines_before_close(
                all.skip(k as int),
                name@,
            ),
        decreases lines.len() - k,
    {
        proof {
            assert(all.skip(k as int)[0] == lines@[k as int]@);
            assert(all.skip(k as int).skip(1) == all.skip(k + 1));
        }
        k += 1;
    }
    proof {
        if k < lines.len() {
            assert(all.skip(k as int)[0] == lines@[k as int]@);
        }
    }
    k
}

/// A vector that holds a single newline.
fn newline() -> (r: Vec<char>)
    ensures
        r@ == seq!['\n'],
{
    let mut r: Vec<char> = Vec::new();
    r.push('\n');
    r
}

/// The documentation blocks of a source text. The doc-comment lines are
/// read in order. Each opening tag that a later line closes gives one block:
/// named and ordered by the tag, labelled with its source reference, holding
/// the lines between the two tags, joined by newlines and trimmed. Reading
/// goes on behind the closing line, so a tag inside a block is part of that
/// block's text. An opening tag that nothing closes is passed by, and so is
/// every other line. Regions tagged for the README are read past in the same
/// way, but are not listed here.
pub fn extract_marker_blocks(source: &str) -> (blocks: Vec<MarkerBlock>)
    ensures
        block_views(blocks@) == marker_blocks(source@),
{
    let lines = doc_lines_of(&chars_of(source));
    let sep = newline();
    let readme = chars_of(README_TAG);
    let ghost all = texts(lines@);
    let mut blocks: Vec<MarkerBlock> = Vec::new();
    let mut i: usize = 0;
    proof {
        assert(all.skip(0) == all);
        assert(block_views(blocks@) + marker_blocks_in(all) == marker_blocks_in(all));
    }
    while i < lines.len()
        invariant
            i <= lines.len(),
            all == texts(lines@),
            sep@ == seq!['\n'],
            readme@ == README_TAG@,
            block_views(blocks@) + marker_blocks_in(all.skip(i as int)) == marker_blocks_in(all),
        decreases lines.len() - i,
    {
        let ghost rest = all.skip(i as int);
        let ghost done = block_views(blocks@);
        proof {
            assert(rest[0] == lines@[i as int]@);
            assert(rest.skip(1) == all.skip(i + 1));
        }
        match open_tag_in(&lines[i]) {
            Some(tag) => {
                let name = chars_of(tag.name.as_str());
                let j = find_close(&lines, i + 1, &name);
                if j < lines.len() {
                    proof {
                        assert(rest.skip(j - i + 1) == all.skip(j + 1));
                        assert(rest.subrange(1, j - i) == all.subrange(i + 1, j as int));
                    }
                    if !same_text(&name, &readme) {
                        let body = join_range(&lines, i + 1, j, &sep);
                        let content = string_of(&trimmed(&body));
                        let block = MarkerBlock {
                            target_md: tag.name,
                            order: tag.order,
                            source_ref: tag.source_ref,
                            content,
                        };
                        let ghost bv = block@;
                        blocks.push(block);
                        proof {
                            assert(block_views(blocks@) =~= done.push(bv));
                            assert(done.push(bv) + marker_blocks_in(all.skip(j + 1)) =~= done + (
                            seq![bv] + marker_blocks_in(all.skip(j + 1))));
                        }
                    }
                    i = j + 1;
                } else {
                    i += 1;
                }
            },
            None => {
                i += 1;
            },
        }
    }
    proof {
        assert(all.skip(lines.len() as int).len() == 0);
        assert(block_views(blocks@) + Seq::<MarkerBlockView>::empty() == block_views(blocks@));
    }
    blocks
}

/// The README regions of a source text. The doc-comment lines are read in
/// order; each opening tag named `readme` that a later line closes gives one
/// block, which holds the lines from the opening to the closing tag, both
/// included, joined by newlines. Reading goes on behind the closing line.
/// Every other line is passed by, other tags too: a README region may stand
/// inside a documentation block.
pub fn extract_readme_blocks(source: &str) -> (blocks: Vec<ReadmeBlock>)
    ensures
        readme_views(blocks@) == readme_blocks(source@),
{
    let lines = doc_lines_of(&chars_of(source));
    let sep = newline();
    let readme = chars_of(README_TAG);
    let ghost all = texts(lines@);
    let mut blocks: Vec<ReadmeBlock> = Vec::new();
    let mut i: usize = 0;
    proof {
        assert(all.skip(0) == all);
        assert(readme_views(blocks@) + readme_blocks_in(all) == readme_blocks_in(all));
    }
    while i < lines.len()
        invariant
            i <= lines.len(),
            all == texts(lines@),
            sep@ == seq!['\n'],
            readme@ == README_TAG@,
            readme_views(blocks@) + readme_blocks_in(all.skip(i as int)) == readme_blocks_in(all),
        decreases lines.len() - i,
    {
        let ghost rest = all.skip(i as int);
        let ghost done = readme_views(blocks@);
        proof {
            assert(rest[0] == lines@[i as int]@);
            assert(rest.skip(1) == all.skip(i + 1));
        }
        let opens = match open_tag_in(&lines[i]) {
            Some(tag) => same_text(&chars_of(tag.name.as_str()), &readme),
            None => false,
        };
        let j = if opens {
            find_close(&lines, i + 1, &readme)
        } else {
            lines.len()
        };
        if j < lines.len() {
            proof {
                assert(rest.skip(j - i + 1) == all.skip(j + 1));
                assert(rest.take(j - i + 1) == all.subrange(i as int, j + 1));
            }
            let region = join_range(&lines, i, j + 1, &sep);
            let block = ReadmeBlock { content: string_of(&region) };
            let ghost bv = block@;
            blocks.push(block);
            proof {
                assert(readme_views(blocks@) =~= done.push(bv));
                assert(done.push(bv) + readme_blocks_in(all.skip(j + 1)) =~= done + (seq![bv]
                    + readme_blocks_in(all.skip(j + 1))));
            }
            i = j + 1;
        } else {
            i += 1;
        }
    }
    proof {
        assert(all.skip(lines.len() as int).len() == 0);
        assert(readme_views(blocks@) + Seq::<Seq<char>>::empty() == readme_views(blocks@));
    }
    blocks
}

/// Where no line of `body` closes `name` and `close` does, the body is what
/// stands before the first closing tag.
proof fn lemma_close_behind_body(
    body: Seq<Seq<char>>,
    close: Seq<char>,
    rest: Seq<Seq<char>>,
    name: Seq<char>,
)
    requires
        forall|i: int| 0 <= i < body.len() ==> !is_closing_tag(#[trigger] body[i], name),
        is_closing_tag(close, name),
    ensures
        lines_before_close(body + seq![close] + rest, name) == body.len(),
    decreases body.len(),
{
    let all = body + seq![close] + rest;
    if body.len() == 0 {
        assert(all[0] == close);
    } else {
        assert(all[0] == body[0]);
        let shorter = body.skip(1);
        assert forall|i: int| 0 <= i < shorter.len() implies !is_closing_tag(
            #[trigger] shorter[i],
            name,
        ) by {
            assert(shorter[i] == body[i + 1]);
        }
        lemma_close_behind_body(shorter, close, rest, name);
        assert(all.skip(1) == shorter + seq![close] + rest);
    }
}

/// Where no line closes `name`, all lines stand before the first closing tag.
proof fn lemma_never_closed(lines: Seq<Seq<char>>, name: Seq<char>)
    requires
        forall|i: int| 0 <= i < lines.len() ==> !is_closing_tag(#[trigger] lines[i], name),
    ensures
        lines_before_close(lines, name) == lines.len(),
    decreases lines.len(),
{
    if lines.len() > 0 {
        let shorter = lines.skip(1);
        assert forall|i: int| 0 <= i < shorter.len() implies !is_closing_tag(
            #[trigger] shorter[i],
            name,
        ) by {
            assert(shorter[i] == lines[i + 1]);
        }
        lemma_never_closed(shorter, name);
    }
}

/// Lines that are no opening tags give no block and do not change what the
/// lines behind them give.
pub proof fn law_plain_lines_give_no_block(before: Seq<Seq<char>>, rest: Seq<Seq<char>>)
    requires
        forall|i: int| 0 <= i < before.len() ==> open_tag(#[trigger] before[i]) is None,
    ensures
        marker_blocks_in(before + rest) == marker_blocks_in(rest),
    decreases before.len(),
{
    if before.len() == 0 {
        assert(before + rest == rest);
    } else {
        let all = before + rest;
        let shorter = before.skip(1);
        assert(all[0] == before[0]);
        assert(all.skip(1) == shorter + rest);
        assert forall|i: int| 0 <= i < shorter.len() implies open_tag(#[trigger] shorter[i])
            is None by {
            assert(shorter[i] == before[i + 1]);
        }
        law_plain_lines_give_no_block(shorter, rest);
    }
}

/// A well-formed pair of tags gives exactly one block, and its content is
/// the text strictly between the two tags, trimmed. The pair is an opening
/// line, body lines of which none closes the tag, and a line that closes
/// it; before the pair stand lines that are no opening tags. Whatever
/// follows the closing line is read on its own.
pub proof fn law_pair_gives_one_block(
    before: Seq<Seq<char>>,
    open: Seq<char>,
    body: Seq<Seq<char>>,
    close: Seq<char>,
    rest: Seq<Seq<char>>,
)
    requires
        forall|i: int| 0 <= i < before.len() ==> open_tag(#[trigger] before[i]) is None,
        open_tag(open) is Some,
        open_tag(open)->0.name != README_TAG@,
        is_closing_tag(close, open_tag(open)->0.name),
        forall|i: int|
            0 <= i < body.len() ==> !is_closing_tag(#[trigger] body[i], open_tag(open)->0.name),
    ensures
        marker_blocks_in(before + seq![open] + body + seq![close] + rest) == seq![
            MarkerBlockView {
                target_md: open_tag(open)->0.name,
                order: open_tag(open)->0.order,
                source_ref: open_tag(open)->0.source_ref,
                content: trim(join(body, seq!['\n'])),
            },
        ] + marker_blocks_in(rest),
{
    let tag = open_tag(open)->0;
    let pair = seq![open] + body + seq![close] + rest;
    assert(pair[0] == open);
    assert(pair.skip(1) == body + seq![close] + rest);
    lemma_close_behind_body(body, close, rest, tag.name);
    assert(pair.subrange(1, body.len() as int + 1) == body);
    assert(pair.skip(body.len() as int + 2) == rest);
    law_plain_lines_give_no_block(before, pair);
    assert(before + seq![open] + body + seq![close] + rest == before + pair);
}

/// An opening tag that no later line closes gives no block: the lines read
/// as if the tag line were not there.
pub proof fn law_unclosed_tag_gives_no_block(
    before: Seq<Seq<char>>,
    open: Seq<char>,
    rest: Seq<Seq<char>>,
)
    requires
        forall|i: int| 0 <= i < before.len() ==> open_tag(#[trigger] before[i]) is None,
        open_tag(open) is Some,
        forall|i: int|
            0 <= i < rest.len() ==> !is_closing_tag(#[trigger] rest[i], open_tag(open)->0.name),
    ensures
        marker_blocks_in(before + seq![open] + rest) == marker_blocks_in(rest),
{
    let tag = open_tag(open)->0;
    let tail = seq![open] + rest;
    assert(tail[0] == open);
    assert(tail.skip(1) == rest);
    lemma_never_closed(rest, tag.name);
    law_plain_lines_give_no_block(before, tail);
    assert(before + seq![open] + rest == before + tail);
}

} // verus!
