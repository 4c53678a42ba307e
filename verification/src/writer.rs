//! What is written: the text of a block's file, the title of a summary
//! entry, and the README made of the regions gathered for it.

use crate::parser::{readme_views, ReadmeBlock};
use crate::text::{
    chars_of, join, join_range, occurs_at, push_all, remove_all, skip_whitespace_back, split,
    split_chars, string_of, subvec, texts, trim, trim_end, trimmed, without,
};
use vstd::prelude::*;

verus! {

/// The file name of the README.
pub const README_FILE: &'static str = "README.md";

/// The tag text that opens a README region.
pub const README_OPEN: &'static str = "<readme>";

/// The tag text that closes a README region.
pub const README_CLOSE: &'static str = "</readme>";

/// The characters that part the words of a file name.
pub const WORD_BREAKS: &'static str = "-_ ";

/// The ending that a file name loses before it becomes a title.
pub const MARKDOWN_ENDING: &'static str = ".md";

/// The uppercase mapping of a character, as `char::to_uppercase` yields it.
pub uninterp spec fn uppercase(c: char) -> Seq<char>;

/// Calls `char::to_uppercase` and gathers the characters it yields, which by
/// its documentation are the uppercase mapping of `c`. The mapping is a
/// table of Unicode; it is only given the name [`uppercase`].
#[verifier::external_body]
fn to_uppercase(c: char) -> (r: Vec<char>)
    ensures
        r@ == uppercase(c),
{
    c.to_uppercase().collect()
}

/// The text that stands in a block's file: the content without the README
/// tag texts, first every opening one, then every closing one, and trimmed.
pub open spec fn cleaned(content: Seq<char>) -> Seq<char> {
    trim(remove_all(remove_all(content, README_OPEN@), README_CLOSE@))
}

/// `name` without every `.md` at its end.
pub open spec fn without_markdown_endings(name: Seq<char>) -> Seq<char>
    decreases name.len(),
{
    if name.len() >= 3 && name.skip(name.len() - 3) == MARKDOWN_ENDING@ && MARKDOWN_ENDING@.len()
        == 3 {
        without_markdown_endings(name.take(name.len() - 3))
    } else {
        name
    }
}

/// The pieces that are not empty, in order.
pub open spec fn nonempty(parts: Seq<Seq<char>>) -> Seq<Seq<char>>
    decreases parts.len(),
{
    if parts.len() == 0 {
        Seq::empty()
    } else if parts.last().len() > 0 {
        nonempty(parts.drop_last()).push(parts.last())
    } else {
        nonempty(parts.drop_last())
    }
}

/// The words of a file name: what stands between hyphens, underscores and
/// spaces once the markdown endings are gone.
pub open spec fn title_words(name: Seq<char>) -> Seq<Seq<char>> {
    nonempty(split(without_markdown_endings(name), WORD_BREAKS@))
}

/// `word` with `capital` in place of its first character.
pub open spec fn capitalized(word: Seq<char>, capital: Seq<char>) -> Seq<char> {
    if word.len() > 0 {
        capital + word.skip(1)
    } else {
        capital
    }
}

/// Each word with the uppercase mapping of its first character in that
/// character's place.
pub open spec fn capitalized_words(words: Seq<Seq<char>>) -> Seq<Seq<char>> {
    Seq::new(words.len(), |i: int| capitalized(words[i], uppercase(words[i][0])))
}

/// The title of a file name: its words, capitalized, with single spaces
/// between them.
pub open spec fn title_of(name: Seq<char>) -> Seq<char> {
    join(capitalized_words(title_words(name)), seq![' '])
}

/// What one README region adds to the document: its text without the tag
/// texts, trimmed, and a blank line.
pub open spec fn readme_section(region: Seq<char>) -> Seq<char> {
    cleaned(region) + seq!['\n', '\n']
}

/// The sections of the regions, one after the other.
pub open spec fn readme_sections(regions: Seq<Seq<char>>) -> Seq<char>
    decreases regions.len(),
{
    if regions.len() == 0 {
        Seq::empty()
    } else {
        readme_sections(regions.drop_last()) + readme_section(regions.last())
    }
}

/// The README: the sections of the regions without the whitespace at the
/// end.
pub open spec fn readme_text(regions: Seq<Seq<char>>) -> Seq<char> {
    trim_end(readme_sections(regions))
}

/// [`cleaned`] on vectors.
pub(crate) fn clean_chars(content: &Vec<char>) -> (r: Vec<char>)
    ensures
        r@ == cleaned(content@),
{
    let opened = without(content, &chars_of(README_OPEN));
    let closed = without(&opened, &chars_of(README_CLOSE));
    trimmed(&closed)
}

/// The text that is written to a block's file: the block's content without
/// any `<readme>` and `</readme>`, trimmed.
pub fn clean_content(content: &str) -> (r: String)
    ensures
        r@ == cleaned(content@),
{
    string_of(&clean_chars(&chars_of(content)))
}

/// `name` without its markdown endings.
fn strip_markdown_endings(name: &Vec<char>) -> (r: Vec<char>)
    ensures
        r@ == without_markdown_endings(name@),
{
    let ending = chars_of(MARKDOWN_ENDING);
    let mut end: usize = name.len();
    proof {
        assert(name@.take(end as int) == name@);
    }
    if ending.len() != 3 {
        return subvec(name, 0, end);
    }
    while end >= 3 && occurs_at(name, end - 3, &ending)
        invariant
            end <= name.len(),
            ending@ == MARKDOWN_ENDING@,
            ending@.len() == 3,
            without_markdown_endings(name@) == without_markdown_endings(name@.take(end as int)),
        decreases end,
    {
        proof {
            let cur = name@.take(end as int);
            assert(cur.skip(cur.len() - 3) =~= name@.skip(end - 3).subrange(0, 3));
            assert(cur.take(cur.len() - 3) == name@.take(end - 3));
        }
        end -= 3;
    }
    proof {
        let cur = name@.take(end as int);
        if end >= 3 {
            assert(cur.skip(cur.len() - 3) =~= name@.skip(end - 3).subrange(0, 3));
            assert(name@.skip(end - 3).len() >= 3);
        }
        assert(name@.subrange(0, end as int) == cur);
    }
    subvec(name, 0, end)
}

/// The words of a file name, as vectors.
fn words_of(name: &Vec<char>) -> (r: Vec<Vec<char>>)
    ensures
        texts(r@) == title_words(name@),
        forall|j: int| 0 <= j < r.len() ==> (#[trigger] r@[j]).len() > 0,
{
    let stem = strip_markdown_endings(name);
    let parts = split_chars(&stem, &chars_of(WORD_BREAKS));
    let ghost all = texts(parts@);
    let mut r: Vec<Vec<char>> = Vec::new();
    let mut i: usize = 0;
    assert(texts(r@) =~= nonempty(all.take(0)));
    while i < parts.len()
        invariant
            i <= parts.len(),
            all == texts(parts@),
            texts(r@) == nonempty(all.take(i as int)),
            forall|j: int| 0 <= j < r.len() ==> (#[trigger] r@[j]).len() > 0,
        decreases parts.len() - i,
    {
        let ghost before = texts(r@);
        proof {
            let now = all.take(i + 1);
            assert(now.drop_last() == all.take(i as int));
            assert(now.last() == parts@[i as int]@);
        }
        if parts[i].len() > 0 {
            let word = subvec(&parts[i], 0, parts[i].len());
            assert(word@ == parts@[i as int]@);
            r.push(word);
            assert(texts(r@) =~= before.push(parts@[i as int]@));
        }
        i += 1;
    }
    assert(all.take(parts.len() as int) == all);
    r
}

/// The words of a file name: the name loses every `.md` at its end and is
/// cut at hyphens, underscores and spaces; the pieces that are not empty are
/// its words.
pub fn file_name_words(filename: &str) -> (words: Vec<String>)
    ensures
        words.deep_view() == title_words(filename@),
{
    let found = words_of(&chars_of(filename));
    let mut words: Vec<String> = Vec::new();
    let mut i: usize = 0;
    while i < found.len()
        invariant
            i <= found.len(),
            words.len() == i,
            forall|j: int| 0 <= j < i ==> (#[trigger] words@[j])@ == found@[j]@,
        decreases found.len() - i,
    {
        words.push(string_of(&found[i]));
        i += 1;
    }
    assert(words.deep_view() =~= texts(found@));
    words
}

/// `word` with `capital` in place of its first character.
pub fn with_capital(word: &str, capital: &str) -> (r: String)
    ensures
        r@ == capitalized(word@, capital@),
{
    let w = chars_of(word);
    let mut r = chars_of(capital);
    if w.len() > 0 {
        let rest = subvec(&w, 1, w.len());
        assert(w@.skip(1) == w@.subrange(1, w.len() as int));
        push_all(&mut r, &rest);
    }
    string_of(&r)
}

/// The title of a file name, as a vector.
pub(crate) fn title_chars(name: &Vec<char>) -> (r: Vec<char>)
    ensures
        r@ == title_of(name@),
{
    let words = words_of(name);
    let ghost plain = texts(words@);
    let mut shown: Vec<Vec<char>> = Vec::new();
    let mut i: usize = 0;
    while i < words.len()
        invariant
            i <= words.len(),
            plain == texts(words@),
            forall|j: int| 0 <= j < words.len() ==> (#[trigger] words@[j]).len() > 0,
            shown.len() == i,
            forall|j: int|
                0 <= j < i ==> (#[trigger] shown@[j])@ == capitalized(
                    plain[j],
                    uppercase(plain[j][0]),
                ),
        decreases words.len() - i,
    {
        let word = &words[i];
        let mut out = to_uppercase(word[0]);
        let rest = subvec(word, 1, word.len());
        assert(word@.skip(1) == word@.subrange(1, word.len() as int));
        push_all(&mut out, &rest);
        shown.push(out);
        i += 1;
    }
    assert(texts(shown@) =~= capitalized_words(plain));
    let mut space: Vec<char> = Vec::new();
    space.push(' ');
    assert(space@ == seq![' ']);
    let r = join_range(&shown, 0, shown.len(), &space);
    assert(texts(shown@).subrange(0, shown.len() as int) == texts(shown@));
    r
}

/// The title under which a file is listed: the file name without every
/// `.md` at its end, cut into words at hyphens, underscores and spaces, each
/// word written with the uppercase mapping of its first character, and the
/// words joined by single spaces.
pub fn title_from_filename(filename: &str) -> (title: String)
    ensures
        title@ == title_of(filename@),
{
    string_of(&title_chars(&chars_of(filename)))
}

/// The README made of the gathered regions: of each region its text without
/// `<readme>` and `</readme>`, trimmed, and a blank line behind it; the
/// whole without the whitespace at its end.
pub fn readme_document(blocks: &Vec<ReadmeBlock>) -> (doc: String)
    ensures
        doc@ == readme_text(readme_views(blocks@)),
{
    let ghost regions = readme_views(blocks@);
    let mut out: Vec<char> = Vec::new();
    let mut i: usize = 0;
    assert(regions.take(0).len() == 0);
    while i < blocks.len()
        invariant
            i <= blocks.len(),
            regions == readme_views(blocks@),
            out@ == readme_sections(regions.take(i as int)),
        decreases blocks.len() - i,
    {
        proof {
            let now = regions.take(i + 1);
            assert(now.drop_last() == regions.take(i as int));
            assert(now.last() == blocks@[i as int].content@);
        }
        let section = clean_chars(&chars_of(blocks[i].content.as_str()));
        push_all(&mut out, &section);
        out.push('\n');
        out.push('\n');
        assert(out@ == readme_sections(regions.take(i as int)) + (section@ + seq!['\n', '\n']));
        i += 1;
    }
    assert(regions.take(blocks.len() as int) == regions);
    let end = skip_whitespace_back(&out, 0, out.len());
    assert(out@.subrange(0, out.len() as int) == out@);
    let kept = subvec(&out, 0, end);
    assert(out@.subrange(0, end as int) == out@.take(end as int));
    string_of(&kept)
}

} // verus!
