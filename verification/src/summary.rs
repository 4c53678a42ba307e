//! The table of contents: in which order the blocks are listed, and the
//! text of the summary document.

use crate::parser::{block_views, MarkerBlock, MarkerBlockView};
use crate::text::{chars_of, push_all, string_of};
use crate::writer::{title_chars, title_of};
use vstd::prelude::*;

verus! {

/// No block without an order gets a sort key at or below this.
pub const SYNTHETIC_BASE: usize = 1000;

/// The heading of the summary document.
pub const SUMMARY_HEADING: &'static str = "# Summary\n\n";

/// What stands before the title in an entry.
pub const ENTRY_OPEN: &'static str = "* [";

/// What stands between the title and the link in an entry.
pub const ENTRY_MIDDLE: &'static str = "](";

/// What stands behind the link in an entry.
pub const ENTRY_CLOSE: &'static str = ")\n";

/// The greatest order that a tag gave, and at least [`SYNTHETIC_BASE`].
pub open spec fn highest_order(blocks: Seq<MarkerBlockView>) -> int
    decreases blocks.len(),
{
    if blocks.len() == 0 {
        SYNTHETIC_BASE as int
    } else {
        let before = highest_order(blocks.drop_last());
        match blocks.last().order {
            Some(o) => if o > before {
                o as int
            } else {
                before
            },
            None => before,
        }
    }
}

/// How many of the first `n` blocks have no order.
pub open spec fn unordered_among(blocks: Seq<MarkerBlockView>, n: int) -> int
    decreases n,
{
    if n <= 0 {
        0
    } else if blocks[n - 1].order is None {
        unordered_among(blocks, n - 1) + 1
    } else {
        unordered_among(blocks, n - 1)
    }
}

/// The key by which block `i` is sorted into the summary: its order, where
/// the tag gave one; else a key above every given order, which grows with
/// each block that has none.
pub open spec fn sort_key(blocks: Seq<MarkerBlockView>, i: int) -> int {
    match blocks[i].order {
        Some(o) => o as int,
        None => highest_order(blocks) + unordered_among(blocks, i + 1),
    }
}

/// Where `key` belongs among slots in rising order of key: the index of the
/// first slot whose key is not below it.
pub open spec fn position(slots: Seq<(int, int)>, key: int) -> int
    decreases slots.len(),
{
    if slots.len() == 0 || slots[0].0 >= key {
        0
    } else {
        1 + position(slots.skip(1), key)
    }
}

/// The slots with `block` put under `key`: in place of the slot that has
/// that key, if there is one, else as a new slot where the key belongs.
pub open spec fn placed(slots: Seq<(int, int)>, key: int, block: int) -> Seq<(int, int)> {
    let p = position(slots, key);
    if p < slots.len() && slots[p].0 == key {
        slots.update(p, (key, block))
    } else {
        slots.insert(p, (key, block))
    }
}

/// The sort keys of the blocks.
pub open spec fn sort_keys(blocks: Seq<MarkerBlockView>) -> Seq<int> {
    Seq::new(blocks.len(), |i: int| sort_key(blocks, i))
}

/// The slots after the first `n` blocks have been put under their keys, one
/// after the other: pairs of a key and the index of a block.
pub open spec fn slots_after(keys: Seq<int>, n: int) -> Seq<(int, int)>
    decreases n,
{
    if n <= 0 {
        Seq::empty()
    } else {
        placed(slots_after(keys, n - 1), keys[n - 1], n - 1)
    }
}

/// The blocks that the summary lists, by index, in the order of listing.
pub open spec fn summary_order(blocks: Seq<MarkerBlockView>) -> Seq<int> {
    let slots = slots_after(sort_keys(blocks), blocks.len() as int);
    Seq::new(slots.len(), |k: int| slots[k].1)
}

/// One entry of the summary: a bullet with the title as text and the file
/// name as link.
pub open spec fn entry_line(title: Seq<char>, name: Seq<char>) -> Seq<char> {
    ENTRY_OPEN@ + title + ENTRY_MIDDLE@ + name + ENTRY_CLOSE@
}

/// The title at index `i`; empty where the list is too short.
pub open spec fn title_at(titles: Seq<Seq<char>>, i: int) -> Seq<char> {
    if 0 <= i < titles.len() {
        titles[i]
    } else {
        Seq::empty()
    }
}

/// The entries of the blocks that `order` names, one after the other.
pub open spec fn entry_lines(
    blocks: Seq<MarkerBlockView>,
    titles: Seq<Seq<char>>,
    order: Seq<int>,
) -> Seq<char>
    decreases order.len(),
{
    if order.len() == 0 {
        Seq::empty()
    } else {
        entry_lines(blocks, titles, order.drop_last()) + entry_line(
            title_at(titles, order.last()),
            blocks[order.last()].target_md,
        )
    }
}

/// The summary document of the blocks, with `titles[i]` as the title of
/// block `i`: the heading and the entries in the order of listing.
pub open spec fn summary_with_titles(blocks: Seq<MarkerBlockView>, titles: Seq<Seq<char>>) -> Seq<
    char,
> {
    SUMMARY_HEADING@ + entry_lines(blocks, titles, summary_order(blocks))
}

/// The titles of the blocks' files.
pub open spec fn titles_of(blocks: Seq<MarkerBlockView>) -> Seq<Seq<char>> {
    Seq::new(blocks.len(), |i: int| title_of(blocks[i].target_md))
}

/// The summary document of the blocks.
pub open spec fn summary_text(blocks: Seq<MarkerBlockView>) -> Seq<char> {
    summary_with_titles(blocks, titles_of(blocks))
}

/// Slots as pairs of integers.
pub open spec fn slot_views(slots: Seq<(u128, usize)>) -> Seq<(int, int)> {
    Seq::new(slots.len(), |k: int| (slots[k].0 as int, slots[k].1 as int))
}

/// A list of indices as integers.
pub open spec fn index_views(order: Seq<usize>) -> Seq<int> {
    Seq::new(order.len(), |k: int| order[k] as int)
}

/// What [`position`] is: the slots before it have keys below `key`, the slot
/// at it has not.
proof fn lemma_position(slots: Seq<(int, int)>, key: int)
    ensures
        0 <= position(slots, key) <= slots.len(),
        forall|j: int| 0 <= j < position(slots, key) ==> (#[trigger] slots[j]).0 < key,
        position(slots, key) < slots.len() ==> slots[position(slots, key)].0 >= key,
    decreases slots.len(),
{
    if !(slots.len() == 0 || slots[0].0 >= key) {
        let rest = slots.skip(1);
        lemma_position(rest, key);
        let p = position(rest, key);
        assert forall|j: int| 0 <= j < p + 1 implies (#[trigger] slots[j]).0 < key by {
            if j > 0 {
                assert(rest[j - 1] == slots[j]);
            }
        }
        if p < rest.len() {
            assert(rest[p] == slots[p + 1]);
        }
    }
}

/// The index that has the two properties of [`position`] is it.
proof fn lemma_position_is(slots: Seq<(int, int)>, key: int, p: int)
    requires
        0 <= p <= slots.len(),
        forall|j: int| 0 <= j < p ==> (#[trigger] slots[j]).0 < key,
        p < slots.len() ==> slots[p].0 >= key,
    ensures
        position(slots, key) == p,
{
    lemma_position(slots, key);
    let q = position(slots, key);
    if q < p {
        assert(slots[q].0 < key);
    } else if p < q {
        assert(slots[p].0 < key);
    }
}

/// The greatest given order, and at least [`SYNTHETIC_BASE`].
fn highest_order_of(blocks: &Vec<MarkerBlock>) -> (m: usize)
    ensures
        m == highest_order(block_views(blocks@)),
{
    let ghost all = block_views(blocks@);
    let mut m: usize = SYNTHETIC_BASE;
    let mut i: usize = 0;
    assert(all.take(0).len() == 0);
    while i < blocks.len()
        invariant
            i <= blocks.len(),
            all == block_views(blocks@),
            m == highest_order(all.take(i as int)),
        decreases blocks.len() - i,
    {
        proof {
            let now = all.take(i + 1);
            assert(now.drop_last() == all.take(i as int));
            assert(now.last() == blocks@[i as int]@);
        }
        match blocks[i].order {
            Some(o) => {
                if o > m {
                    m = o;
                }
            },
            None => {},
        }
        i += 1;
    }
    assert(all.take(blocks.len() as int) == all);
    m
}

/// Puts `block` under `key`.
fn place(slots: &mut Vec<(u128, usize)>, key: u128, block: usize)
    ensures
        slot_views(final(slots)@) == placed(slot_views(old(slots)@), key as int, block as int),
{
    let ghost before = slot_views(slots@);
    let mut p: usize = 0;
    while p < slots.len() && slots[p].0 < key
        invariant
            p <= slots.len(),
            before == slot_views(slots@),
            forall|j: int| 0 <= j < p ==> (#[trigger] before[j]).0 < key,
        decreases slots.len() - p,
    {
        p += 1;
    }
    proof {
        lemma_position_is(before, key as int, p as int);
    }
    if p < slots.len() && slots[p].0 == key {
        slots.set(p, (key, block));
        assert(slot_views(slots@) =~= before.update(p as int, (key as int, block as int)));
    } else {
        slots.insert(p, (key, block));
        assert(slot_views(slots@) =~= before.insert(p as int, (key as int, block as int)));
    }
}

/// The order in which the summary lists the blocks, as indices into
/// `blocks`. Each block is put under its sort key, in the order of
/// discovery, and a later block takes the place of an earlier one with the
/// same key; the list runs through the keys in rising order. The sort key of
/// a block is its order, where it has one; the blocks without one get keys
/// that rise in the order of discovery and lie above every given order and
/// above [`SYNTHETIC_BASE`].
pub fn entry_order(blocks: &Vec<MarkerBlock>) -> (order: Vec<usize>)
    ensures
        index_views(order@) == summary_order(block_views(blocks@)),
{
    let ghost all = block_views(blocks@);
    let top = highest_order_of(blocks);
    let mut slots: Vec<(u128, usize)> = Vec::new();
    let mut unordered: usize = 0;
    let mut i: usize = 0;
    assert(slot_views(slots@) =~= slots_after(sort_keys(all), 0));
    while i < blocks.len()
        invariant
            i <= blocks.len(),
            all == block_views(blocks@),
            top == highest_order(all),
            unordered == unordered_among(all, i as int),
            unordered <= i,
            slot_views(slots@) == slots_after(sort_keys(all), i as int),
        decreases blocks.len() - i,
    {
        let key: u128 = match blocks[i].order {
            Some(o) => o as u128,
            None => {
                unordered += 1;
                top as u128 + unordered as u128
            },
        };
        assert(all[i as int] == blocks@[i as int]@);
        assert(key == sort_keys(all)[i as int]);
        place(&mut slots, key, i);
        i += 1;
    }
    let mut order: Vec<usize> = Vec::new();
    let mut k: usize = 0;
    while k < slots.len()
        invariant
            k <= slots.len(),
            order.len() == k,
            forall|j: int| 0 <= j < k ==> #[trigger] order@[j] == slots@[j].1,
        decreases slots.len() - k,
    {
        order.push(slots[k].1);
        k += 1;
    }
    assert(index_views(order@) =~= summary_order(all));
    order
}

/// The summary document with the given titles: the heading `# Summary` and
/// a blank line, then for each listed block, in the order of
/// [`entry_order`], the line `* [title](file name)`. The title of block `i`
/// is `titles[i]`, and empty where `titles` is too short.
pub fn summary_from_titles(blocks: &Vec<MarkerBlock>, titles: &Vec<String>) -> (doc: String)
    ensures
        doc@ == summary_with_titles(block_views(blocks@), titles.deep_view()),
{
    let ghost all = block_views(blocks@);
    let ghost ts = titles.deep_view();
    let order = entry_order(blocks);
    let ghost listed = index_views(order@);
    let open = chars_of(ENTRY_OPEN);
    let middle = chars_of(ENTRY_MIDDLE);
    let close = chars_of(ENTRY_CLOSE);
    let mut out = chars_of(SUMMARY_HEADING);
    let mut k: usize = 0;
    proof {
        assert(listed.take(0).len() == 0);
        assert(out@ + Seq::<char>::empty() == out@);
        lemma_order_in_range(sort_keys(all), all.len() as int);
    }
    while k < order.len()
        invariant
            k <= order.len(),
            all == block_views(blocks@),
            ts == titles.deep_view(),
            listed == index_views(order@),
            forall|j: int| 0 <= j < listed.len() ==> 0 <= #[trigger] listed[j] < all.len(),
            open@ == ENTRY_OPEN@,
            middle@ == ENTRY_MIDDLE@,
            close@ == ENTRY_CLOSE@,
            out@ == SUMMARY_HEADING@ + entry_lines(all, ts, listed.take(k as int)),
        decreases order.len() - k,
    {
        let i = order[k];
        proof {
            let now = listed.take(k + 1);
            assert(now.drop_last() == listed.take(k as int));
            assert(now.last() == i);
            assert(listed[k as int] == i);
            assert(all[i as int] == blocks@[i as int]@);
        }
        let ghost before = out@;
        let mut line: Vec<char> = Vec::new();
        push_all(&mut line, &open);
        if i < titles.len() {
            push_all(&mut line, &chars_of(titles[i].as_str()));
            assert(title_at(ts, i as int) == titles@[i as int]@);
        } else {
            assert(line@ + Seq::<char>::empty() == line@);
        }
        push_all(&mut line, &middle);
        push_all(&mut line, &chars_of(blocks[i].target_md.as_str()));
        push_all(&mut line, &close);
        assert(line@ =~= entry_line(title_at(ts, i as int), all[i as int].target_md));
        push_all(&mut out, &line);
        assert(out@ =~= SUMMARY_HEADING@ + (entry_lines(all, ts, listed.take(k as int)) + line@));
        k += 1;
    }
    assert(listed.take(order.len() as int) == listed);
    string_of(&out)
}

/// Every slot holds the index of one of the first `n` blocks.
proof fn lemma_order_in_range(keys: Seq<int>, n: int)
    requires
        0 <= n <= keys.len(),
    ensures
        forall|k: int|
            0 <= k < slots_after(keys, n).len() ==> 0 <= (#[trigger] slots_after(keys, n)[k]).1
                < n,
    decreases n,
{
    if n > 0 {
        lemma_order_in_range(keys, n - 1);
        lemma_position(slots_after(keys, n - 1), keys[n - 1]);
    }
}

/// The summary document of the blocks: the heading `# Summary` and a blank
/// line, then one line `* [title](file name)` for each listed block, in the
/// order of [`entry_order`], the title made of the file name as
/// `title_from_filename` makes it.
pub fn summary_document(blocks: &Vec<MarkerBlock>) -> (doc: String)
    ensures
        doc@ == summary_text(block_views(blocks@)),
{
    let ghost all = block_views(blocks@);
    let mut titles: Vec<String> = Vec::new();
    let mut i: usize = 0;
    while i < blocks.len()
        invariant
            i <= blocks.len(),
            all == block_views(blocks@),
            titles.len() == i,
            forall|j: int| 0 <= j < i ==> (#[trigger] titles@[j])@ == title_of(all[j].target_md),
        decreases blocks.len() - i,
    {
        let name = chars_of(blocks[i].target_md.as_str());
        assert(all[i as int] == blocks@[i as int]@);
        titles.push(string_of(&title_chars(&name)));
        i += 1;
    }
    assert(titles.deep_view() =~= titles_of(all));
    summary_from_titles(blocks, &titles)
}

/// No given order lies above [`highest_order`].
proof fn lemma_highest_order(blocks: Seq<MarkerBlockView>, i: int)
    requires
        0 <= i < blocks.len(),
    ensures
        blocks[i].order matches Some(o) ==> o <= highest_order(blocks),
    decreases blocks.len(),
{
    if i < blocks.len() - 1 {
        lemma_highest_order(blocks.drop_last(), i);
    }
}

/// The count of blocks without order does not fall, and rises across one.
proof fn lemma_unordered_among(blocks: Seq<MarkerBlockView>, m: int, n: int)
    requires
        0 <= m <= n <= blocks.len(),
    ensures
        0 <= unordered_among(blocks, m) <= unordered_among(blocks, n),
        m < n && blocks[n - 1].order is None ==> unordered_among(blocks, m) < unordered_among(
            blocks,
            n,
        ),
    decreases n - m, n,
{
    if m < n {
        lemma_unordered_among(blocks, m, n - 1);
    } else if m > 0 {
        lemma_unordered_among(blocks, m - 1, m - 1);
    }
}

/// Slots whose keys rise strictly.
spec fn rising(slots: Seq<(int, int)>) -> bool {
    forall|a: int, b: int|
        0 <= a < b < slots.len() ==> (#[trigger] slots[a]).0 < (#[trigger] slots[b]).0
}

/// Each slot holds one of the first `n` indices, under that index's key.
spec fn faithful(keys: Seq<int>, slots: Seq<(int, int)>, n: int) -> bool {
    forall|k: int|
        0 <= k < slots.len() ==> 0 <= (#[trigger] slots[k]).1 < n && slots[k].0 == keys[slots[k].1]
}

/// The key of index `i` stands in slot `k`, which holds `i` or a later index.
spec fn found_in(keys: Seq<int>, slots: Seq<(int, int)>, i: int, k: int) -> bool {
    0 <= k < slots.len() && slots[k].0 == keys[i] && slots[k].1 >= i
}

/// The key of index `i` stands in some slot, which holds `i` or a later
/// index.
spec fn found(keys: Seq<int>, slots: Seq<(int, int)>, i: int) -> bool {
    exists|k: int| #[trigger] found_in(keys, slots, i, k)
}

/// Each of the first `n` indices finds its key in a slot.
spec fn complete(keys: Seq<int>, slots: Seq<(int, int)>, n: int) -> bool {
    forall|i: int| 0 <= i < n ==> #[trigger] found(keys, slots, i)
}

/// What holds of the slots after `n` blocks: the keys rise strictly; each
/// slot holds one of the `n` blocks under that block's key; each of the `n`
/// blocks finds its key in a slot, which holds that block or a later one.
proof fn lemma_slots(keys: Seq<int>, n: int)
    requires
        0 <= n <= keys.len(),
    ensures
        rising(slots_after(keys, n)),
        faithful(keys, slots_after(keys, n), n),
        complete(keys, slots_after(keys, n), n),
    decreases n,
{
    if n > 0 {
        lemma_slots(keys, n - 1);
        let before = slots_after(keys, n - 1);
        let key = keys[n - 1];
        let p = position(before, key);
        let now = slots_after(keys, n);
        lemma_position(before, key);
        assert forall|j: int| p < j < before.len() implies key < (#[trigger] before[j]).0 by {
            assert(before[p].0 < before[j].0);
        }
        if p < before.len() && before[p].0 == key {
            assert(now == before.update(p, (key, n - 1)));
            assert forall|i: int| 0 <= i < n implies #[trigger] found(keys, now, i) by {
                assert(found(keys, before, i) || i == n - 1);
                if i == n - 1 {
                    assert(found_in(keys, now, i, p));
                } else {
                    let k = choose|k: int| #[trigger] found_in(keys, before, i, k);
                    assert(found_in(keys, now, i, k));
                }
            }
        } else {
            assert(now == before.insert(p, (key, n - 1)));
            assert(now.len() == before.len() + 1);
            assert forall|j: int| 0 <= j < now.len() implies #[trigger] now[j] == (if j < p {
                before[j]
            } else if j == p {
                (key, n - 1)
            } else {
                before[j - 1]
            }) by {}
            assert forall|a: int, b: int| 0 <= a < b < now.len() implies (#[trigger] now[a]).0 < (
            #[trigger] now[b]).0 by {
                if b < p {
                    assert(before[a].0 < before[b].0);
                } else if b == p {
                    assert(before[a].0 < key);
                } else if a < p {
                    assert(before[a].0 < key);
                    if b - 1 > p {
                        assert(key < before[b - 1].0);
                    }
                } else if a == p {
                    if b - 1 > p {
                        assert(key < before[b - 1].0);
                    }
                } else {
                    assert(before[a - 1].0 < before[b - 1].0);
                }
            }
            assert forall|k: int| 0 <= k < now.len() implies 0 <= (#[trigger] now[k]).1 < n
                && now[k].0 == keys[now[k].1] by {
                if k < p {
                    assert(now[k] == before[k]);
                } else if k > p {
                    assert(now[k] == before[k - 1]);
                }
            }
            assert forall|i: int| 0 <= i < n implies #[trigger] found(keys, now, i) by {
                assert(found(keys, before, i) || i == n - 1);
                if i == n - 1 {
                    assert(found_in(keys, now, i, p));
                } else {
                    let k = choose|k: int| #[trigger] found_in(keys, before, i, k);
                    if k < p {
                        assert(found_in(keys, now, i, k));
                    } else {
                        assert(found_in(keys, now, i, k + 1));
                    }
                }
            }
        }
    }
}

/// Whether place `k` of the summary lists block `i` or a later block with
/// the same sort key.
pub open spec fn lists_key_of(blocks: Seq<MarkerBlockView>, i: int, k: int) -> bool {
    &&& 0 <= k < summary_order(blocks).len()
    &&& summary_order(blocks)[k] >= i
    &&& sort_key(blocks, summary_order(blocks)[k]) == sort_key(blocks, i)
}

/// Whether the summary lists block `i` or a later block with the same sort
/// key.
pub open spec fn key_is_listed(blocks: Seq<MarkerBlockView>, i: int) -> bool {
    exists|k: int| #[trigger] lists_key_of(blocks, i, k)
}

/// The summary lists blocks in strictly rising order of sort key. So no key
/// is listed twice; and every block finds its key listed, with itself or
/// with a later block that has the same key.
pub proof fn law_summary_rises_by_key(blocks: Seq<MarkerBlockView>)
    ensures
        forall|k: int|
            0 <= k < summary_order(blocks).len() ==> 0 <= #[trigger] summary_order(blocks)[k]
                < blocks.len(),
        forall|a: int, b: int|
            0 <= a < b < summary_order(blocks).len() ==> sort_key(
                blocks,
                #[trigger] summary_order(blocks)[a],
            ) < sort_key(blocks, #[trigger] summary_order(blocks)[b]),
        forall|i: int| 0 <= i < blocks.len() ==> #[trigger] key_is_listed(blocks, i),
{
    let n = blocks.len() as int;
    let keys = sort_keys(blocks);
    let slots = slots_after(keys, n);
    let order = summary_order(blocks);
    lemma_slots(keys, n);
    assert forall|k: int| 0 <= k < order.len() implies 0 <= #[trigger] order[k] < blocks.len()
        && sort_key(blocks, order[k]) == slots[k].0 by {
        assert(0 <= slots[k].1 < n);
    }
    assert forall|a: int, b: int| 0 <= a < b < order.len() implies sort_key(
        blocks,
        #[trigger] order[a],
    ) < sort_key(blocks, #[trigger] order[b]) by {
        assert(slots[a].0 < slots[b].0);
    }
    assert forall|i: int| 0 <= i < blocks.len() implies #[trigger] key_is_listed(blocks, i) by {
        assert(found(keys, slots, i));
        let k = choose|k: int| #[trigger] found_in(keys, slots, i, k);
        assert(found_in(keys, slots, i, k));
        assert(order[k] == slots[k].1);
        assert(lists_key_of(blocks, i, k));
    }
}

/// The sort key of a block without an order lies above the key of every
/// block with one, and above the key of every earlier block without one.
pub proof fn law_unordered_keys_come_last(blocks: Seq<MarkerBlockView>, i: int, j: int)
    requires
        0 <= i < blocks.len(),
        0 <= j < blocks.len(),
        blocks[j].order is None,
    ensures
        blocks[i].order is Some ==> sort_key(blocks, i) < sort_key(blocks, j),
        blocks[i].order is None && i < j ==> sort_key(blocks, i) < sort_key(blocks, j),
{
    lemma_highest_order(blocks, i);
    lemma_unordered_among(blocks, 0, j + 1);
    if i < j {
        lemma_unordered_among(blocks, i + 1, j + 1);
    }
}

/// Blocks without an order are appended behind those with one, in the order
/// of discovery: every block without an order is listed; in the list no
/// block without an order stands before one with an order, and of two
/// blocks without an order the one found first stands first.
pub proof fn law_unordered_blocks_are_appended(blocks: Seq<MarkerBlockView>)
    ensures
        forall|j: int|
            0 <= j < blocks.len() && (#[trigger] blocks[j]).order is None ==> summary_order(
                blocks,
            ).contains(j),
        forall|a: int, b: int|
            0 <= a < summary_order(blocks).len() && 0 <= b < summary_order(blocks).len()
                && blocks[#[trigger] summary_order(blocks)[a]].order is Some
                && blocks[#[trigger] summary_order(blocks)[b]].order is None ==> a < b,
        forall|a: int, b: int|
            0 <= a < summary_order(blocks).len() && 0 <= b < summary_order(blocks).len()
                && blocks[#[trigger] summary_order(blocks)[a]].order is None
                && blocks[#[trigger] summary_order(blocks)[b]].order is None && summary_order(
                blocks,
            )[a] < summary_order(blocks)[b] ==> a < b,
{
    let order = summary_order(blocks);
    law_summary_rises_by_key(blocks);
    assert forall|j: int| 0 <= j < blocks.len() && (#[trigger] blocks[j]).order is None implies order.contains(
        j,
    ) by {
        assert(key_is_listed(blocks, j));
        let k = choose|k: int| #[trigger] lists_key_of(blocks, j, k);
        assert(lists_key_of(blocks, j, k));
        let found = order[k];
        assert(0 <= found < blocks.len());
        if found != j {
            if blocks[found].order is None {
                law_unordered_keys_come_last(blocks, j, found);
            } else {
                law_unordered_keys_come_last(blocks, found, j);
            }
        }
        assert(order[k] == j);
    }
    assert forall|a: int, b: int|
        0 <= a < order.len() && 0 <= b < order.len() && blocks[#[trigger] order[a]].order is Some
            && blocks[#[trigger] order[b]].order is None implies a < b by {
        law_unordered_keys_come_last(blocks, order[a], order[b]);
        if b < a {
            assert(sort_key(blocks, order[b]) < sort_key(blocks, order[a]));
        }
    }
    assert forall|a: int, b: int|
        0 <= a < order.len() && 0 <= b < order.len() && blocks[#[trigger] order[a]].order is None
            && blocks[#[trigger] order[b]].order is None && order[a] < order[b] implies a
        < b by {
        law_unordered_keys_come_last(blocks, order[a], order[b]);
        if b < a {
            assert(sort_key(blocks, order[b]) < sort_key(blocks, order[a]));
        }
    }
}

} // verus!
