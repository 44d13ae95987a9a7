//! Reading a report: what its lines tell under their labels, and what is listed below them.

use crate::text::{parted, texts_are_parted_at_line_feeds};
use vstd::prelude::*;

verus! {

/// Whether a line is set in by two spaces.
pub open spec fn is_set_in(line: Seq<char>) -> bool {
    line.len() >= 2 && line[0] == ' ' && line[1] == ' '
}

/// What the first of `lines` that starts with `label` says behind it.
pub open spec fn behind_label(lines: Seq<Seq<char>>, label: Seq<char>) -> Option<Seq<char>>
    decreases lines.len(),
{
    if lines.len() == 0 {
        None
    } else if label.is_prefix_of(lines[0]) {
        Some(lines[0].skip(label.len() as int))
    } else {
        behind_label(lines.drop_first(), label)
    }
}

/// The lines at the start of `lines` that are set in, without the two spaces.
pub open spec fn set_in_first(lines: Seq<Seq<char>>) -> Seq<Seq<char>>
    decreases lines.len(),
{
    if lines.len() > 0 && is_set_in(lines[0]) {
        seq![lines[0].skip(2)] + set_in_first(lines.drop_first())
    } else {
        Seq::empty()
    }
}

/// The lines that are set in right below the first of `lines` that starts with `label`, without the
/// two spaces.
pub open spec fn below_label(lines: Seq<Seq<char>>, label: Seq<char>) -> Seq<Seq<char>>
    decreases lines.len(),
{
    if lines.len() == 0 {
        Seq::empty()
    } else if label.is_prefix_of(lines[0]) {
        set_in_first(lines.drop_first())
    } else {
        below_label(lines.drop_first(), label)
    }
}

/// What a report tells under `label`, below its heading.
pub open spec fn told(report: Seq<char>, label: Seq<char>) -> Option<Seq<char>> {
    behind_label(parted(report).skip(1), label)
}

/// What a report lists under `label`, below its heading.
pub open spec fn listed(report: Seq<char>, label: Seq<char>) -> Seq<Seq<char>> {
    below_label(parted(report).skip(1), label)
}

// ---- lines with their ends ----

/// Each of `lines` with a line feed behind it.
pub open spec fn ended(lines: Seq<Seq<char>>) -> Seq<char>
    decreases lines.len(),
{
    if lines.len() == 0 {
        Seq::empty()
    } else {
        ended(lines.drop_last()) + lines.last().push('\n')
    }
}

/// Whether no line holds a line feed.
pub open spec fn are_lines(lines: Seq<Seq<char>>) -> bool {
    forall|i: int| 0 <= i < lines.len() ==> !(#[trigger] lines[i]).contains('\n')
}

pub(crate) proof fn ended_adds_up(a: Seq<Seq<char>>, b: Seq<Seq<char>>)
    ensures
        ended(a + b) == ended(a) + ended(b),
    decreases b.len(),
{
    if b.len() == 0 {
        assert(a + b =~= a);
        assert(ended(a) + ended(b) =~= ended(a));
    } else {
        ended_adds_up(a, b.drop_last());
        assert((a + b).drop_last() =~= a + b.drop_last());
        assert(ended(a + b) =~= ended(a) + ended(b));
    }
}

pub(crate) proof fn ended_one(line: Seq<char>)
    ensures
        ended(seq![line]) == line.push('\n'),
{
    assert(seq![line].drop_last() =~= Seq::<Seq<char>>::empty());
    assert(seq![line].last() == line);
    assert(ended(Seq::<Seq<char>>::empty()) =~= Seq::<char>::empty());
    assert(ended(seq![line]) =~= line.push('\n'));
}

/// Lines with their ends come apart again: every one, in order, and nothing behind the last end.
pub proof fn ended_lines_come_apart(lines: Seq<Seq<char>>)
    requires
        are_lines(lines),
    ensures
        parted(ended(lines)) == lines.push(Seq::<char>::empty()),
    decreases lines.len(),
{
    let empty = Seq::<char>::empty();
    if lines.len() == 0 {
        texts_are_parted_at_line_feeds(empty, empty);
        assert(ended(lines) =~= empty);
        assert(seq![empty] =~= lines.push(empty));
    } else {
        let first = lines[0];
        let rest = lines.drop_first();
        assert(lines =~= seq![first] + rest);
        assert forall|i: int| 0 <= i < rest.len() implies !(#[trigger] rest[i]).contains('\n') by {
            assert(rest[i] == lines[i + 1]);
        }
        ended_lines_come_apart(rest);
        ended_adds_up(seq![first], rest);
        ended_one(first);
        texts_are_parted_at_line_feeds(first, ended(rest));
        assert(seq![first] + rest.push(empty) =~= lines.push(empty));
    }
}

// ---- blocks ----

/// A label, and the lines that it stands for: none, or one that starts with the label and below that
/// lines which are set in.
pub struct Block {
    pub label: Seq<char>,
    pub lines: Seq<Seq<char>>,
}

impl Block {
    pub open spec fn well_formed(self) -> bool {
        &&& self.label.len() >= 3
        &&& self.label[0] != ' '
        &&& self.lines.len() > 0 ==> self.label.is_prefix_of(self.lines[0])
        &&& forall|i: int| 1 <= i < self.lines.len() ==> is_set_in(#[trigger] self.lines[i])
    }
}

/// Whether two labels differ in their first three characters.
pub open spec fn differ(a: Seq<char>, b: Seq<char>) -> bool {
    a[0] != b[0] || a[1] != b[1] || a[2] != b[2]
}

/// The lines of `blocks`.
pub open spec fn lines_of(blocks: Seq<Block>) -> Seq<Seq<char>>
    decreases blocks.len(),
{
    if blocks.len() == 0 {
        Seq::empty()
    } else {
        lines_of(blocks.drop_last()) + blocks.last().lines
    }
}

/// Whether none of `lines` starts with `label`.
spec fn none_starts_with(lines: Seq<Seq<char>>, label: Seq<char>) -> bool {
    forall|i: int| 0 <= i < lines.len() ==> !label.is_prefix_of(#[trigger] lines[i])
}

proof fn other_lines_are_passed_over(
    a: Seq<Seq<char>>,
    b: Seq<Seq<char>>,
    label: Seq<char>,
)
    requires
        none_starts_with(a, label),
    ensures
        behind_label(a + b, label) == behind_label(b, label),
        below_label(a + b, label) == below_label(b, label),
    decreases a.len(),
{
    if a.len() == 0 {
        assert(a + b =~= b);
    } else {
        let rest = a.drop_first();
        assert forall|i: int| 0 <= i < rest.len() implies !label.is_prefix_of(
            #[trigger] rest[i],
        ) by {
            assert(rest[i] == a[i + 1]);
        }
        other_lines_are_passed_over(rest, b, label);
        assert((a + b).drop_first() =~= rest + b);
        assert((a + b)[0] == a[0]);
    }
}

proof fn set_in_lines_end(a: Seq<Seq<char>>, b: Seq<Seq<char>>)
    requires
        forall|i: int| 0 <= i < a.len() ==> is_set_in(#[trigger] a[i]),
        b.len() > 0,
        !is_set_in(b[0]),
    ensures
        set_in_first(a + b) == a.map_values(|line: Seq<char>| line.skip(2)),
    decreases a.len(),
{
    let cut = |line: Seq<char>| line.skip(2);
    if a.len() == 0 {
        assert(a + b =~= b);
        assert(set_in_first(a + b) =~= a.map_values(cut));
    } else {
        let rest = a.drop_first();
        assert forall|i: int| 0 <= i < rest.len() implies is_set_in(#[trigger] rest[i]) by {
            assert(rest[i] == a[i + 1]);
        }
        set_in_lines_end(rest, b);
        assert((a + b).drop_first() =~= rest + b);
        assert((a + b)[0] == a[0]);
        assert(set_in_first(a + b) =~= a.map_values(cut));
    }
}

proof fn a_block_has_no_other_label(block: Block, label: Seq<char>)
    requires
        block.well_formed(),
        label.len() >= 3,
        label[0] != ' ',
        differ(block.label, label),
    ensures
        none_starts_with(block.lines, label),
{
    assert forall|i: int| 0 <= i < block.lines.len() implies !label.is_prefix_of(
        #[trigger] block.lines[i],
    ) by {
        let line = block.lines[i];
        if label.is_prefix_of(line) {
            let start = line.subrange(0, label.len() as int);
            assert(start[0] == label[0] && start[1] == label[1] && start[2] == label[2]);
            if i == 0 {
                let own = line.subrange(0, block.label.len() as int);
                assert(own[0] == block.label[0] && own[1] == block.label[1] && own[2]
                    == block.label[2]);
            } else {
                assert(is_set_in(line));
            }
        }
    }
}

proof fn other_blocks_have_no_such_line(blocks: Seq<Block>, label: Seq<char>)
    requires
        label.len() >= 3,
        label[0] != ' ',
        forall|i: int|
            0 <= i < blocks.len() ==> (#[trigger] blocks[i]).well_formed() && differ(
                blocks[i].label,
                label,
            ),
    ensures
        none_starts_with(lines_of(blocks), label),
    decreases blocks.len(),
{
    if blocks.len() > 0 {
        let rest = blocks.drop_last();
        let last = blocks[blocks.len() - 1];
        assert forall|i: int| 0 <= i < rest.len() implies (#[trigger] rest[i]).well_formed()
            && differ(rest[i].label, label) by {
            assert(rest[i] == blocks[i]);
        }
        other_blocks_have_no_such_line(rest, label);
        a_block_has_no_other_label(last, label);
        let all = lines_of(blocks);
        assert forall|i: int| 0 <= i < all.len() implies !label.is_prefix_of(
            #[trigger] all[i],
        ) by {
            if i < lines_of(rest).len() {
                assert(all[i] == lines_of(rest)[i]);
            } else {
                assert(all[i] == last.lines[i - lines_of(rest).len()]);
            }
        }
    }
}

/// Whether `blocks` are blocks, and no two labels start alike.
pub open spec fn are_blocks(blocks: Seq<Block>) -> bool {
    &&& forall|i: int| 0 <= i < blocks.len() ==> (#[trigger] blocks[i]).well_formed()
    &&& forall|i: int, j: int|
        0 <= i < blocks.len() && 0 <= j < blocks.len() && i != j ==> differ(
            (#[trigger] blocks[i]).label,
            (#[trigger] blocks[j]).label,
        )
}

/// A block is found by its label, whatever other blocks stand before it and behind it.
pub(crate) proof fn blocks_are_found(blocks: Seq<Block>, tail: Seq<Seq<char>>, j: int)
    requires
        are_blocks(blocks),
        0 <= j < blocks.len(),
        tail.len() > 0,
        !is_set_in(tail[0]),
        forall|i: int| 0 <= i < tail.len() ==> !blocks[j].label.is_prefix_of(#[trigger] tail[i]),
    ensures
        behind_label(lines_of(blocks) + tail, blocks[j].label) == if blocks[j].lines.len() == 0 {
            None
        } else {
            Some(blocks[j].lines[0].skip(blocks[j].label.len() as int))
        },
        below_label(lines_of(blocks) + tail, blocks[j].label) == if blocks[j].lines.len() == 0 {
            Seq::<Seq<char>>::empty()
        } else {
            blocks[j].lines.skip(1).map_values(|line: Seq<char>| line.skip(2))
        },
    decreases blocks.len(),
{
    let label = blocks[j].label;
    let rest = blocks.drop_last();
    let last = blocks[blocks.len() - 1];
    let more = last.lines + tail;
    let end = blocks.len() - 1;
    assert forall|i: int| 0 <= i < rest.len() implies #[trigger] rest[i] == blocks[i] by {}
    assert(lines_of(blocks) + tail =~= lines_of(rest) + more);
    if j == end {
        assert forall|i: int| 0 <= i < rest.len() implies (#[trigger] rest[i]).well_formed()
            && differ(rest[i].label, label) by {
            assert(differ(blocks[i].label, blocks[j].label));
        }
        other_blocks_have_no_such_line(rest, label);
        other_lines_are_passed_over(lines_of(rest), more, label);
        if last.lines.len() == 0 {
            assert(more =~= tail);
            assert(none_starts_with(tail, label));
            other_lines_are_passed_over(tail, Seq::empty(), label);
            assert(tail + Seq::<Seq<char>>::empty() =~= tail);
        } else {
            let inner = last.lines.skip(1);
            assert forall|i: int| 0 <= i < inner.len() implies is_set_in(#[trigger] inner[i]) by {
                assert(inner[i] == last.lines[i + 1]);
            }
            assert(more[0] == last.lines[0]);
            assert(more.drop_first() =~= inner + tail);
            set_in_lines_end(inner, tail);
        }
    } else {
        assert(differ(blocks[end].label, blocks[j].label));
        a_block_has_no_other_label(last, label);
        assert forall|i: int| 0 <= i < more.len() implies !label.is_prefix_of(
            #[trigger] more[i],
        ) by {
            if i < last.lines.len() {
                assert(more[i] == last.lines[i]);
            } else {
                assert(more[i] == tail[i - last.lines.len()]);
            }
        }
        assert(!is_set_in(more[0])) by {
            if last.lines.len() > 0 {
                let own = more[0].subrange(0, last.label.len() as int);
                assert(own[0] == last.label[0]);
            } else {
                assert(more[0] == tail[0]);
            }
        }
        assert(are_blocks(rest)) by {
            assert forall|a: int, b: int|
                0 <= a < rest.len() && 0 <= b < rest.len() && a != b implies differ(
                (#[trigger] rest[a]).label,
                (#[trigger] rest[b]).label,
            ) by {
                assert(differ(blocks[a].label, blocks[b].label));
            }
        }
        blocks_are_found(rest, more, j);
    }
}

/// What a report tells and lists under the label of one of its blocks is what that block says.
pub(crate) proof fn a_report_tells_its_blocks(
    report: Seq<char>,
    heading: Seq<char>,
    blocks: Seq<Block>,
    j: int,
)
    requires
        report == ended(seq![heading] + lines_of(blocks)),
        !heading.contains('\n'),
        are_lines(lines_of(blocks)),
        are_blocks(blocks),
        0 <= j < blocks.len(),
    ensures
        parted(report) == (seq![heading] + lines_of(blocks)).push(Seq::<char>::empty()),
        told(report, blocks[j].label) == if blocks[j].lines.len() == 0 {
            None
        } else {
            Some(blocks[j].lines[0].skip(blocks[j].label.len() as int))
        },
        listed(report, blocks[j].label) == if blocks[j].lines.len() == 0 {
            Seq::<Seq<char>>::empty()
        } else {
            blocks[j].lines.skip(1).map_values(|line: Seq<char>| line.skip(2))
        },
{
    let all = seq![heading] + lines_of(blocks);
    assert forall|i: int| 0 <= i < all.len() implies !(#[trigger] all[i]).contains('\n') by {
        if i > 0 {
            assert(all[i] == lines_of(blocks)[i - 1]);
        }
    }
    ended_lines_come_apart(all);
    let tail = seq![Seq::<char>::empty()];
    assert(parted(report).skip(1) =~= lines_of(blocks) + tail);
    assert(!is_set_in(tail[0]));
    blocks_are_found(blocks, tail, j);
}

pub(crate) proof fn lines_of_one_more(blocks: Seq<Block>, block: Block)
    requires
        are_lines(lines_of(blocks)),
        are_lines(block.lines),
    ensures
        lines_of(blocks.push(block)) == lines_of(blocks) + block.lines,
        are_lines(lines_of(blocks.push(block))),
        ended(lines_of(blocks.push(block))) == ended(lines_of(blocks)) + ended(block.lines),
{
    assert(blocks.push(block).drop_last() =~= blocks);
    assert(blocks.push(block).last() == block);
    ended_adds_up(lines_of(blocks), block.lines);
    let all = lines_of(blocks.push(block));
    assert forall|i: int| 0 <= i < all.len() implies !(#[trigger] all[i]).contains('\n') by {
        if i < lines_of(blocks).len() {
            assert(all[i] == lines_of(blocks)[i]);
        } else {
            assert(all[i] == block.lines[i - lines_of(blocks).len()]);
        }
    }
}

// ---- order ----

/// The number of the first of `lines` that starts with `label`; how many there are where none does.
pub open spec fn place_of(lines: Seq<Seq<char>>, label: Seq<char>) -> int
    decreases lines.len(),
{
    if lines.len() == 0 || label.is_prefix_of(lines[0]) {
        0
    } else {
        1 + place_of(lines.drop_first(), label)
    }
}

proof fn place_behind_others(a: Seq<Seq<char>>, b: Seq<Seq<char>>, label: Seq<char>)
    requires
        none_starts_with(a, label),
    ensures
        place_of(a + b, label) == a.len() + place_of(b, label),
    decreases a.len(),
{
    if a.len() == 0 {
        assert(a + b =~= b);
    } else {
        let rest = a.drop_first();
        assert forall|i: int| 0 <= i < rest.len() implies !label.is_prefix_of(
            #[trigger] rest[i],
        ) by {
            assert(rest[i] == a[i + 1]);
        }
        place_behind_others(rest, b, label);
        assert((a + b).drop_first() =~= rest + b);
        assert((a + b)[0] == a[0]);
    }
}

proof fn place_of_a_block(blocks: Seq<Block>, tail: Seq<Seq<char>>, j: int)
    requires
        are_blocks(blocks),
        0 <= j < blocks.len(),
        blocks[j].lines.len() > 0,
    ensures
        place_of(lines_of(blocks) + tail, blocks[j].label) == lines_of(blocks.take(j)).len(),
    decreases blocks.len(),
{
    let label = blocks[j].label;
    let rest = blocks.drop_last();
    let last = blocks[blocks.len() - 1];
    let more = last.lines + tail;
    assert forall|i: int| 0 <= i < rest.len() implies #[trigger] rest[i] == blocks[i] by {}
    assert(lines_of(blocks) + tail =~= lines_of(rest) + more);
    if j == blocks.len() - 1 {
        assert forall|i: int| 0 <= i < rest.len() implies (#[trigger] rest[i]).well_formed()
            && differ(rest[i].label, label) by {
            assert(differ(blocks[i].label, blocks[j].label));
        }
        other_blocks_have_no_such_line(rest, label);
        place_behind_others(lines_of(rest), more, label);
        assert(more[0] == last.lines[0]);
        assert(blocks.take(j) =~= rest);
    } else {
        assert(are_blocks(rest)) by {
            assert forall|a: int, b: int|
                0 <= a < rest.len() && 0 <= b < rest.len() && a != b implies differ(
                (#[trigger] rest[a]).label,
                (#[trigger] rest[b]).label,
            ) by {
                assert(differ(blocks[a].label, blocks[b].label));
            }
        }
        place_of_a_block(rest, more, j);
        assert(rest.take(j) =~= blocks.take(j));
    }
}

proof fn lines_of_more_blocks(blocks: Seq<Block>, i: int, j: int)
    requires
        0 <= i < j <= blocks.len(),
    ensures
        lines_of(blocks.take(i)).len() + blocks[i].lines.len() <= lines_of(blocks.take(j)).len(),
    decreases j,
{
    assert(blocks.take(j).drop_last() =~= blocks.take(j - 1));
    assert(blocks.take(j).last() == blocks[j - 1]);
    if i < j - 1 {
        lines_of_more_blocks(blocks, i, j - 1);
    }
}

/// The blocks of a report stand in their order.
pub(crate) proof fn blocks_stand_in_order(
    report: Seq<char>,
    heading: Seq<char>,
    blocks: Seq<Block>,
    i: int,
    j: int,
)
    requires
        report == ended(seq![heading] + lines_of(blocks)),
        !heading.contains('\n'),
        are_lines(lines_of(blocks)),
        are_blocks(blocks),
        0 <= i < j < blocks.len(),
        blocks[i].lines.len() > 0,
        blocks[j].lines.len() > 0,
    ensures
        place_of(parted(report).skip(1), blocks[i].label) < place_of(
            parted(report).skip(1),
            blocks[j].label,
        ),
{
    a_report_tells_its_blocks(report, heading, blocks, i);
    let tail = seq![Seq::<char>::empty()];
    assert(parted(report).skip(1) =~= lines_of(blocks) + tail);
    place_of_a_block(blocks, tail, i);
    place_of_a_block(blocks, tail, j);
    lines_of_more_blocks(blocks, i, j);
}

} // verus!
