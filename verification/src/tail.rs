//! The last lines of a stream.

use crate::capsule::STDERR_TAIL_LINES;
use crate::text::{first_line, first_line_of, line_break_is_first, lines, texts, without_return};
use std::collections::VecDeque;
use vstd::prelude::*;
use vstd::utf8::{
    decode_utf8, encode_utf8, encode_utf8_decode_utf8, encode_utf8_valid_utf8, valid_utf8,
};

verus! {

/// The last lines of stderr that were seen, as many as a capsule keeps.
pub struct StderrTail {
    lines: VecDeque<String>,
}

/// The last of `lines`, as many as a capsule keeps.
pub open spec fn last_lines(lines: Seq<Seq<char>>) -> Seq<Seq<char>> {
    if lines.len() <= STDERR_TAIL_LINES {
        lines
    } else {
        lines.skip(lines.len() - STDERR_TAIL_LINES)
    }
}

/// What is kept of `lines` when they are seen one after the other.
pub open spec fn kept_of(lines: Seq<Seq<char>>) -> Seq<Seq<char>>
    decreases lines.len(),
{
    if lines.len() == 0 {
        Seq::empty()
    } else {
        last_lines(kept_of(lines.drop_last()).push(lines.last()))
    }
}

/// Of lines that are seen one after the other the last ones are kept.
pub proof fn the_last_lines_are_kept(lines: Seq<Seq<char>>)
    ensures
        kept_of(lines) == last_lines(lines),
    decreases lines.len(),
{
    if lines.len() > 0 {
        the_last_lines_are_kept(lines.drop_last());
        assert(kept_of(lines) =~= last_lines(lines));
    } else {
        assert(kept_of(lines) =~= lines);
    }
}

impl View for StderrTail {
    type V = Seq<Seq<char>>;

    closed spec fn view(&self) -> Seq<Seq<char>> {
        texts(self.lines@)
    }
}

impl StderrTail {
    /// No more lines are held than a capsule keeps.
    pub open spec fn well_formed(&self) -> bool {
        self@.len() <= STDERR_TAIL_LINES
    }

    /// No line was seen yet.
    pub fn new() -> (r: Self)
        ensures
            r.well_formed(),
            r@ == Seq::<Seq<char>>::empty(),
    {
        let r = StderrTail { lines: VecDeque::with_capacity(STDERR_TAIL_LINES) };
        assert(r@ =~= Seq::<Seq<char>>::empty());
        r
    }

    /// One more line was seen.
    pub fn push(&mut self, line: String)
        requires
            old(self).well_formed(),
        ensures
            final(self).well_formed(),
            final(self)@ == last_lines(old(self)@.push(line@)),
    {
        let ghost before = self@;
        assert(before.len() == self.lines@.len());
        if self.lines.len() == STDERR_TAIL_LINES {
            self.lines.pop_front();
            assert(texts(self.lines@) =~= before.skip(1));
        }
        self.lines.push_back(line);
        assert(self@ =~= last_lines(before.push(line@)));
    }

    /// The lines that are kept.
    pub fn into_lines(self) -> (r: Vec<String>)
        requires
            self.well_formed(),
        ensures
            texts(r@) == self@,
            r@.len() <= STDERR_TAIL_LINES,
    {
        let ghost all = self@;
        let mut rest = self.lines;
        let mut out: Vec<String> = Vec::new();
        assert(texts(out@) + texts(rest@) =~= all);
        while rest.len() > 0
            invariant
                texts(out@) + texts(rest@) == all,
            decreases rest@.len(),
        {
            let ghost left = rest@;
            if let Some(line) = rest.pop_front() {
                assert(texts(out@.push(line)) =~= texts(out@).push(line@));
                assert(texts(left) =~= seq![line@] + texts(rest@));
                assert(texts(out@).push(line@) + texts(rest@) =~= all);
                out.push(line);
            }
        }
        assert(texts(out@) =~= all);
        out
    }
}

// ---- bytes ----

/// What `String::from_utf8_lossy` gives: the text of `bytes`, with a replacement character for what
/// is no UTF-8.
pub uninterp spec fn lossy_text(bytes: Seq<u8>) -> Seq<char>;

/// `String::from_utf8_lossy`: `lossy_text`, which is the text itself where the bytes are UTF-8.
#[verifier::external_body]
fn from_lossy(bytes: &[u8]) -> (r: String)
    ensures
        r@ == lossy_text(bytes@),
        valid_utf8(bytes@) ==> r@ == decode_utf8(bytes@),
{
    String::from_utf8_lossy(bytes).into_owned()
}

/// The line that was read as `bytes`, without its end. Bytes that are no UTF-8 do not lose it.
pub fn stderr_line(bytes: &[u8]) -> (r: String)
    ensures
        r@ == first_line(lossy_text(bytes@)),
        valid_utf8(bytes@) ==> r@ == first_line(decode_utf8(bytes@)),
{
    first_line_of(from_lossy(bytes).as_str())
}

/// A line of text is read back without its line feed, nor a carriage return before that.
pub proof fn a_line_is_read_back(line: Seq<char>)
    requires
        !line.contains('\n'),
    ensures
        valid_utf8(encode_utf8(line.push('\n'))),
        first_line(decode_utf8(encode_utf8(line.push('\n')))) == without_return(line),
{
    let s = line.push('\n');
    encode_utf8_valid_utf8(s);
    encode_utf8_decode_utf8(s);
    assert forall|i: int| 0 <= i < line.len() implies s[i] != '\n' by {
        assert(s[i] == line[i]);
    }
    line_break_is_first(s, line.len() as int);
    assert(s.take(line.len() as int) =~= line);
    assert(lines(s)[0] == without_return(line));
}

// ---- laws ----

/// What is kept of lines is the end of them: all of them, or as many as a capsule keeps.
pub proof fn the_end_of_the_lines_is_kept(lines: Seq<Seq<char>>)
    ensures
        kept_of(lines).is_suffix_of(lines),
        lines.len() <= STDERR_TAIL_LINES ==> kept_of(lines).len() == lines.len(),
        lines.len() > STDERR_TAIL_LINES ==> kept_of(lines).len() == STDERR_TAIL_LINES,
        last_lines(lines).is_suffix_of(lines),
        last_lines(lines).len() == kept_of(lines).len(),
{
    the_last_lines_are_kept(lines);
    let kept = last_lines(lines);
    assert(lines.subrange(lines.len() - kept.len(), lines.len() as int) =~= kept);
}

} // verus!
