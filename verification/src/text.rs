//! Text: lines, blanks, numbers and padding.
//!
//! Texts are sequences of characters in the specifications. The functions build their results
//! character by character, so that each can be compared with its specification directly.

use vstd::prelude::*;

verus! {

/// What `String::push` does: it appends the character.
pub assume_specification[ String::push ](s: &mut String, c: char)
    ensures
        final(s)@ == old(s)@.push(c),
;

/// The texts that a list of strings holds.
pub open spec fn texts(strings: Seq<String>) -> Seq<Seq<char>> {
    strings.map_values(|s: String| s@)
}

/// The text of an optional string.
pub open spec fn text_of(s: Option<String>) -> Option<Seq<char>> {
    match s {
        Some(s) => Some(s@),
        None => None,
    }
}

/// The characters of `s`.
pub fn chars_of(s: &str) -> (r: Vec<char>)
    ensures
        r@ == s@,
{
    let mut out: Vec<char> = Vec::new();
    for c in it: s.chars()
        invariant
            it.seq() == s@,
            out@ == s@.take(it.index() as int),
    {
        out.push(c);
    }
    out
}

/// The text that `chars` between `from` and `to` spell.
pub fn text_between(chars: &Vec<char>, from: usize, to: usize) -> (r: String)
    requires
        from <= to <= chars@.len(),
    ensures
        r@ == chars@.subrange(from as int, to as int),
{
    let mut out = String::new();
    let mut i: usize = from;
    while i < to
        invariant
            from <= i <= to <= chars@.len(),
            out@ == chars@.subrange(from as int, i as int),
        decreases to - i,
    {
        out.push(chars[i]);
        i += 1;
        assert(out@ =~= chars@.subrange(from as int, i as int));
    }
    out
}

// ---- numbers ----

/// The decimal digit `d`.
pub open spec fn digit(d: nat) -> char {
    (48 + d) as char
}

/// `n` in decimal, without leading zeros.
pub open spec fn decimal(n: nat) -> Seq<char>
    decreases n,
{
    if n < 10 {
        seq![digit(n)]
    } else {
        decimal(n / 10).push(digit(n % 10))
    }
}

/// `n` in decimal, with a minus sign where it is negative.
pub open spec fn signed_decimal(n: int) -> Seq<char> {
    if n < 0 {
        seq!['-'] + decimal((-n) as nat)
    } else {
        decimal(n as nat)
    }
}

/// `count` times the character `c`.
pub open spec fn fill(c: char, count: int) -> Seq<char> {
    Seq::new(
        if count > 0 {
            count as nat
        } else {
            0
        },
        |i: int| c,
    )
}

/// `s` with `c` put before it up to `width` characters.
pub open spec fn pad_left(s: Seq<char>, c: char, width: int) -> Seq<char> {
    fill(c, width - s.len()) + s
}

/// `s` with `c` put after it up to `width` characters.
pub open spec fn pad_right(s: Seq<char>, c: char, width: int) -> Seq<char> {
    s + fill(c, width - s.len())
}

/// Appends `n` in decimal.
pub fn push_decimal(out: &mut String, n: u64)
    ensures
        final(out)@ == old(out)@ + decimal(n as nat),
    decreases n,
{
    let ghost before = out@;
    if n >= 10 {
        push_decimal(out, n / 10);
    }
    let d: u8 = (n % 10) as u8;
    out.push((48 + d) as char);
    assert(out@ =~= before + decimal(n as nat));
}

/// Appends `n` in decimal, with a minus sign where it is negative.
pub fn push_signed(out: &mut String, n: i32)
    ensures
        final(out)@ == old(out)@ + signed_decimal(n as int),
{
    let ghost before = out@;
    let wide: i64 = n as i64;
    if wide < 0 {
        out.push('-');
        push_decimal(out, (-wide) as u64);
    } else {
        push_decimal(out, wide as u64);
    }
    assert(out@ =~= before + signed_decimal(n as int));
}

/// Appends `count` times the character `c`.
pub fn push_fill(out: &mut String, c: char, count: usize)
    ensures
        final(out)@ == old(out)@ + fill(c, count as int),
{
    let ghost before = out@;
    let mut i: usize = 0;
    assert(out@ =~= before + fill(c, 0));
    while i < count
        invariant
            i <= count,
            out@ == before + fill(c, i as int),
        decreases count - i,
    {
        out.push(c);
        i += 1;
        assert(out@ =~= before + fill(c, i as int));
    }
}

/// Appends `s`, with `c` put before it up to `width` characters.
pub fn push_padded_left(out: &mut String, s: &str, c: char, width: usize)
    ensures
        final(out)@ == old(out)@ + pad_left(s@, c, width as int),
{
    let ghost before = out@;
    let len: usize = s.unicode_len();
    if len < width {
        push_fill(out, c, width - len);
    }
    out.append(s);
    assert(out@ =~= before + pad_left(s@, c, width as int));
}

/// Appends `s`, with `c` put after it up to `width` characters.
pub fn push_padded_right(out: &mut String, s: &str, c: char, width: usize)
    ensures
        final(out)@ == old(out)@ + pad_right(s@, c, width as int),
{
    let ghost before = out@;
    let len: usize = s.unicode_len();
    out.append(s);
    if len < width {
        push_fill(out, c, width - len);
    }
    assert(out@ =~= before + pad_right(s@, c, width as int));
}

/// Appends `n` in decimal, with zeros put before it up to `width` digits.
pub fn push_zero_padded(out: &mut String, n: u64, width: usize)
    ensures
        final(out)@ == old(out)@ + pad_left(decimal(n as nat), '0', width as int),
{
    let mut digits = String::new();
    push_decimal(&mut digits, n);
    assert(digits@ =~= decimal(n as nat));
    push_padded_left(out, digits.as_str(), '0', width);
}

// ---- blanks ----

/// Whether `c` has the Unicode property `White_Space`.
pub open spec fn is_blank(c: char) -> bool {
    let u = c as u32;
    ||| 0x9 <= u <= 0xd
    ||| u == 0x20
    ||| u == 0x85
    ||| u == 0xa0
    ||| u == 0x1680
    ||| 0x2000 <= u <= 0x200a
    ||| u == 0x2028
    ||| u == 0x2029
    ||| u == 0x202f
    ||| u == 0x205f
    ||| u == 0x3000
}

/// `s` without the blanks at its start.
pub open spec fn trim_start(s: Seq<char>) -> Seq<char>
    decreases s.len(),
{
    if s.len() > 0 && is_blank(s[0]) {
        trim_start(s.drop_first())
    } else {
        s
    }
}

/// `s` without the blanks at its end.
pub open spec fn trim_end(s: Seq<char>) -> Seq<char>
    decreases s.len(),
{
    if s.len() > 0 && is_blank(s.last()) {
        trim_end(s.drop_last())
    } else {
        s
    }
}

/// `s` without the blanks at its ends.
pub open spec fn trim(s: Seq<char>) -> Seq<char> {
    trim_end(trim_start(s))
}

/// Whether `c` has the Unicode property `White_Space`.
pub fn char_is_blank(c: char) -> (r: bool)
    ensures
        r == is_blank(c),
{
    let u: u32 = c as u32;
    (0x9 <= u && u <= 0xd) || u == 0x20 || u == 0x85 || u == 0xa0 || u == 0x1680 || (0x2000 <= u
        && u <= 0x200a) || u == 0x2028 || u == 0x2029 || u == 0x202f || u == 0x205f || u == 0x3000
}

/// `s` without the blanks at its ends.
pub fn trimmed(s: &str) -> (r: String)
    ensures
        r@ == trim(s@),
{
    let chars = chars_of(s);
    let mut from: usize = 0;
    let mut to: usize = chars.len();
    assert(s@.subrange(0, s@.len() as int) =~= s@);
    while from < to && char_is_blank(chars[from])
        invariant
            from <= to == s@.len(),
            chars@ == s@,
            trim_start(s@) == trim_start(s@.subrange(from as int, to as int)),
        decreases to - from,
    {
        assert(s@.subrange(from as int, to as int).drop_first() =~= s@.subrange(
            from + 1,
            to as int,
        ));
        from += 1;
    }
    assert(trim_start(s@) == s@.subrange(from as int, to as int));
    while from < to && char_is_blank(chars[to - 1])
        invariant
            from <= to <= s@.len(),
            chars@ == s@,
            trim(s@) == trim_end(s@.subrange(from as int, to as int)),
        decreases to - from,
    {
        assert(s@.subrange(from as int, to as int).drop_last() =~= s@.subrange(
            from as int,
            to - 1,
        ));
        to -= 1;
    }
    text_between(&chars, from, to)
}

// ---- lines ----

/// The length of the first line of `s`: the position of its first line feed, or its length.
pub open spec fn line_break(s: Seq<char>) -> nat
    decreases s.len(),
{
    if s.len() == 0 || s[0] == '\n' {
        0
    } else {
        1 + line_break(s.drop_first())
    }
}

/// A line without the carriage return that belongs to its line end.
pub open spec fn without_return(line: Seq<char>) -> Seq<char> {
    if line.len() > 0 && line.last() == '\r' {
        line.drop_last()
    } else {
        line
    }
}

/// The lines of `s`. A line ends with a line feed, or with a carriage return and a line feed;
/// the last one may lack its end.
pub open spec fn lines(s: Seq<char>) -> Seq<Seq<char>>
    decreases s.len(),
{
    let n = line_break(s) as int;
    if s.len() == 0 {
        Seq::empty()
    } else if 0 <= n < s.len() {
        seq![without_return(s.take(n))] + lines(s.skip(n + 1))
    } else {
        seq![s]
    }
}

/// The first line of `s`; the empty text where there is none.
pub open spec fn first_line(s: Seq<char>) -> Seq<char> {
    if lines(s).len() > 0 {
        lines(s)[0]
    } else {
        Seq::empty()
    }
}

/// The first line feed is where no earlier character is one.
pub proof fn line_break_is_first(s: Seq<char>, n: int)
    requires
        0 <= n <= s.len(),
        forall|i: int| 0 <= i < n ==> s[i] != '\n',
        n < s.len() ==> s[n] == '\n',
    ensures
        line_break(s) == n,
    decreases s.len(),
{
    if n > 0 {
        line_break_is_first(s.drop_first(), n - 1);
    }
}

/// The lines of `s`.
pub fn split_lines(s: &str) -> (r: Vec<String>)
    ensures
        texts(r@) == lines(s@),
{
    let chars = chars_of(s);
    let len: usize = chars.len();
    let mut out: Vec<String> = Vec::new();
    let mut start: usize = 0;
    let mut i: usize = 0;
    assert(s@.skip(0) =~= s@);
    assert(texts(out@) + lines(s@) =~= lines(s@));
    while i < len
        invariant
            start <= i <= len == s@.len(),
            chars@ == s@,
            forall|k: int| start <= k < i ==> s@[k] != '\n',
            lines(s@) == texts(out@) + lines(s@.skip(start as int)),
        decreases len - i,
    {
        if chars[i] == '\n' {
            let ghost rest = s@.skip(start as int);
            let ghost before = texts(out@);
            proof {
                line_break_is_first(rest, i - start);
                assert(rest.take(i - start) =~= s@.subrange(start as int, i as int));
                assert(rest.skip(i - start + 1) =~= s@.skip(i + 1));
            }
            let end: usize = if start < i && chars[i - 1] == '\r' {
                i - 1
            } else {
                i
            };
            let line = text_between(&chars, start, end);
            assert(line@ =~= without_return(s@.subrange(start as int, i as int)));
            out.push(line);
            assert(texts(out@) =~= before.push(line@));
            start = i + 1;
            assert(before.push(line@) + lines(s@.skip(start as int)) =~= before + (seq![line@]
                + lines(s@.skip(start as int))));
        }
        i += 1;
    }
    let ghost rest = s@.skip(start as int);
    let ghost before = texts(out@);
    if start < len {
        proof {
            line_break_is_first(rest, rest.len() as int);
            assert(rest =~= s@.subrange(start as int, len as int));
        }
        out.push(text_between(&chars, start, len));
        assert(texts(out@) =~= before + seq![rest]);
    } else {
        assert(rest.len() == 0);
        assert(before + lines(rest) =~= before);
    }
    out
}

/// The first line of `s`; the empty text where there is none.
pub fn first_line_of(s: &str) -> (r: String)
    ensures
        r@ == first_line(s@),
{
    let all = split_lines(s);
    if all.len() > 0 {
        assert(texts(all@)[0] == all@[0]@);
        all[0].clone()
    } else {
        String::new()
    }
}

// ---- lists ----

/// `parts` one after the other, with `separator` between each two.
pub open spec fn join(parts: Seq<Seq<char>>, separator: Seq<char>) -> Seq<char>
    decreases parts.len(),
{
    if parts.len() == 0 {
        Seq::empty()
    } else if parts.len() == 1 {
        parts[0]
    } else {
        join(parts.drop_last(), separator) + separator + parts.last()
    }
}

/// Appends `parts` one after the other, with `separator` between each two.
pub fn push_joined(out: &mut String, parts: &Vec<String>, separator: &str)
    ensures
        final(out)@ == old(out)@ + join(texts(parts@), separator@),
{
    let ghost before = out@;
    let ghost all = texts(parts@);
    let mut i: usize = 0;
    assert(out@ =~= before + join(all.take(0), separator@));
    while i < parts.len()
        invariant
            i <= parts@.len(),
            all == texts(parts@),
            out@ == before + join(all.take(i as int), separator@),
        decreases parts@.len() - i,
    {
        if i > 0 {
            out.append(separator);
        }
        out.append(parts[i].as_str());
        proof {
            assert(all.take(i + 1).drop_last() =~= all.take(i as int));
            assert(all.take(i + 1).last() == parts@[i as int]@);
            if i == 0 {
                assert(out@ =~= before + all.take(1)[0]);
            } else {
                assert(out@ =~= before + (join(all.take(i as int), separator@) + separator@
                    + parts@[i as int]@));
            }
        }
        i += 1;
    }
    assert(all.take(i as int) =~= all);
}

// ---- laws ----

/// The texts of a list are those of its strings, one for one.
pub proof fn texts_are_those_of_the_strings(strings: Seq<String>, more: Seq<String>)
    ensures
        texts(strings).len() == strings.len(),
        forall|i: int| 0 <= i < strings.len() ==> #[trigger] texts(strings)[i] == strings[i]@,
        texts(strings + more) == texts(strings) + texts(more),
{
    assert(texts(strings + more) =~= texts(strings) + texts(more));
}

/// An optional string has a text exactly where it is there, and that is its own.
pub proof fn optional_strings_have_their_text(s: String)
    ensures
        text_of(Some(s)) == Some(s@),
        text_of(None) == None::<Seq<char>>,
{
}

/// The number that decimal digits spell.
pub open spec fn value(digits: Seq<char>) -> int
    decreases digits.len(),
{
    if digits.len() == 0 {
        0
    } else {
        10 * value(digits.drop_last()) + (digits.last() as int - '0' as int)
    }
}

/// Whether `s` is made of decimal digits, at least one, and has no needless zero at its start.
pub open spec fn is_numeral(s: Seq<char>) -> bool {
    &&& s.len() > 0
    &&& forall|i: int| 0 <= i < s.len() ==> '0' <= #[trigger] s[i] <= '9'
    &&& s.len() > 1 ==> s[0] != '0'
}

/// A number in decimal reads as that number, and has no needless zeros.
pub proof fn decimals_read_back(n: nat)
    ensures
        is_numeral(decimal(n)),
        value(decimal(n)) == n,
    decreases n,
{
    reveal_with_fuel(value, 2);
    if n < 10 {
        assert(decimal(n).drop_last() =~= Seq::<char>::empty());
    } else {
        decimals_read_back(n / 10);
        let rest = decimal(n / 10);
        assert(decimal(n).drop_last() =~= rest);
        assert(rest.len() == 1 ==> rest.drop_last() =~= Seq::<char>::empty());
        assert forall|i: int| 0 <= i < decimal(n).len() implies '0' <= #[trigger] decimal(n)[i]
            <= '9' by {
            if i < rest.len() {
                assert(decimal(n)[i] == rest[i]);
            }
        }
        assert(decimal(n)[0] == rest[0]);
    }
}

/// A number reads as that number: the digits of its amount, behind a minus sign if it is negative.
pub proof fn signed_decimals_read_back(n: int)
    ensures
        n >= 0 ==> is_numeral(signed_decimal(n)) && value(signed_decimal(n)) == n,
        n < 0 ==> {
            &&& signed_decimal(n)[0] == '-'
            &&& is_numeral(signed_decimal(n).skip(1))
            &&& value(signed_decimal(n).skip(1)) == -n
        },
{
    if n < 0 {
        decimals_read_back((-n) as nat);
        assert(signed_decimal(n).skip(1) =~= decimal((-n) as nat));
    } else {
        decimals_read_back(n as nat);
    }
}

/// Different numbers have different texts.
pub proof fn numbers_are_told_apart(a: int, b: int)
    ensures
        signed_decimal(a) == signed_decimal(b) ==> a == b,
        !signed_decimal(a).contains('\n'),
        signed_decimal(a).len() > 0,
{
    signed_decimals_read_back(a);
    signed_decimals_read_back(b);
    let s = signed_decimal(a);
    assert forall|i: int| 0 <= i < s.len() implies s[i] != '\n' by {
        if a < 0 && i > 0 {
            assert(s[i] == s.skip(1)[i - 1]);
        }
    }
}

/// What is padded is `s` with nothing but `c` before it, and is as wide as asked for, or as wide
/// as `s` if that is wider.
pub proof fn padding_left_keeps_the_text(s: Seq<char>, c: char, width: int)
    ensures
        s.is_suffix_of(pad_left(s, c, width)),
        s.len() >= width ==> pad_left(s, c, width) == s,
        s.len() < width ==> pad_left(s, c, width).len() == width,
        forall|i: int|
            0 <= i < pad_left(s, c, width).len() - s.len() ==> #[trigger] pad_left(
                s,
                c,
                width,
            )[i] == c,
{
    let p = pad_left(s, c, width);
    assert(p.subrange(p.len() - s.len(), p.len() as int) =~= s);
    if s.len() >= width {
        assert(p =~= s);
    }
}

/// What is padded is `s` with nothing but `c` behind it, and is as wide as asked for, or as wide
/// as `s` if that is wider.
pub proof fn padding_right_keeps_the_text(s: Seq<char>, c: char, width: int)
    ensures
        s.is_prefix_of(pad_right(s, c, width)),
        s.len() >= width ==> pad_right(s, c, width) == s,
        s.len() < width ==> pad_right(s, c, width).len() == width,
        forall|i: int|
            s.len() <= i < pad_right(s, c, width).len() ==> #[trigger] pad_right(
                s,
                c,
                width,
            )[i] == c,
{
    let p = pad_right(s, c, width);
    assert(p.subrange(0, s.len() as int) =~= s);
    if s.len() >= width {
        assert(p =~= s);
    }
}

proof fn trim_start_is_a_rest(s: Seq<char>) -> (i: int)
    ensures
        0 <= i <= s.len(),
        trim_start(s) == s.skip(i),
        forall|k: int| 0 <= k < i ==> is_blank(#[trigger] s[k]),
        i < s.len() ==> !is_blank(s[i]),
    decreases s.len(),
{
    if s.len() > 0 && is_blank(s[0]) {
        let rest = s.drop_first();
        let i = trim_start_is_a_rest(rest);
        assert forall|k: int| 0 <= k < i + 1 implies is_blank(#[trigger] s[k]) by {
            if k > 0 {
                assert(is_blank(rest[k - 1]));
            }
        }
        assert(rest.skip(i) =~= s.skip(i + 1));
        i + 1
    } else {
        assert(s.skip(0) =~= s);
        0
    }
}

proof fn trim_end_is_a_start(s: Seq<char>) -> (j: int)
    ensures
        0 <= j <= s.len(),
        trim_end(s) == s.take(j),
        forall|k: int| j <= k < s.len() ==> is_blank(#[trigger] s[k]),
        j > 0 ==> !is_blank(s[j - 1]),
    decreases s.len(),
{
    if s.len() > 0 && is_blank(s.last()) {
        let rest = s.drop_last();
        let j = trim_end_is_a_start(rest);
        assert forall|k: int| j <= k < s.len() implies is_blank(#[trigger] s[k]) by {
            if k < rest.len() {
                assert(is_blank(rest[k]));
            }
        }
        assert(rest.take(j) =~= s.take(j));
        j
    } else {
        assert(s.take(s.len() as int) =~= s);
        s.len() as int
    }
}

/// Trimming takes away blanks at the ends, all of them, and nothing else: between blanks stands
/// what is left, and neither its first character is blank nor its last one.
pub proof fn trimming_takes_the_blanks_at_the_ends(s: Seq<char>)
    ensures
        exists|i: int, j: int|
            {
                &&& 0 <= i <= j <= s.len()
                &&& trim(s) == #[trigger] s.subrange(i, j)
                &&& forall|k: int| 0 <= k < i || j <= k < s.len() ==> is_blank(#[trigger] s[k])
            },
        trim(s).len() > 0 ==> !is_blank(trim(s)[0]) && !is_blank(trim(s).last()),
        trim(s).len() == 0 <==> forall|k: int| 0 <= k < s.len() ==> is_blank(#[trigger] s[k]),
{
    let i = trim_start_is_a_rest(s);
    let rest = s.skip(i);
    let n = trim_end_is_a_start(rest);
    let j = i + n;
    assert(rest.take(n) =~= s.subrange(i, j));
    assert forall|k: int| 0 <= k < i || j <= k < s.len() implies is_blank(#[trigger] s[k]) by {
        if k >= j {
            assert(is_blank(rest[k - i]));
        }
    }
    if n == 0 {
        assert forall|k: int| 0 <= k < s.len() implies is_blank(#[trigger] s[k]) by {}
    } else {
        assert(!is_blank(rest[n - 1]));
        assert(rest[n - 1] == s[j - 1]);
        assert(trim(s)[0] == s[i]);
    }
}

/// A line ends before a line feed, or before a carriage return and a line feed; what follows are
/// the lines of the rest. What has no line feed is one line, as it is, if it is not empty.
pub proof fn lines_end_at_line_feeds(a: Seq<char>, b: Seq<char>)
    requires
        !a.contains('\n'),
    ensures
        lines(a) == if a.len() == 0 {
            Seq::<Seq<char>>::empty()
        } else {
            seq![a]
        },
        lines(a.push('\r').push('\n') + b) == seq![a] + lines(b),
        a.len() == 0 || a.last() != '\r' ==> lines(a.push('\n') + b) == seq![a] + lines(b),
{
    let s = a.push('\r').push('\n') + b;
    let t = a.push('\n') + b;
    let n = a.len() as int;
    assert forall|i: int| 0 <= i < n implies a[i] != '\n' && s[i] == a[i] && t[i] == a[i] by {}
    line_break_is_first(a, n);
    line_break_is_first(s, n + 1);
    line_break_is_first(t, n);
    assert(s.take(n + 1) =~= a.push('\r'));
    assert(a.push('\r').drop_last() =~= a);
    assert(s.skip(n + 2) =~= b);
    assert(t.take(n) =~= a);
    assert(t.skip(n + 1) =~= b);
}

/// The first line of a text is what stands before its first line feed, without a carriage return
/// right before that; all of it where it has none.
pub proof fn the_first_line_comes_first(a: Seq<char>, b: Seq<char>)
    requires
        !a.contains('\n'),
    ensures
        first_line(a) == a,
        first_line(a.push('\r').push('\n') + b) == a,
        a.len() == 0 || a.last() != '\r' ==> first_line(a.push('\n') + b) == a,
        !first_line(b).contains('\n'),
{
    lines_end_at_line_feeds(a, b);
    if a.len() == 0 {
        assert(a =~= Seq::<char>::empty());
    }
    lines_hold_no_line_feed(b);
    if lines(b).len() > 0 {
        assert(!lines(b)[0].contains('\n'));
    }
}

/// No line holds a line feed.
pub proof fn lines_hold_no_line_feed(s: Seq<char>)
    ensures
        forall|i: int| 0 <= i < lines(s).len() ==> !(#[trigger] lines(s)[i]).contains('\n'),
    decreases s.len(),
{
    if s.len() > 0 {
        let n = line_break(s) as int;
        no_line_feed_before_the_break(s);
        if n < s.len() {
            lines_hold_no_line_feed(s.skip(n + 1));
            let first = without_return(s.take(n));
            assert(!first.contains('\n')) by {
                assert forall|k: int| 0 <= k < first.len() implies first[k] != '\n' by {
                    assert(first[k] == s[k]);
                }
            }
            assert forall|i: int| 0 <= i < lines(s).len() implies !(
            #[trigger] lines(s)[i]).contains('\n') by {
                if i > 0 {
                    assert(lines(s)[i] == lines(s.skip(n + 1))[i - 1]);
                }
            }
        }
    }
}

proof fn no_line_feed_before_the_break(s: Seq<char>)
    ensures
        line_break(s) <= s.len(),
        forall|k: int| 0 <= k < line_break(s) ==> #[trigger] s[k] != '\n',
        line_break(s) < s.len() ==> s[line_break(s) as int] == '\n',
    decreases s.len(),
{
    if s.len() > 0 && s[0] != '\n' {
        let rest = s.drop_first();
        no_line_feed_before_the_break(rest);
        assert forall|k: int| 0 <= k < line_break(s) implies #[trigger] s[k] != '\n' by {
            if k > 0 {
                assert(s[k] == rest[k - 1]);
            }
        }
    }
}

/// What stands between the line feeds of `s`, before the first one and behind the last one.
pub open spec fn parted(s: Seq<char>) -> Seq<Seq<char>>
    decreases s.len(),
{
    let n = line_break(s) as int;
    if 0 <= n < s.len() {
        seq![s.take(n)] + parted(s.skip(n + 1))
    } else {
        seq![s]
    }
}

/// A text is parted at its first line feed, and then as the rest is.
pub proof fn texts_are_parted_at_line_feeds(a: Seq<char>, b: Seq<char>)
    requires
        !a.contains('\n'),
    ensures
        parted(a) == seq![a],
        parted(a.push('\n') + b) == seq![a] + parted(b),
{
    let s = a.push('\n') + b;
    let n = a.len() as int;
    assert forall|i: int| 0 <= i < n implies a[i] != '\n' && s[i] == a[i] by {}
    line_break_is_first(a, n);
    line_break_is_first(s, n);
    assert(s.take(n) =~= a);
    assert(s.skip(n + 1) =~= b);
}

/// What is joined of two lists is what is joined of the one, the separator, and what is joined of
/// the other. One part alone is left as it is, and of none there is nothing.
pub proof fn lists_are_joined_one_behind_the_other(
    a: Seq<Seq<char>>,
    b: Seq<Seq<char>>,
    part: Seq<char>,
    separator: Seq<char>,
)
    ensures
        join(Seq::<Seq<char>>::empty(), separator).len() == 0,
        join(seq![part], separator) == part,
        a.len() > 0 && b.len() > 0 ==> join(a + b, separator) == join(a, separator) + separator
            + join(b, separator),
    decreases b.len(),
{
    if a.len() > 0 && b.len() > 0 {
        assert((a + b).drop_last() =~= a + b.drop_last());
        assert((a + b).last() == b.last());
        if b.len() == 1 {
            assert(a + b.drop_last() =~= a);
        } else {
            lists_are_joined_one_behind_the_other(a, b.drop_last(), part, separator);
        }
        assert(join(a + b, separator) =~= join(a, separator) + separator + join(b, separator));
    }
}

/// Lines that are joined with line feeds come apart again: every one, in order.
pub proof fn joined_lines_come_apart(parts: Seq<Seq<char>>)
    requires
        parts.len() > 0,
        forall|i: int| 0 <= i < parts.len() ==> !(#[trigger] parts[i]).contains('\n'),
    ensures
        parted(join(parts, "\n"@)) == parts,
    decreases parts.len(),
{
    reveal_strlit("\n");
    let first = parts[0];
    let rest = parts.drop_first();
    assert(parts =~= seq![first] + rest);
    if rest.len() == 0 {
        assert(parts =~= seq![first]);
        texts_are_parted_at_line_feeds(first, first);
    } else {
        assert forall|i: int| 0 <= i < rest.len() implies !(#[trigger] rest[i]).contains('\n') by {
            assert(rest[i] == parts[i + 1]);
        }
        joined_lines_come_apart(rest);
        lists_are_joined_one_behind_the_other(seq![first], rest, first, "\n"@);
        let b = join(rest, "\n"@);
        assert(join(parts, "\n"@) =~= first.push('\n') + b);
        texts_are_parted_at_line_feeds(first, b);
    }
}

/// Two texts without a line feed have none together.
pub(crate) proof fn together_on_one_line(a: Seq<char>, b: Seq<char>)
    requires
        !a.contains('\n'),
        !b.contains('\n'),
    ensures
        !(a + b).contains('\n'),
{
    assert forall|i: int| 0 <= i < (a + b).len() implies (a + b)[i] != '\n' by {
        if i < a.len() {
            assert(a.contains((a + b)[i]));
        } else {
            assert((a + b)[i] == b[i - a.len()]);
            assert(b.contains((a + b)[i]));
        }
    }
}

pub(crate) proof fn numerals_on_one_line(n: nat, width: int)
    ensures
        !decimal(n).contains('\n'),
        !pad_left(decimal(n), '0', width).contains('\n'),
{
    decimals_read_back(n);
    let s = decimal(n);
    let p = pad_left(s, '0', width);
    assert forall|i: int| 0 <= i < p.len() implies p[i] != '\n' by {
        if i >= p.len() - s.len() {
            assert(p[i] == s[i - (p.len() - s.len())]);
        }
    }
}

pub(crate) proof fn joined_on_one_line(parts: Seq<Seq<char>>, separator: Seq<char>)
    requires
        forall|i: int| 0 <= i < parts.len() ==> !(#[trigger] parts[i]).contains('\n'),
        !separator.contains('\n'),
    ensures
        !join(parts, separator).contains('\n'),
    decreases parts.len(),
{
    if parts.len() > 1 {
        let rest = parts.drop_last();
        assert forall|i: int| 0 <= i < rest.len() implies !(#[trigger] rest[i]).contains('\n') by {
            assert(rest[i] == parts[i]);
        }
        joined_on_one_line(rest, separator);
        together_on_one_line(join(rest, separator), separator);
        assert(!parts[parts.len() - 1].contains('\n'));
        together_on_one_line(join(rest, separator) + separator, parts.last());
    } else if parts.len() == 1 {
        assert(!parts[0].contains('\n'));
    }
}

} // verus!
