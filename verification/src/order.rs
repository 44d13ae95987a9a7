//! The order of texts.

use crate::text::texts;
use vstd::prelude::*;
use vstd::relations::{sorted_by, total_ordering};
use vstd::seq_lib::*;
use vstd::utf8::{
    encode_utf8, encode_utf8_decode_utf8, is_ascii_chars, is_ascii_chars_encode_utf8,
};

verus! {

/// Whether `a` comes before `b` in the order of the first byte in which they differ, or is `b` or
/// a start of it.
pub open spec fn bytes_up_to(a: Seq<u8>, b: Seq<u8>) -> bool
    decreases a.len(),
{
    if a.len() == 0 {
        true
    } else if b.len() == 0 {
        false
    } else if a[0] != b[0] {
        a[0] < b[0]
    } else {
        bytes_up_to(a.drop_first(), b.drop_first())
    }
}

/// Texts in the order of their UTF-8 bytes.
pub open spec fn up_to() -> spec_fn(Seq<char>, Seq<char>) -> bool {
    |a: Seq<char>, b: Seq<char>| bytes_up_to(encode_utf8(a), encode_utf8(b))
}

proof fn bytes_reflexive(a: Seq<u8>)
    ensures
        bytes_up_to(a, a),
    decreases a.len(),
{
    if a.len() > 0 {
        bytes_reflexive(a.drop_first());
    }
}

proof fn bytes_antisymmetric(a: Seq<u8>, b: Seq<u8>)
    requires
        bytes_up_to(a, b),
        bytes_up_to(b, a),
    ensures
        a == b,
    decreases a.len(),
{
    if a.len() > 0 && b.len() > 0 {
        bytes_antisymmetric(a.drop_first(), b.drop_first());
        assert(a =~= seq![a[0]] + a.drop_first());
        assert(b =~= seq![b[0]] + b.drop_first());
    } else {
        assert(a =~= b);
    }
}

proof fn bytes_transitive(a: Seq<u8>, b: Seq<u8>, c: Seq<u8>)
    requires
        bytes_up_to(a, b),
        bytes_up_to(b, c),
    ensures
        bytes_up_to(a, c),
    decreases a.len(),
{
    if a.len() > 0 && b.len() > 0 && c.len() > 0 && a[0] == b[0] && b[0] == c[0] {
        bytes_transitive(a.drop_first(), b.drop_first(), c.drop_first());
    }
}

proof fn bytes_connected(a: Seq<u8>, b: Seq<u8>)
    ensures
        bytes_up_to(a, b) || bytes_up_to(b, a),
    decreases a.len(),
{
    if a.len() > 0 && b.len() > 0 {
        bytes_connected(a.drop_first(), b.drop_first());
    }
}

/// The order of texts is total: any two texts are in order one way, and both ways only where
/// they are the same.
pub proof fn texts_are_totally_ordered()
    ensures
        total_ordering(up_to()),
{
    let leq = up_to();
    assert forall|x: Seq<char>| #[trigger] leq(x, x) by {
        bytes_reflexive(encode_utf8(x));
    }
    assert forall|x: Seq<char>, y: Seq<char>| #[trigger] leq(x, y) && #[trigger] leq(y, x) implies x
        == y by {
        bytes_antisymmetric(encode_utf8(x), encode_utf8(y));
        encode_utf8_decode_utf8(x);
        encode_utf8_decode_utf8(y);
    }
    assert forall|x: Seq<char>, y: Seq<char>, z: Seq<char>| #[trigger]
        leq(x, y) && #[trigger] leq(y, z) implies leq(x, z) by {
        bytes_transitive(encode_utf8(x), encode_utf8(y), encode_utf8(z));
    }
    assert forall|x: Seq<char>, y: Seq<char>| #[trigger] leq(x, y) || #[trigger] leq(y, x) by {
        bytes_connected(encode_utf8(x), encode_utf8(y));
    }
}

/// Whether `a` comes before `b` in the order of their UTF-8 bytes.
pub open spec fn comes_before(a: Seq<char>, b: Seq<char>) -> bool {
    up_to()(a, b) && a != b
}

proof fn first_different_byte(a: Seq<u8>, b: Seq<u8>, k: int)
    requires
        0 <= k < a.len(),
        k < b.len(),
        forall|i: int| 0 <= i < k ==> a[i] == b[i],
        a[k] < b[k],
    ensures
        bytes_up_to(a, b),
    decreases k,
{
    if k > 0 {
        assert(a[0] == b[0]);
        first_different_byte(a.drop_first(), b.drop_first(), k - 1);
    }
}

/// The first character in which two ASCII texts differ decides which comes before the other.
pub proof fn first_difference_decides(a: Seq<char>, b: Seq<char>, k: int)
    requires
        is_ascii_chars(a),
        is_ascii_chars(b),
        0 <= k < a.len(),
        k < b.len(),
        forall|i: int| 0 <= i < k ==> a[i] == b[i],
        a[k] < b[k],
    ensures
        comes_before(a, b),
{
    is_ascii_chars_encode_utf8(a);
    is_ascii_chars_encode_utf8(b);
    let x = encode_utf8(a);
    let y = encode_utf8(b);
    assert(x[k] == a[k] as u8 && y[k] == b[k] as u8);
    assert forall|i: int| 0 <= i < k implies x[i] == y[i] by {
        assert(x[i] == a[i] as u8 && y[i] == b[i] as u8);
    }
    first_different_byte(x, y, k);
}

/// Whether `sorted` holds the texts of `all`, each as often, in order.
pub open spec fn in_order(sorted: Seq<Seq<char>>, all: Seq<Seq<char>>) -> bool {
    &&& sorted_by(sorted, up_to())
    &&& sorted.to_multiset() == all.to_multiset()
}

/// There is one order for given texts, whatever order they came in.
pub proof fn order_is_unique(a: Seq<Seq<char>>, b: Seq<Seq<char>>, all: Seq<Seq<char>>)
    requires
        in_order(a, all),
        in_order(b, all),
    ensures
        a == b,
{
    texts_are_totally_ordered();
    lemma_sorted_unique(a, b, up_to());
}

/// Whether `a` comes before `b` or is `b`.
fn text_up_to(a: &str, b: &str) -> (r: bool)
    ensures
        r == up_to()(a@, b@),
{
    let x = a.as_bytes();
    let y = b.as_bytes();
    let mut i: usize = 0;
    assert(x@.skip(0) =~= x@ && y@.skip(0) =~= y@);
    while i < x.len() && i < y.len() && x[i] == y[i]
        invariant
            i <= x@.len(),
            i <= y@.len(),
            bytes_up_to(x@, y@) == bytes_up_to(x@.skip(i as int), y@.skip(i as int)),
        decreases x@.len() - i,
    {
        assert(x@.skip(i as int).drop_first() =~= x@.skip(i + 1));
        assert(y@.skip(i as int).drop_first() =~= y@.skip(i + 1));
        i += 1;
    }
    i >= x.len() || (i < y.len() && x[i] < y[i])
}

/// `strings` in the order of their UTF-8 bytes.
pub fn sorted(strings: Vec<String>) -> (r: Vec<String>)
    ensures
        in_order(texts(r@), texts(strings@)),
{
    proof {
        texts_are_totally_ordered();
    }
    let mut out: Vec<String> = Vec::new();
    let mut i: usize = 0;
    assert(texts(strings@).take(0) =~= Seq::<Seq<char>>::empty());
    assert(texts(out@) =~= Seq::<Seq<char>>::empty());
    while i < strings.len()
        invariant
            i <= strings@.len(),
            total_ordering(up_to()),
            in_order(texts(out@), texts(strings@).take(i as int)),
        decreases strings@.len() - i,
    {
        let ghost before = texts(out@);
        let mut at: usize = out.len();
        while at > 0 && !text_up_to(out[at - 1].as_str(), strings[i].as_str())
            invariant
                at <= out@.len(),
                i < strings@.len(),
                before == texts(out@),
                forall|k: int| at <= k < before.len() ==> !up_to()(before[k], strings@[i as int]@),
            decreases at,
        {
            at -= 1;
        }
        out.insert(at, strings[i].clone());
        proof {
            let leq = up_to();
            let new = strings@[i as int]@;
            let now = texts(out@);
            assert(now =~= before.insert(at as int, new));
            to_multiset_insert(before, at as int, new);
            assert(texts(strings@).take(i + 1) =~= texts(strings@).take(i as int).push(new));
            to_multiset_build(texts(strings@).take(i as int), new);
            assert forall|a: int, b: int| 0 <= a < b < now.len() implies #[trigger] leq(
                now[a],
                now[b],
            ) by {
                if a < at && b == at {
                    assert(leq(before[at - 1], new));
                    if a < at - 1 {
                        assert(leq(before[a], before[at - 1]));
                    }
                } else if a == at {
                    assert(!leq(before[b - 1], new));
                    assert(leq(new, before[b - 1]));
                } else {
                    let a0 = if a < at { a } else { a - 1 };
                    let b0 = if b < at { b } else { b - 1 };
                    assert(leq(before[a0], before[b0]));
                }
            }
        }
        i += 1;
    }
    assert(texts(strings@).take(i as int) =~= texts(strings@));
    out
}

/// A text that another one starts with comes before that one, or is that one.
pub proof fn starts_come_first(a: Seq<u8>, b: Seq<u8>)
    ensures
        bytes_up_to(a, a + b),
        bytes_up_to(a + b, a) <==> b.len() == 0,
    decreases a.len(),
{
    if a.len() > 0 {
        starts_come_first(a.drop_first(), b);
        assert((a + b).drop_first() =~= a.drop_first() + b);
        assert((a + b)[0] == a[0]);
    } else {
        assert(a + b =~= b);
    }
}

/// The first byte in which two texts differ decides which comes before the other: the one with the
/// smaller byte there.
pub proof fn the_first_different_byte_decides(a: Seq<char>, b: Seq<char>, k: int)
    requires
        0 <= k < encode_utf8(a).len(),
        k < encode_utf8(b).len(),
        forall|i: int| 0 <= i < k ==> encode_utf8(a)[i] == encode_utf8(b)[i],
        encode_utf8(a)[k] < encode_utf8(b)[k],
    ensures
        up_to()(a, b),
        !up_to()(b, a),
{
    first_different_byte(encode_utf8(a), encode_utf8(b), k);
    if up_to()(b, a) {
        bytes_antisymmetric(encode_utf8(a), encode_utf8(b));
    }
}

/// Of texts in order none comes before an earlier one, and each is there as often as it was given.
pub proof fn texts_in_order_rise(sorted: Seq<Seq<char>>, all: Seq<Seq<char>>)
    requires
        in_order(sorted, all),
    ensures
        forall|i: int, j: int|
            0 <= i < j < sorted.len() ==> bytes_up_to(
                encode_utf8(#[trigger] sorted[i]),
                encode_utf8(#[trigger] sorted[j]),
            ),
        forall|s: Seq<char>|
            #[trigger] sorted.to_multiset().count(s) == all.to_multiset().count(s),
{
    let leq = up_to();
    assert forall|i: int, j: int| 0 <= i < j < sorted.len() implies bytes_up_to(
        encode_utf8(#[trigger] sorted[i]),
        encode_utf8(#[trigger] sorted[j]),
    ) by {
        assert(leq(sorted[i], sorted[j]));
    }
}

/// Of two texts at most one comes before the other, and none before itself.
pub proof fn one_text_comes_before_the_other(a: Seq<char>, b: Seq<char>)
    ensures
        comes_before(a, b) ==> !comes_before(b, a) && a != b,
        a != b ==> comes_before(a, b) || comes_before(b, a),
{
    texts_are_totally_ordered();
    let leq = up_to();
    assert(leq(a, b) || leq(b, a));
    if leq(a, b) && leq(b, a) {
        assert(a == b);
    }
}

} // verus!
