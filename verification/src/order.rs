//! The order of names: text compares by its UTF-8 bytes.

use vstd::prelude::*;
use vstd::utf8::*;

verus! {

/// Up to position `at` both byte strings agree; there `a` has ended and `b` goes on, or `a`
/// holds the smaller byte.
pub open spec fn parts_at(a: Seq<u8>, b: Seq<u8>, at: int) -> bool {
    &&& 0 <= at <= a.len()
    &&& at < b.len()
    &&& forall|j: int| 0 <= j < at ==> a[j] == b[j]
    &&& at == a.len() || a[at] < b[at]
}

/// `a` comes before `b`: the byte strings part at some position, where `a` is behind.
pub open spec fn precedes_bytes(a: Seq<u8>, b: Seq<u8>) -> bool {
    exists|at: int| parts_at(a, b, at)
}

/// The name `a` comes before the name `b`.
pub open spec fn precedes(a: Seq<char>, b: Seq<char>) -> bool {
    precedes_bytes(encode_utf8(a), encode_utf8(b))
}

/// Each name comes before all that follow it.
pub open spec fn ascending(names: Seq<Seq<char>>) -> bool {
    forall|i: int, j: int| 0 <= i < j < names.len() ==> #[trigger] precedes(names[i], names[j])
}

/// How two names stand to each other.
#[derive(Debug, Clone, Copy)]
pub enum Place {
    /// The first name comes before the second.
    Before,
    /// The names are the same.
    Same,
    /// The first name comes after the second.
    After,
}

/// Compares two names.
pub fn place(a: &str, b: &str) -> (r: Place)
    ensures
        match r {
            Place::Before => precedes(a@, b@),
            Place::Same => a@ == b@,
            Place::After => precedes(b@, a@),
        },
{
    let x = a.as_bytes();
    let y = b.as_bytes();
    let mut at: usize = 0;
    while at < x.len() && at < y.len()
        invariant
            x@ == encode_utf8(a@),
            y@ == encode_utf8(b@),
            at <= x.len(),
            at <= y.len(),
            forall|j: int| 0 <= j < at ==> x@[j] == y@[j],
        decreases x.len() - at,
    {
        if x[at] < y[at] {
            assert(parts_at(x@, y@, at as int));
            return Place::Before;
        }
        if y[at] < x[at] {
            assert(parts_at(y@, x@, at as int));
            return Place::After;
        }
        at = at + 1;
    }
    if at < y.len() {
        assert(parts_at(x@, y@, at as int));
        Place::Before
    } else if at < x.len() {
        assert(parts_at(y@, x@, at as int));
        Place::After
    } else {
        proof {
            assert(x@ =~= y@);
            encode_utf8_decode_utf8(a@);
            encode_utf8_decode_utf8(b@);
        }
        Place::Same
    }
}

/// Whether two names are the same.
pub fn same(a: &str, b: &str) -> (r: bool)
    ensures
        r == (a@ == b@),
{
    match place(a, b) {
        Place::Before => {
            proof {
                lemma_precedes_asymmetric(a@, b@);
            }
            false
        },
        Place::Same => true,
        Place::After => {
            proof {
                lemma_precedes_asymmetric(b@, a@);
            }
            false
        },
    }
}

/// The order of names is transitive.
pub proof fn lemma_precedes_transitive(a: Seq<char>, b: Seq<char>, c: Seq<char>)
    requires
        precedes(a, b),
        precedes(b, c),
    ensures
        precedes(a, c),
{
    let x = encode_utf8(a);
    let y = encode_utf8(b);
    let z = encode_utf8(c);
    let i = choose|at: int| parts_at(x, y, at);
    let k = choose|at: int| parts_at(y, z, at);
    if i <= k {
        assert(parts_at(x, z, i));
    } else {
        assert(parts_at(x, z, k));
    }
}

/// Two names are never both before each other, and none is before itself.
pub proof fn lemma_precedes_asymmetric(a: Seq<char>, b: Seq<char>)
    requires
        precedes(a, b),
    ensures
        !precedes(b, a),
        a != b,
{
    let x = encode_utf8(a);
    let y = encode_utf8(b);
    let i = choose|at: int| parts_at(x, y, at);
    if precedes(b, a) {
        let k = choose|at: int| parts_at(y, x, at);
    }
    if a == b {
        assert(parts_at(x, x, i));
    }
}

/// Byte strings that agree before `from` are the same, or one comes before the other.
proof fn lemma_bytes_total(a: Seq<u8>, b: Seq<u8>, from: int)
    requires
        0 <= from <= a.len(),
        from <= b.len(),
        forall|j: int| 0 <= j < from ==> a[j] == b[j],
    ensures
        a == b || precedes_bytes(a, b) || precedes_bytes(b, a),
    decreases a.len() - from,
{
    if from == a.len() && from == b.len() {
        assert(a =~= b);
    } else if from == a.len() {
        assert(parts_at(a, b, from));
    } else if from == b.len() {
        assert(parts_at(b, a, from));
    } else if a[from] < b[from] {
        assert(parts_at(a, b, from));
    } else if b[from] < a[from] {
        assert(parts_at(b, a, from));
    } else {
        lemma_bytes_total(a, b, from + 1);
    }
}

/// Of two different names one comes before the other.
pub proof fn lemma_precedes_total(a: Seq<char>, b: Seq<char>)
    requires
        a != b,
    ensures
        precedes(a, b) || precedes(b, a),
{
    encode_utf8_decode_utf8(a);
    encode_utf8_decode_utf8(b);
    lemma_bytes_total(encode_utf8(a), encode_utf8(b), 0);
}

/// Encoding goes character by character.
proof fn lemma_encode_concat(a: Seq<char>, b: Seq<char>)
    ensures
        encode_utf8(a + b) == encode_utf8(a) + encode_utf8(b),
    decreases a.len(),
{
    if a.len() == 0 {
        assert(a + b =~= b);
        assert(encode_utf8(a) + encode_utf8(b) =~= encode_utf8(b));
    } else {
        lemma_encode_concat(a.drop_first(), b);
        assert((a + b).drop_first() =~= a.drop_first() + b);
        assert(encode_utf8(a + b) =~= encode_utf8(a) + encode_utf8(b));
    }
}

/// Leading bytes tell the length of an encoding, and longer ones have greater leading bytes.
proof fn lemma_leading_bytes(v: u32)
    by (bit_vector)
    ensures
        v <= 0x7F ==> (v & 0x7F) as u8 == v,
        0x80 <= v <= 0x7FF ==> 0xC0 <= (0xC0 | ((v >> 6) & 0x1F) as u8) <= 0xDF,
        0x800 <= v <= 0xFFFF ==> 0xE0 <= (0xE0 | ((v >> 12) & 0x0F) as u8) <= 0xEF,
        0x10000 <= v <= 0x10FFFF ==> 0xF0 <= (0xF0 | ((v >> 18) & 0x7) as u8),
{
}

/// Encodings of two bytes are ordered as the scalars are.
proof fn lemma_two_bytes(v: u32, w: u32)
    by (bit_vector)
    requires
        0x80 <= v < w <= 0x7FF,
    ensures
        (0xC0 | ((v >> 6) & 0x1F) as u8) <= (0xC0 | ((w >> 6) & 0x1F) as u8),
        (0xC0 | ((v >> 6) & 0x1F) as u8) == (0xC0 | ((w >> 6) & 0x1F) as u8) ==> (0x80 | (v & 0x3F) as u8) < (
        0x80 | (w & 0x3F) as u8),
{
}

/// Encodings of three bytes are ordered as the scalars are.
proof fn lemma_three_bytes(v: u32, w: u32)
    by (bit_vector)
    requires
        0x800 <= v < w <= 0xFFFF,
    ensures
        (0xE0 | ((v >> 12) & 0x0F) as u8) <= (0xE0 | ((w >> 12) & 0x0F) as u8),
        (0xE0 | ((v >> 12) & 0x0F) as u8) == (0xE0 | ((w >> 12) & 0x0F) as u8) ==> (0x80 | ((v >> 6) & 0x3F) as u8)
            <= (0x80 | ((w >> 6) & 0x3F) as u8),
        (0xE0 | ((v >> 12) & 0x0F) as u8) == (0xE0 | ((w >> 12) & 0x0F) as u8) && (0x80 | ((v >> 6) & 0x3F) as u8)
            == (0x80 | ((w >> 6) & 0x3F) as u8) ==> (0x80 | (v & 0x3F) as u8) < (0x80 | (w & 0x3F) as u8),
{
}

/// Encodings of four bytes are ordered as the scalars are.
proof fn lemma_four_bytes(v: u32, w: u32)
    by (bit_vector)
    requires
        0x10000 <= v < w <= 0x10FFFF,
    ensures
        (0xF0 | ((v >> 18) & 0x7) as u8) <= (0xF0 | ((w >> 18) & 0x7) as u8),
        (0xF0 | ((v >> 18) & 0x7) as u8) == (0xF0 | ((w >> 18) & 0x7) as u8) ==> (0x80 | ((v >> 12) & 0x3F) as u8)
            <= (0x80 | ((w >> 12) & 0x3F) as u8),
        (0xF0 | ((v >> 18) & 0x7) as u8) == (0xF0 | ((w >> 18) & 0x7) as u8) && (0x80 | ((v >> 12) & 0x3F) as u8)
            == (0x80 | ((w >> 12) & 0x3F) as u8) ==> (0x80 | ((v >> 6) & 0x3F) as u8) <= (0x80 | ((w >> 6)
            & 0x3F) as u8),
        (0xF0 | ((v >> 18) & 0x7) as u8) == (0xF0 | ((w >> 18) & 0x7) as u8) && (0x80 | ((v >> 12) & 0x3F) as u8)
            == (0x80 | ((w >> 12) & 0x3F) as u8) && (0x80 | ((v >> 6) & 0x3F) as u8) == (0x80 | ((w >> 6)
            & 0x3F) as u8) ==> (0x80 | (v & 0x3F) as u8) < (0x80 | (w & 0x3F) as u8),
{
}

/// The encoding of the smaller of two scalars holds the smaller byte where the two first differ,
/// and they do differ.
proof fn lemma_scalar_order(v: u32, w: u32) -> (at: int)
    requires
        is_scalar(v),
        is_scalar(w),
        v < w,
    ensures
        0 <= at < encode_scalar(v).len(),
        at < encode_scalar(w).len(),
        forall|j: int| 0 <= j < at ==> encode_scalar(v)[j] == encode_scalar(w)[j],
        encode_scalar(v)[at] < encode_scalar(w)[at],
{
    let x = encode_scalar(v);
    let y = encode_scalar(w);
    lemma_leading_bytes(v);
    lemma_leading_bytes(w);
    if has_width_2_encoding(v) && has_width_2_encoding(w) {
        lemma_two_bytes(v, w);
    } else if has_width_3_encoding(v) && has_width_3_encoding(w) {
        lemma_three_bytes(v, w);
    } else if has_width_4_encoding(v) && has_width_4_encoding(w) {
        lemma_four_bytes(v, w);
    }
    if x[0] != y[0] {
        0
    } else if x[1] != y[1] {
        1
    } else if x[2] != y[2] {
        2
    } else {
        3
    }
}

/// Names are in the order of their characters: behind a common beginning, the name that ends, or that
/// goes on with the smaller character, comes first, whatever follows.
pub proof fn law_first_difference_decides(
    beginning: Seq<char>,
    c: char,
    d: char,
    rest: Seq<char>,
    other_rest: Seq<char>,
)
    ensures
        precedes(beginning, beginning + seq![c] + rest),
        c < d ==> precedes(beginning + seq![c] + rest, beginning + seq![d] + other_rest),
{
    let p = encode_utf8(beginning);
    let a = beginning + seq![c] + rest;
    let b = beginning + seq![d] + other_rest;
    let from_c = seq![c] + rest;
    let from_d = seq![d] + other_rest;
    assert(a =~= beginning + from_c);
    assert(b =~= beginning + from_d);
    lemma_encode_concat(beginning, from_c);
    lemma_encode_concat(beginning, from_d);
    assert(from_c.drop_first() =~= rest);
    assert(from_d.drop_first() =~= other_rest);
    assert(parts_at(p, encode_utf8(a), p.len() as int));
    if c < d {
        char_is_scalar(c);
        char_is_scalar(d);
        let at = lemma_scalar_order(c as u32, d as u32);
        assert(parts_at(encode_utf8(a), encode_utf8(b), p.len() + at));
    }
}

/// Names that agree before `from` are the same, or differ first at some later position, where one ends
/// or holds the smaller character.
proof fn lemma_first_difference(a: Seq<char>, b: Seq<char>, from: int) -> (at: int)
    requires
        0 <= from <= a.len(),
        from <= b.len(),
        a.take(from) == b.take(from),
        a != b,
    ensures
        0 <= at <= a.len(),
        at <= b.len(),
        a.take(at) == b.take(at),
        at < a.len() && at < b.len() ==> a[at] != b[at],
        at < a.len() || at < b.len(),
    decreases a.len() - from,
{
    if from == a.len() || from == b.len() {
        if from == a.len() && from == b.len() {
            assert(a.take(from) =~= a);
            assert(b.take(from) =~= b);
        }
        from
    } else if a[from] != b[from] {
        from
    } else {
        assert(a.take(from + 1) =~= a.take(from).push(a[from]));
        assert(b.take(from + 1) =~= b.take(from).push(b[from]));
        lemma_first_difference(a, b, from + 1)
    }
}

/// A name comes before another exactly where, at the first position at which they differ, it has
/// ended or holds the smaller character.
pub proof fn law_order_is_lexicographic(a: Seq<char>, b: Seq<char>)
    ensures
        precedes(a, b) <==> exists|at: int|
            0 <= at <= a.len() && at < b.len() && #[trigger] a.take(at) == b.take(at) && (at == a.len() || a[at]
                < b[at]),
{
    if exists|at: int|
        0 <= at <= a.len() && at < b.len() && #[trigger] a.take(at) == b.take(at) && (at == a.len() || a[at]
            < b[at]) {
        let at = choose|at: int|
            0 <= at <= a.len() && at < b.len() && #[trigger] a.take(at) == b.take(at) && (at == a.len() || a[at]
                < b[at]);
        lemma_precedes_at(a, b, at);
    }
    if precedes(a, b) {
        lemma_precedes_asymmetric(a, b);
        assert(a.take(0) =~= b.take(0));
        let at = lemma_first_difference(a, b, 0);
        if at == b.len() || (at < a.len() && b[at] < a[at]) {
            lemma_precedes_at(b, a, at);
        }
        assert(a.take(at) == b.take(at));
    }
}

/// A name that has ended or holds the smaller character where two names first differ comes first.
proof fn lemma_precedes_at(a: Seq<char>, b: Seq<char>, at: int)
    requires
        0 <= at <= a.len(),
        at < b.len(),
        a.take(at) == b.take(at),
        at == a.len() || a[at] < b[at],
    ensures
        precedes(a, b),
{
    let beginning = a.take(at);
    assert(b =~= beginning + seq![b[at]] + b.skip(at + 1));
    if at == a.len() {
        assert(a =~= beginning);
        law_first_difference_decides(beginning, b[at], b[at], b.skip(at + 1), b.skip(at + 1));
    } else {
        assert(a =~= beginning + seq![a[at]] + a.skip(at + 1));
        law_first_difference_decides(beginning, a[at], b[at], a.skip(at + 1), b.skip(at + 1));
    }
}

/// Ascending names are in the order of their characters: of any two, the earlier one has ended or
/// holds the smaller character where they first differ.
pub proof fn law_ascending_is_lexicographic(names: Seq<Seq<char>>, i: int, j: int)
    requires
        ascending(names),
        0 <= i < j < names.len(),
    ensures
        exists|at: int|
            0 <= at <= names[i].len() && at < names[j].len() && #[trigger] names[i].take(at) == names[j].take(at)
                && (at == names[i].len() || names[i][at] < names[j][at]),
{
    assert(precedes(names[i], names[j]));
    law_order_is_lexicographic(names[i], names[j]);
}

} // verus!
