//! Offsets into a text.
//!
//! A text field counts in UTF-8 bytes, the platform's text system counts in
//! UTF-16 units, and both have to land between characters.

use vstd::prelude::*;

use crate::text;

verus! {

/// How many bytes a character takes in UTF-8.
pub open spec fn width8(c: char) -> nat {
    vstd::utf8::encode_scalar(c as u32).len()
}

/// How many units a character takes in UTF-16.
pub open spec fn width16(c: char) -> nat {
    if (c as u32) <= 0xFFFF {
        1
    } else {
        2
    }
}

/// How many bytes the first `k` characters of `s` take in UTF-8.
pub open spec fn bytes_to(s: Seq<char>, k: int) -> nat
    decreases k,
{
    if k <= 0 {
        0
    } else {
        bytes_to(s, k - 1) + width8(s[k - 1])
    }
}

/// How many units the first `k` characters of `s` take in UTF-16.
pub open spec fn units_to(s: Seq<char>, k: int) -> nat
    decreases k,
{
    if k <= 0 {
        0
    } else {
        units_to(s, k - 1) + width16(s[k - 1])
    }
}

/// How many bytes `s` takes.
pub open spec fn byte_len(s: Seq<char>) -> nat {
    bytes_to(s, s.len() as int)
}

/// Whether the byte offset `n` lies between characters of `s`.
pub open spec fn boundary(s: Seq<char>, n: int) -> bool {
    exists|k: int| 0 <= k <= s.len() && #[trigger] bytes_to(s, k) == n
}

/// How many characters of `s` stand before the byte offset `n`.
pub open spec fn chars_before(s: Seq<char>, n: int) -> int {
    choose|k: int| 0 <= k <= s.len() && #[trigger] bytes_to(s, k) == n
}

/// The first of the characters `from`, `from + 1`, ... before which at least
/// `units` UTF-16 units stand, or the end of `s`.
pub open spec fn seek16(s: Seq<char>, units: int, from: int) -> int
    decreases s.len() - from,
{
    if from >= s.len() || units_to(s, from) >= units {
        from
    } else {
        seek16(s, units, from + 1)
    }
}

/// The first of the characters `from`, `from + 1`, ... before which at least
/// `bytes` bytes stand, or the end of `s`.
pub open spec fn seek8(s: Seq<char>, bytes: int, from: int) -> int
    decreases s.len() - from,
{
    if from >= s.len() || bytes_to(s, from) >= bytes {
        from
    } else {
        seek8(s, bytes, from + 1)
    }
}

/// The byte offset for a UTF-16 offset. One inside a character moves to the
/// character's end, one past the text to the text's end.
pub open spec fn from_utf16(s: Seq<char>, units: int) -> int {
    bytes_to(s, seek16(s, units, 0)) as int
}

/// The UTF-16 offset for a byte offset, rounded in the same way.
pub open spec fn to_utf16(s: Seq<char>, bytes: int) -> int {
    units_to(s, seek8(s, bytes, 0)) as int
}

// ----------------------------------------------------------------- lemmas --

proof fn lemma_width(c: char)
    ensures
        1 <= width16(c) <= width8(c) <= 4,
        width8(c) == if (c as u32) <= 0x7F {
            1nat
        } else if (c as u32) <= 0x7FF {
            2
        } else if (c as u32) <= 0xFFFF {
            3
        } else {
            4
        },
{
    vstd::utf8::char_is_scalar(c);
}

/// Offsets grow strictly with the characters before them.
pub proof fn lemma_offsets_grow(s: Seq<char>, i: int, j: int)
    requires
        0 <= i <= j,
    ensures
        bytes_to(s, i) + (j - i) <= bytes_to(s, j),
        units_to(s, i) + (j - i) <= units_to(s, j),
        units_to(s, j) <= bytes_to(s, j),
    decreases j,
{
    if j > 0 {
        lemma_width(s[j - 1]);
        if i < j {
            lemma_offsets_grow(s, i, j - 1);
        } else {
            lemma_offsets_grow(s, i - 1, j - 1);
        }
    }
}

/// The characters before an offset are what the offset counts.
pub proof fn lemma_chars_before(s: Seq<char>, k: int)
    requires
        0 <= k <= s.len(),
    ensures
        boundary(s, bytes_to(s, k) as int),
        chars_before(s, bytes_to(s, k) as int) == k,
{
    let n = bytes_to(s, k) as int;
    let m = chars_before(s, n);
    assert(0 <= m <= s.len() && bytes_to(s, m) == n);
    if m < k {
        lemma_offsets_grow(s, m, k);
    }
    if k < m {
        lemma_offsets_grow(s, k, m);
    }
}

/// Only the characters before an offset count towards it.
pub proof fn lemma_prefix_offset(s: Seq<char>, t: Seq<char>, k: int)
    requires
        0 <= k <= s.len(),
        k <= t.len(),
        s.take(k) == t.take(k),
    ensures
        bytes_to(s, k) == bytes_to(t, k),
        units_to(s, k) == units_to(t, k),
    decreases k,
{
    if k > 0 {
        assert(s.take(k - 1) =~= s.take(k).take(k - 1));
        assert(t.take(k - 1) =~= t.take(k).take(k - 1));
        lemma_prefix_offset(s, t, k - 1);
        assert(s[k - 1] == s.take(k)[k - 1]);
        assert(t[k - 1] == t.take(k)[k - 1]);
    }
}

/// The bytes of two texts one after another add up.
pub proof fn lemma_concat_bytes(a: Seq<char>, b: Seq<char>, k: int)
    requires
        0 <= k <= b.len(),
    ensures
        bytes_to(a + b, a.len() + k) == byte_len(a) + bytes_to(b, k),
    decreases k,
{
    if k == 0 {
        assert((a + b).take(a.len() as int) =~= a.take(a.len() as int));
        lemma_prefix_offset(a + b, a, a.len() as int);
    } else {
        lemma_concat_bytes(a, b, k - 1);
        assert((a + b)[a.len() + k - 1] == b[k - 1]);
    }
}

proof fn lemma_encode_concat(a: Seq<char>, b: Seq<char>)
    ensures
        vstd::utf8::encode_utf8(a + b) == vstd::utf8::encode_utf8(a) + vstd::utf8::encode_utf8(b),
    decreases a.len(),
{
    if a.len() == 0 {
        assert(a + b =~= b);
        assert(vstd::utf8::encode_utf8(a) + vstd::utf8::encode_utf8(b)
            =~= vstd::utf8::encode_utf8(b));
    } else {
        assert((a + b).drop_first() =~= a.drop_first() + b);
        lemma_encode_concat(a.drop_first(), b);
        let x = vstd::utf8::encode_scalar(a[0] as u32);
        let y = vstd::utf8::encode_utf8(a.drop_first());
        let z = vstd::utf8::encode_utf8(b);
        assert(x + (y + z) =~= (x + y) + z);
    }
}

/// A byte offset is the length of the UTF-8 encoding of what stands before it.
pub proof fn offsets_count_encoded_bytes(s: Seq<char>, k: int)
    requires
        0 <= k <= s.len(),
    ensures
        bytes_to(s, k) == vstd::utf8::encode_utf8(s.take(k)).len(),
    decreases k,
{
    if k == 0 {
        assert(s.take(0) =~= Seq::<char>::empty());
    } else {
        offsets_count_encoded_bytes(s, k - 1);
        let last = seq![s[k - 1]];
        assert(s.take(k) =~= s.take(k - 1) + last);
        lemma_encode_concat(s.take(k - 1), last);
        assert(last.drop_first() =~= Seq::<char>::empty());
        assert(vstd::utf8::encode_utf8(last.drop_first()).len() == 0);
    }
}

/// Seeking stops at the first character with enough before it.
pub proof fn lemma_seek16(s: Seq<char>, units: int, from: int)
    requires
        0 <= from <= s.len(),
        forall|k: int| 0 <= k < from ==> #[trigger] units_to(s, k) < units,
    ensures
        from <= seek16(s, units, from) <= s.len(),
        forall|k: int| 0 <= k < seek16(s, units, from) ==> #[trigger] units_to(s, k) < units,
        seek16(s, units, from) < s.len() ==> units_to(s, seek16(s, units, from)) >= units,
    decreases s.len() - from,
{
    if from < s.len() && units_to(s, from) < units {
        lemma_seek16(s, units, from + 1);
    }
}

/// Seeking stops at the first character with enough before it.
pub proof fn lemma_seek8(s: Seq<char>, bytes: int, from: int)
    requires
        0 <= from <= s.len(),
        forall|k: int| 0 <= k < from ==> #[trigger] bytes_to(s, k) < bytes,
    ensures
        from <= seek8(s, bytes, from) <= s.len(),
        forall|k: int| 0 <= k < seek8(s, bytes, from) ==> #[trigger] bytes_to(s, k) < bytes,
        seek8(s, bytes, from) < s.len() ==> bytes_to(s, seek8(s, bytes, from)) >= bytes,
    decreases s.len() - from,
{
    if from < s.len() && bytes_to(s, from) < bytes {
        lemma_seek8(s, bytes, from + 1);
    }
}

/// The characters of `s` up to the byte offset `n`, as far as there are any.
pub open spec fn upto(s: Seq<char>, n: int) -> Seq<char> {
    s.take(seek8(s, n, 0))
}

/// The characters of `s` from the byte offset `n` on.
pub open spec fn behind(s: Seq<char>, n: int) -> Seq<char> {
    s.skip(seek8(s, n, 0))
}

/// A text is what stands before an offset and what stands behind it.
pub proof fn an_offset_splits_the_text(s: Seq<char>, n: int)
    ensures
        upto(s, n) + behind(s, n) == s,
{
    lemma_seek8(s, n, 0);
    assert(upto(s, n) + behind(s, n) =~= s);
}

pub proof fn lemma_seek8_at(s: Seq<char>, k: int)
    requires
        0 <= k <= s.len(),
    ensures
        seek8(s, bytes_to(s, k) as int, 0) == k,
{
    let n = bytes_to(s, k) as int;
    lemma_seek8(s, n, 0);
    let m = seek8(s, n, 0);
    if m < k {
        lemma_offsets_grow(s, m, k);
    } else if k < m {
        assert(bytes_to(s, k) < n);
    }
}

proof fn lemma_seek16_at(s: Seq<char>, k: int)
    requires
        0 <= k <= s.len(),
    ensures
        seek16(s, units_to(s, k) as int, 0) == k,
{
    let n = units_to(s, k) as int;
    lemma_seek16(s, n, 0);
    let m = seek16(s, n, 0);
    if m < k {
        lemma_offsets_grow(s, m, k);
    } else if k < m {
        assert(units_to(s, k) < n);
    }
}

/// Whatever the platform asks for, the byte offset it gets lies between
/// characters, and not past the end.
pub proof fn utf16_offsets_land_between_characters(s: Seq<char>, units: int)
    ensures
        boundary(s, from_utf16(s, units)),
        from_utf16(s, units) <= byte_len(s),
{
    lemma_seek16(s, units, 0);
    let k = seek16(s, units, 0);
    lemma_chars_before(s, k);
    lemma_offsets_grow(s, k, s.len() as int);
}

/// A later UTF-16 offset is no earlier byte offset.
pub proof fn lemma_utf16_ascends(s: Seq<char>, a: int, b: int)
    requires
        a <= b,
    ensures
        from_utf16(s, a) <= from_utf16(s, b),
{
    lemma_seek16(s, a, 0);
    lemma_seek16(s, b, 0);
    let i = seek16(s, a, 0);
    let j = seek16(s, b, 0);
    if j < i {
        assert(units_to(s, j) < a);
    }
    lemma_offsets_grow(s, i, j);
}

/// Handing an offset to the platform and taking it back changes nothing.
pub proof fn utf16_offsets_round_trip(s: Seq<char>, n: int)
    requires
        boundary(s, n),
    ensures
        from_utf16(s, to_utf16(s, n)) == n,
{
    let k = chars_before(s, n);
    lemma_seek8_at(s, k);
    lemma_seek16_at(s, k);
}

// ------------------------------------------------------------------- code --

/// How many bytes a character takes in UTF-8.
pub fn utf8_width(c: char) -> (r: usize)
    ensures
        r == width8(c),
        r <= 4,
{
    proof {
        lemma_width(c);
    }
    let n: u32 = c as u32;
    if n <= 0x7F {
        1
    } else if n <= 0x7FF {
        2
    } else if n <= 0xFFFF {
        3
    } else {
        4
    }
}

/// How many units a character takes in UTF-16.
pub fn utf16_width(c: char) -> (r: usize)
    ensures
        r == width16(c),
        r <= 2,
{
    if (c as u32) <= 0xFFFF {
        1
    } else {
        2
    }
}

/// How many bytes a text takes.
pub fn text_len(s: &str) -> (r: usize)
    ensures
        r == byte_len(s@),
{
    proof {
        offsets_count_encoded_bytes(s@, s@.len() as int);
        assert(s@.take(s@.len() as int) =~= s@);
    }
    s.as_bytes().len()
}

/// How many characters of a text stand before the byte offset `n`.
pub fn char_index(s: &str, n: usize) -> (r: usize)
    requires
        boundary(s@, n as int),
    ensures
        r == chars_before(s@, n as int),
        r <= s@.len(),
        bytes_to(s@, r as int) == n,
{
    let chars = text::to_chars(s);
    let total = text_len(s);
    let ghost k = chars_before(s@, n as int);
    let mut i: usize = 0;
    let mut at: usize = 0;
    while at < n
        invariant
            chars@ == s@,
            total == byte_len(s@),
            0 <= k <= s@.len(),
            bytes_to(s@, k) == n,
            i <= k,
            at == bytes_to(s@, i as int),
        decreases k - i,
    {
        proof {
            assert(i < chars.len());
            lemma_offsets_grow(s@, i + 1, s@.len() as int);
        }
        at += utf8_width(chars[i]);
        i += 1;
    }
    proof {
        if i < k {
            lemma_offsets_grow(s@, i as int, k);
        }
    }
    i
}

/// Where the byte offset `n` falls among the characters of a text, or its end.
pub fn split_index(s: &str, n: usize) -> (r: usize)
    ensures
        r == seek8(s@, n as int, 0),
        r <= s@.len(),
{
    let total = text_len(s);
    let chars = text::to_chars(s);
    let mut i: usize = 0;
    let mut at: usize = 0;
    while i < chars.len() && at < n
        invariant
            chars@ == s@,
            total == byte_len(s@),
            i <= chars.len(),
            at == bytes_to(s@, i as int),
            seek8(s@, n as int, 0) == seek8(s@, n as int, i as int),
        decreases chars.len() - i,
    {
        proof {
            lemma_offsets_grow(s@, i + 1, s@.len() as int);
        }
        at += utf8_width(chars[i]);
        i += 1;
    }
    i
}

/// Whether the byte offset `n` lies between characters of a text.
pub fn is_boundary(s: &str, n: usize) -> (r: bool)
    ensures
        r == boundary(s@, n as int),
{
    let total = text_len(s);
    let chars = text::to_chars(s);
    let mut i: usize = 0;
    let mut at: usize = 0;
    while i < chars.len() && at < n
        invariant
            chars@ == s@,
            total == byte_len(s@),
            i <= chars.len(),
            at == bytes_to(s@, i as int),
            forall|k: int| 0 <= k < i ==> #[trigger] bytes_to(s@, k) < n,
        decreases chars.len() - i,
    {
        proof {
            lemma_offsets_grow(s@, i + 1, s@.len() as int);
        }
        at += utf8_width(chars[i]);
        i += 1;
    }
    proof {
        if boundary(s@, n as int) {
            let k = chars_before(s@, n as int);
            if k > i {
                lemma_offsets_grow(s@, i as int, k);
            }
        }
    }
    at == n
}

/// The byte offset for a UTF-16 offset into a text.
pub fn offset_from_utf16(s: &str, offset: usize) -> (r: usize)
    ensures
        r == from_utf16(s@, offset as int),
        r <= byte_len(s@),
        boundary(s@, r as int),
{
    let total = text_len(s);
    let chars = text::to_chars(s);
    let mut i: usize = 0;
    let mut utf8: usize = 0;
    let mut utf16: usize = 0;
    while i < chars.len() && utf16 < offset
        invariant
            chars@ == s@,
            total == byte_len(s@),
            i <= chars.len(),
            utf8 == bytes_to(s@, i as int),
            utf16 == units_to(s@, i as int),
            seek16(s@, offset as int, 0) == seek16(s@, offset as int, i as int),
        decreases chars.len() - i,
    {
        proof {
            lemma_offsets_grow(s@, i + 1, s@.len() as int);
            lemma_offsets_grow(s@, i + 1, i + 1);
        }
        utf8 += utf8_width(chars[i]);
        utf16 += utf16_width(chars[i]);
        i += 1;
    }
    proof {
        utf16_offsets_land_between_characters(s@, offset as int);
    }
    utf8
}

/// The UTF-16 offset for a byte offset into a text.
pub fn offset_to_utf16(s: &str, offset: usize) -> (r: usize)
    ensures
        r == to_utf16(s@, offset as int),
{
    let total = text_len(s);
    let chars = text::to_chars(s);
    let mut i: usize = 0;
    let mut utf8: usize = 0;
    let mut utf16: usize = 0;
    while i < chars.len() && utf8 < offset
        invariant
            chars@ == s@,
            total == byte_len(s@),
            i <= chars.len(),
            utf8 == bytes_to(s@, i as int),
            utf16 == units_to(s@, i as int),
            seek8(s@, offset as int, 0) == seek8(s@, offset as int, i as int),
        decreases chars.len() - i,
    {
        proof {
            lemma_offsets_grow(s@, i + 1, s@.len() as int);
            lemma_offsets_grow(s@, i + 1, i + 1);
        }
        utf8 += utf8_width(chars[i]);
        utf16 += utf16_width(chars[i]);
        i += 1;
    }
    utf16
}

/// What stands between two byte offsets of a text.
pub fn slice_bytes(s: &str, start: usize, end: usize) -> (r: String)
    requires
        start <= end,
        boundary(s@, start as int),
        boundary(s@, end as int),
    ensures
        r@ == s@.subrange(chars_before(s@, start as int), chars_before(s@, end as int)),
{
    let from = char_index(s, start);
    let to = char_index(s, end);
    proof {
        if to < from {
            lemma_offsets_grow(s@, to as int, from as int);
        }
    }
    let chars = text::to_chars(s);
    text::from_chars(&chars, from, to)
}

// ------------------------------------------------------------------- laws --

/// How many UTF-16 units a text takes: one for each character, and one more for each
/// that lies beyond the first sixteen bits.
pub open spec fn units_of(s: Seq<char>) -> nat {
    s.len() + Set::new(|i: int| 0 <= i < s.len() && (s[i] as u32) > 0xFFFF).len()
}

proof fn lemma_units_counted(s: Seq<char>, k: int)
    requires
        0 <= k <= s.len(),
    ensures
        Set::new(|i: int| 0 <= i < k && (s[i] as u32) > 0xFFFF).finite(),
        units_to(s, k) == k + Set::new(|i: int| 0 <= i < k && (s[i] as u32) > 0xFFFF).len(),
    decreases k,
{
    let now = Set::new(|i: int| 0 <= i < k && (s[i] as u32) > 0xFFFF);
    if k == 0 {
        assert(now =~= Set::<int>::empty());
    } else {
        lemma_units_counted(s, k - 1);
        let before = Set::new(|i: int| 0 <= i < k - 1 && (s[i] as u32) > 0xFFFF);
        if (s[k - 1] as u32) > 0xFFFF {
            assert(now =~= before.insert(k - 1));
        } else {
            assert(now =~= before);
        }
    }
}

/// The offset between two parts of a text is, in bytes, the length of the first part's
/// UTF-8 encoding and, in the platform's units, the first part's UTF-16 length; each
/// way of counting leads to the other. A unit inside a character counts as the
/// character's end, and one past the text as the text's end.
pub proof fn offsets_count_what_stands_before(a: Seq<char>, c: char, b: Seq<char>, over: int)
    requires
        over > 0,
    ensures
        byte_len(a) == vstd::utf8::encode_utf8(a).len(),
        to_utf16(a + b, byte_len(a) as int) == units_of(a),
        from_utf16(a + b, units_of(a) as int) == byte_len(a),
        (c as u32) > 0xFFFF ==> from_utf16(a.push(c) + b, units_of(a) as int + 1) == byte_len(
            a.push(c),
        ),
        from_utf16(a, units_of(a) + over) == byte_len(a),
        upto(a + b, byte_len(a) as int) == a,
        behind(a + b, byte_len(a) as int) == b,
        boundary(a + b, byte_len(a) as int),
        chars_before(a + b, byte_len(a) as int) == a.len(),
{
    let n = a.len() as int;
    let s = a + b;
    offsets_count_encoded_bytes(a, n);
    assert(a.take(n) =~= a);
    assert(s.take(n) =~= a.take(n));
    lemma_prefix_offset(s, a, n);
    lemma_units_counted(a, n);
    lemma_seek8_at(s, n);
    lemma_seek16_at(s, n);
    lemma_chars_before(s, n);
    assert(s.skip(n) =~= b);
    if (c as u32) > 0xFFFF {
        let p = a.push(c);
        let t = p + b;
        assert(t.take(n + 1) =~= p.take(n + 1));
        lemma_prefix_offset(t, p, n + 1);
        assert(p.take(n) =~= a.take(n));
        lemma_prefix_offset(p, a, n);
        assert(t.take(n) =~= a.take(n));
        lemma_prefix_offset(t, a, n);
        assert(units_to(t, n + 1) == units_to(t, n) + 2);
        let units = units_of(a) as int + 1;
        lemma_seek16(t, units, 0);
        let m = seek16(t, units, 0);
        if m <= n {
            lemma_offsets_grow(t, m, n);
        } else if m > n + 1 {
            assert(units_to(t, n + 1) < units);
        }
        assert(m == n + 1);
    }
    lemma_seek16(a, units_of(a) + over, 0);
    let m = seek16(a, units_of(a) + over, 0);
    if m < n {
        lemma_offsets_grow(a, m, n);
    }
}

/// A byte offset inside a character counts as the character's end, and one past the text
/// as the text's end.
pub proof fn bytes_inside_a_character_count_as_its_end(
    a: Seq<char>,
    c: char,
    b: Seq<char>,
    d: int,
)
    requires
        0 < d,
    ensures
        ({
            let s = a.push(c) + b;
            let inside = byte_len(a) + d;
            &&& inside <= byte_len(a.push(c)) ==> {
                &&& to_utf16(s, inside) == units_of(a.push(c))
                &&& upto(s, inside) == a.push(c)
                &&& behind(s, inside) == b
            }
        }),
        ({
            let past = byte_len(a) + d;
            &&& to_utf16(a, past) == units_of(a)
            &&& upto(a, past) == a
            &&& behind(a, past) == Seq::<char>::empty()
        }),
{
    let n = a.len() as int;
    let p = a.push(c);
    let s = p + b;
    let inside = byte_len(a) + d;
    assert(s.take(n) =~= a.take(n));
    lemma_prefix_offset(s, a, n);
    assert(s.take(n + 1) =~= p.take(n + 1));
    lemma_prefix_offset(s, p, n + 1);
    lemma_units_counted(p, n + 1);
    lemma_units_counted(a, n);
    if inside <= byte_len(p) {
        lemma_seek8(s, inside, 0);
        let m = seek8(s, inside, 0);
        if m <= n {
            lemma_offsets_grow(s, m, n);
        } else if m > n + 1 {
            assert(bytes_to(s, n + 1) < inside);
        }
        assert(m == n + 1);
        assert(s.take(n + 1) =~= p);
        assert(s.skip(n + 1) =~= b);
    }
    lemma_seek8(a, inside, 0);
    let m = seek8(a, inside, 0);
    if m < n {
        lemma_offsets_grow(a, m, n);
    }
    assert(a.take(n) =~= a);
    assert(a.skip(n) =~= Seq::<char>::empty());
}

} // verus!
