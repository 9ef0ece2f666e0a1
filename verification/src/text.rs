//! Text as sequences of characters.
//!
//! Everything the rest of the library says about strings it says over
//! `Seq<char>`: what the words, the lines and the trimmed form of a text are,
//! how parts join, and how a number is written out.

use vstd::prelude::*;

verus! {

// --------------------------------------------------------------- std calls --

/// `String::push` appends one character and changes nothing else.
pub assume_specification[ String::push ](s: &mut String, c: char)
    ensures
        final(s)@ == old(s)@.push(c),
;

/// The characters of ASCII.
pub open spec fn ascii(c: char) -> bool {
    (c as u32) < 128
}

/// An ASCII character in lower case.
pub open spec fn ascii_lower(c: char) -> char {
    if 'A' <= c && c <= 'Z' {
        ((c as u32) + 32) as char
    } else {
        c
    }
}

/// What `str::to_lowercase` makes of a text that is not all ASCII. The mapping
/// is Unicode's and is not spelled out here.
pub uninterp spec fn unicode_lowercase(s: Seq<char>) -> Seq<char>;

/// A text in lower case.
pub open spec fn lowercase_of(s: Seq<char>) -> Seq<char> {
    if forall|i: int| 0 <= i < s.len() ==> ascii(#[trigger] s[i]) {
        s.map_values(|c: char| ascii_lower(c))
    } else {
        unicode_lowercase(s)
    }
}

/// `str::to_lowercase` depends on the text alone. In a text that is all ASCII
/// it maps the letters `A` to `Z` to `a` to `z` and leaves the rest.
pub assume_specification[ str::to_lowercase ](s: &str) -> (r: String)
    ensures
        (forall|i: int| 0 <= i < s@.len() ==> ascii(#[trigger] s@[i])) ==> r@ == s@.map_values(
            |c: char| ascii_lower(c),
        ),
        (exists|i: int| 0 <= i < s@.len() && !ascii(#[trigger] s@[i])) ==> r@ == unicode_lowercase(
            s@,
        ),
;

/// Whether `char::is_alphanumeric` holds beyond ASCII: Unicode's Alphabetic
/// property or one of its numeric categories.
pub uninterp spec fn unicode_alphanumeric(c: char) -> bool;

/// The letters and the digits.
pub open spec fn alphanumeric(c: char) -> bool {
    if ascii(c) {
        ('0' <= c && c <= '9') || ('a' <= c && c <= 'z') || ('A' <= c && c <= 'Z')
    } else {
        unicode_alphanumeric(c)
    }
}

/// `char::is_alphanumeric` depends on the character alone. Within ASCII it is
/// the letters and the digits.
pub assume_specification[ char::is_alphanumeric ](c: char) -> (r: bool)
    ensures
        ascii(c) ==> r == (('0' <= c && c <= '9') || ('a' <= c && c <= 'z') || ('A' <= c && c
            <= 'Z')),
        !ascii(c) ==> r == unicode_alphanumeric(c),
;

// ------------------------------------------------------------- characters --

/// The characters with Unicode's White_Space property.
pub open spec fn white_space(c: char) -> bool {
    let n = c as u32;
    ||| 0x09 <= n <= 0x0D
    ||| n == 0x20
    ||| n == 0x85
    ||| n == 0xA0
    ||| n == 0x1680
    ||| 0x2000 <= n <= 0x200A
    ||| n == 0x2028
    ||| n == 0x2029
    ||| n == 0x202F
    ||| n == 0x205F
    ||| n == 0x3000
}

pub fn is_white_space(c: char) -> (r: bool)
    ensures
        r == white_space(c),
{
    let n: u32 = c as u32;
    (0x09 <= n && n <= 0x0D) || n == 0x20 || n == 0x85 || n == 0xA0 || n == 0x1680 || (0x2000 <= n
        && n <= 0x200A) || n == 0x2028 || n == 0x2029 || n == 0x202F || n == 0x205F || n == 0x3000
}

/// A character that can stand inside a handle.
pub open spec fn handle_char(c: char) -> bool {
    alphanumeric(c) || c == '-' || c == '_'
}

pub fn is_handle_char(c: char) -> (r: bool)
    ensures
        r == handle_char(c),
{
    c.is_alphanumeric() || c == '-' || c == '_'
}

// ------------------------------------------------------------- conversion --

/// The characters of a text.
pub fn to_chars(s: &str) -> (r: Vec<char>)
    ensures
        r@ == s@,
{
    let mut out: Vec<char> = Vec::new();
    for c in it: s.chars()
        invariant
            it.seq() == s@,
            out@ == s@.take(it.index() as int),
    {
        out.push(c);
    }
    out
}

/// The text made of the characters `from..to`.
pub fn from_chars(chars: &Vec<char>, from: usize, to: usize) -> (r: String)
    requires
        from <= to <= chars.len(),
    ensures
        r@ == chars@.subrange(from as int, to as int),
{
    let mut out = String::new();
    let mut i: usize = from;
    while i < to
        invariant
            from <= i <= to <= chars.len(),
            out@ == chars@.subrange(from as int, i as int),
        decreases to - i,
    {
        out.push(chars[i]);
        i += 1;
        assert(chars@.subrange(from as int, i as int) =~= chars@.subrange(
            from as int,
            i - 1,
        ).push(chars@[i - 1]));
    }
    out
}

/// Whether two texts are the same, character for character.
pub fn same_text(a: &str, b: &str) -> (r: bool)
    ensures
        r == (a@ == b@),
{
    let x = to_chars(a);
    let y = to_chars(b);
    if x.len() != y.len() {
        return false;
    }
    let mut i: usize = 0;
    while i < x.len()
        invariant
            x@ == a@,
            y@ == b@,
            x.len() == y.len(),
            i <= x.len(),
            forall|k: int| 0 <= k < i ==> x@[k] == y@[k],
        decreases x.len() - i,
    {
        if x[i] != y[i] {
            assert(a@[i as int] != b@[i as int]);
            return false;
        }
        i += 1;
    }
    assert(a@ =~= b@);
    true
}

/// Whether a text has no characters.
pub fn is_empty(s: &str) -> (r: bool)
    ensures
        r == (s@.len() == 0),
{
    s.unicode_len() == 0
}

// ------------------------------------------------------------------- trim --

/// `s` without the white space it starts with.
pub open spec fn trim_start(s: Seq<char>) -> Seq<char>
    decreases s.len(),
{
    if s.len() > 0 && white_space(s[0]) {
        trim_start(s.drop_first())
    } else {
        s
    }
}

/// `s` without the characters satisfying `p` that it ends with.
pub open spec fn trim_end_where(s: Seq<char>, p: spec_fn(char) -> bool) -> Seq<char>
    decreases s.len(),
{
    if s.len() > 0 && p(s.last()) {
        trim_end_where(s.drop_last(), p)
    } else {
        s
    }
}

/// `s` without the white space around it.
pub open spec fn trimmed(s: Seq<char>) -> Seq<char> {
    trim_end_where(trim_start(s), |c: char| white_space(c))
}

/// Whether `s` holds nothing but white space.
pub open spec fn blank(s: Seq<char>) -> bool {
    forall|i: int| 0 <= i < s.len() ==> white_space(#[trigger] s[i])
}

proof fn lemma_trim_start_at(s: Seq<char>, i: int)
    requires
        0 <= i <= s.len(),
        forall|k: int| 0 <= k < i ==> white_space(#[trigger] s[k]),
        i < s.len() ==> !white_space(s[i]),
    ensures
        trim_start(s) == s.skip(i),
    decreases s.len(),
{
    if i == 0 {
        assert(s.skip(0) =~= s);
    } else {
        lemma_trim_start_at(s.drop_first(), i - 1);
        assert(s.drop_first().skip(i - 1) =~= s.skip(i));
    }
}

pub proof fn lemma_trim_end_at(s: Seq<char>, p: spec_fn(char) -> bool, j: int)
    requires
        0 <= j <= s.len(),
        forall|k: int| j <= k < s.len() ==> p(#[trigger] s[k]),
        j > 0 ==> !p(s[j - 1]),
    ensures
        trim_end_where(s, p) == s.take(j),
    decreases s.len(),
{
    if j == s.len() {
        assert(s.take(j) =~= s);
    } else {
        lemma_trim_end_at(s.drop_last(), p, j);
        assert(s.drop_last().take(j) =~= s.take(j));
    }
}

/// A text is blank exactly when trimming leaves nothing of it.
pub proof fn blank_is_trimmed_away(s: Seq<char>)
    ensures
        blank(s) <==> trimmed(s).len() == 0,
{
    let p = |c: char| white_space(c);
    let i = lemma_first_ink(s);
    lemma_trim_start_at(s, i);
    let t = s.skip(i);
    if i < s.len() {
        assert(t[0] == s[i]);
        let j = lemma_last_ink(t);
        lemma_trim_end_at(t, p, j);
        assert(j > 0);
        assert(!white_space(s[i]));
    } else {
        assert(trim_end_where(t, p).len() == 0);
    }
}

proof fn lemma_first_ink(s: Seq<char>) -> (i: int)
    ensures
        0 <= i <= s.len(),
        forall|k: int| 0 <= k < i ==> white_space(#[trigger] s[k]),
        i < s.len() ==> !white_space(s[i]),
    decreases s.len(),
{
    if s.len() > 0 && white_space(s[0]) {
        let j = lemma_first_ink(s.drop_first());
        assert forall|k: int| 0 <= k < j + 1 implies white_space(#[trigger] s[k]) by {
            if k > 0 {
                assert(s[k] == s.drop_first()[k - 1]);
            }
        }
        j + 1
    } else {
        0
    }
}

proof fn lemma_last_ink(s: Seq<char>) -> (j: int)
    ensures
        0 <= j <= s.len(),
        forall|k: int| j <= k < s.len() ==> white_space(#[trigger] s[k]),
        j > 0 ==> !white_space(s[j - 1]),
    decreases s.len(),
{
    if s.len() > 0 && white_space(s.last()) {
        let j = lemma_last_ink(s.drop_last());
        assert forall|k: int| j <= k < s.len() implies white_space(#[trigger] s[k]) by {
            if k < s.len() - 1 {
                assert(s[k] == s.drop_last()[k]);
            }
        }
        j
    } else {
        s.len() as int
    }
}

/// The text without the white space around it.
pub fn trim(s: &str) -> (r: String)
    ensures
        r@ == trimmed(s@),
{
    let chars = to_chars(s);
    let n = chars.len();
    let mut i: usize = 0;
    while i < n && is_white_space(chars[i])
        invariant
            n == chars.len(),
            i <= n,
            forall|k: int| 0 <= k < i ==> white_space(#[trigger] chars@[k]),
        decreases n - i,
    {
        i += 1;
    }
    let mut j: usize = n;
    while i < j && is_white_space(chars[j - 1])
        invariant
            n == chars.len(),
            i <= j <= n,
            i < n ==> !white_space(chars@[i as int]),
            forall|k: int| j <= k < n ==> white_space(#[trigger] chars@[k]),
        decreases j,
    {
        j -= 1;
    }
    proof {
        let t = s@.skip(i as int);
        lemma_trim_start_at(s@, i as int);
        assert forall|k: int| (j - i) <= k < t.len() implies white_space(#[trigger] t[k]) by {
            assert(t[k] == chars@[k + i]);
        }
        if j > i {
            assert(t[j - i - 1] == chars@[j - 1]);
        }
        lemma_trim_end_at(t, |c: char| white_space(c), j - i);
        assert(t.take(j - i) =~= s@.subrange(i as int, j as int));
    }
    from_chars(&chars, i, j)
}

/// Whether a text holds nothing but white space.
pub fn is_blank(s: &str) -> (r: bool)
    ensures
        r == blank(s@),
{
    for c in it: s.chars()
        invariant
            it.seq() == s@,
            forall|k: int| 0 <= k < it.index() ==> white_space(#[trigger] s@[k]),
    {
        if !is_white_space(c) {
            assert(s@[it.index() as int] == c);
            return false;
        }
    }
    true
}

// ------------------------------------------------------------------ words --

/// Reading `s` from the left: the words already closed by white space, and the
/// word still open.
pub open spec fn word_scan(s: Seq<char>) -> (Seq<Seq<char>>, Seq<char>)
    decreases s.len(),
{
    if s.len() == 0 {
        (Seq::empty(), Seq::empty())
    } else {
        let (closed, open) = word_scan(s.drop_last());
        if !white_space(s.last()) {
            (closed, open.push(s.last()))
        } else if open.len() > 0 {
            (closed.push(open), Seq::empty())
        } else {
            (closed, open)
        }
    }
}

/// The words of `s`: its maximal runs free of white space, in order.
pub open spec fn words(s: Seq<char>) -> Seq<Seq<char>> {
    let (closed, open) = word_scan(s);
    if open.len() > 0 {
        closed.push(open)
    } else {
        closed
    }
}

/// The words of a text.
pub fn split_words(s: &str) -> (r: Vec<String>)
    ensures
        r.deep_view() == words(s@),
{
    let mut closed: Vec<String> = Vec::new();
    let mut open = String::new();
    for c in it: s.chars()
        invariant
            it.seq() == s@,
            closed.deep_view() == word_scan(s@.take(it.index() as int)).0,
            open@ == word_scan(s@.take(it.index() as int)).1,
    {
        let ghost i = it.index() as int;
        let ghost before = closed.deep_view();
        assert(s@.take(i + 1).drop_last() =~= s@.take(i));
        if !is_white_space(c) {
            open.push(c);
        } else if !open.as_str().is_empty() {
            closed.push(open);
            assert(closed.deep_view() =~= before.push(closed@.last()@));
            open = String::new();
        }
    }
    assert(s@.take(s@.len() as int) =~= s@);
    if !open.as_str().is_empty() {
        let ghost before = closed.deep_view();
        closed.push(open);
        assert(closed.deep_view() =~= before.push(closed@.last()@));
    }
    closed
}

proof fn lemma_word_scan_after_gap(a: Seq<char>, gap: Seq<char>)
    requires
        gap.len() > 0,
        blank(gap),
    ensures
        word_scan(a + gap) == (words(a), Seq::<char>::empty()),
    decreases gap.len(),
{
    let s = a + gap;
    assert(s.last() == gap.last());
    assert(s.drop_last() =~= a + gap.drop_last());
    assert(white_space(gap[gap.len() - 1]));
    if gap.len() == 1 {
        assert(s.drop_last() =~= a);
        let (closed, open) = word_scan(a);
        if open.len() == 0 {
            assert(open =~= Seq::<char>::empty());
        }
    } else {
        assert forall|k: int| 0 <= k < gap.drop_last().len() implies white_space(
            #[trigger] gap.drop_last()[k],
        ) by {
            assert(gap.drop_last()[k] == gap[k]);
        }
        lemma_word_scan_after_gap(a, gap.drop_last());
    }
}

proof fn lemma_word_scan_past_gap(a: Seq<char>, gap: Seq<char>, b: Seq<char>)
    requires
        gap.len() > 0,
        blank(gap),
    ensures
        word_scan(a + gap + b).0 == words(a) + word_scan(b).0,
        word_scan(a + gap + b).1 == word_scan(b).1,
    decreases b.len(),
{
    if b.len() == 0 {
        assert(a + gap + b =~= a + gap);
        lemma_word_scan_after_gap(a, gap);
        assert(words(a) + word_scan(b).0 =~= words(a));
    } else {
        let s = a + gap + b;
        assert(s.drop_last() =~= a + gap + b.drop_last());
        assert(s.last() == b.last());
        lemma_word_scan_past_gap(a, gap, b.drop_last());
        let (closed, open) = word_scan(b.drop_last());
        assert((words(a) + closed).push(open) =~= words(a) + closed.push(open));
    }
}

/// White space between two texts, however much of it, separates their words
/// and does nothing else.
pub proof fn words_around_a_gap(a: Seq<char>, gap: Seq<char>, b: Seq<char>)
    requires
        gap.len() > 0,
        blank(gap),
    ensures
        words(a + gap + b) == words(a) + words(b),
{
    lemma_word_scan_past_gap(a, gap, b);
    let (closed, open) = word_scan(b);
    assert((words(a) + closed).push(open) =~= words(a) + closed.push(open));
}

/// Whether `s` holds no white space at all.
pub open spec fn unbroken(s: Seq<char>) -> bool {
    forall|j: int| 0 <= j < s.len() ==> !white_space(#[trigger] s[j])
}

proof fn lemma_word_scan_unbroken(s: Seq<char>)
    ensures
        forall|i: int|
            0 <= i < word_scan(s).0.len() ==> (#[trigger] word_scan(s).0[i]).len() > 0 && unbroken(
                word_scan(s).0[i],
            ),
        unbroken(word_scan(s).1),
    decreases s.len(),
{
    if s.len() > 0 {
        lemma_word_scan_unbroken(s.drop_last());
        let (closed, open) = word_scan(s.drop_last());
        assert forall|i: int| 0 <= i < word_scan(s).0.len() implies (
        #[trigger] word_scan(s).0[i]).len() > 0 && unbroken(word_scan(s).0[i]) by {
            if i < closed.len() {
                assert(word_scan(s).0[i] == closed[i]);
            }
        }
    }
}

/// A word is never empty and never holds white space.
pub proof fn words_are_unbroken(s: Seq<char>)
    ensures
        forall|i: int|
            0 <= i < words(s).len() ==> (#[trigger] words(s)[i]).len() > 0 && unbroken(words(s)[i]),
{
    lemma_word_scan_unbroken(s);
    let (closed, open) = word_scan(s);
    assert forall|i: int| 0 <= i < words(s).len() implies (#[trigger] words(s)[i]).len() > 0
        && unbroken(words(s)[i]) by {
        if i < closed.len() {
            assert(words(s)[i] == closed[i]);
        }
    }
}

// ------------------------------------------------------------------- join --

/// The parts one after another, with `sep` between neighbours.
pub open spec fn joined(parts: Seq<Seq<char>>, sep: Seq<char>) -> Seq<char>
    decreases parts.len(),
{
    if parts.len() == 0 {
        Seq::empty()
    } else if parts.len() == 1 {
        parts[0]
    } else {
        joined(parts.drop_last(), sep) + sep + parts.last()
    }
}

/// The parts `from..to` one after another, with `sep` between neighbours.
pub fn join_range(parts: &Vec<String>, from: usize, to: usize, sep: &str) -> (r: String)
    requires
        from <= to <= parts.len(),
    ensures
        r@ == joined(parts.deep_view().subrange(from as int, to as int), sep@),
{
    let mut out = String::new();
    let mut i: usize = from;
    while i < to
        invariant
            from <= i <= to <= parts.len(),
            out@ == joined(parts.deep_view().subrange(from as int, i as int), sep@),
        decreases to - i,
    {
        if i > from {
            out.append(sep);
        }
        out.append(parts[i].as_str());
        proof {
            let p = parts.deep_view();
            let now = p.subrange(from as int, i + 1);
            assert(now.drop_last() =~= p.subrange(from as int, i as int));
            assert(now.last() == parts@[i as int]@);
            if i == from {
                assert(out@ =~= now[0]);
            }
        }
        i += 1;
    }
    out
}

/// The parts one after another, with `sep` between neighbours.
pub fn join(parts: &Vec<String>, sep: &str) -> (r: String)
    ensures
        r@ == joined(parts.deep_view(), sep@),
{
    assert(parts.deep_view().subrange(0, parts.len() as int) =~= parts.deep_view());
    join_range(parts, 0, parts.len(), sep)
}

// ------------------------------------------------------------------ lines --

/// A line's text without the carriage return of a `\r\n` ending.
pub open spec fn without_cr(s: Seq<char>) -> Seq<char> {
    if s.len() > 0 && s.last() == '\r' {
        s.drop_last()
    } else {
        s
    }
}

/// Reading `s` from the left: the lines already ended by a newline, and what
/// has been read since.
pub open spec fn line_scan(s: Seq<char>) -> (Seq<Seq<char>>, Seq<char>)
    decreases s.len(),
{
    if s.len() == 0 {
        (Seq::empty(), Seq::empty())
    } else {
        let (ended, open) = line_scan(s.drop_last());
        if s.last() == '\n' {
            (ended.push(without_cr(open)), Seq::empty())
        } else {
            (ended, open.push(s.last()))
        }
    }
}

/// The lines of `s`, split at `\n` or `\r\n`. The ending of the last line is
/// optional, and a carriage return that no newline follows stays.
pub open spec fn lines(s: Seq<char>) -> Seq<Seq<char>> {
    let (ended, open) = line_scan(s);
    if open.len() > 0 {
        ended.push(open)
    } else {
        ended
    }
}

/// The lines of a text.
pub fn split_lines(s: &str) -> (r: Vec<String>)
    ensures
        r.deep_view() == lines(s@),
{
    let mut ended: Vec<String> = Vec::new();
    let mut open: Vec<char> = Vec::new();
    for c in it: s.chars()
        invariant
            it.seq() == s@,
            ended.deep_view() == line_scan(s@.take(it.index() as int)).0,
            open@ == line_scan(s@.take(it.index() as int)).1,
    {
        let ghost i = it.index() as int;
        let ghost before = ended.deep_view();
        let ghost was_open = open@;
        assert(s@.take(i + 1).drop_last() =~= s@.take(i));
        if c == '\n' {
            let mut n = open.len();
            if n > 0 && open[n - 1] == '\r' {
                n -= 1;
            }
            let line = from_chars(&open, 0, n);
            assert(line@ =~= without_cr(was_open));
            ended.push(line);
            assert(ended.deep_view() =~= before.push(line@));
            open = Vec::new();
        } else {
            open.push(c);
        }
    }
    assert(s@.take(s@.len() as int) =~= s@);
    if open.len() > 0 {
        let ghost before = ended.deep_view();
        let line = from_chars(&open, 0, open.len());
        assert(line@ =~= open@);
        ended.push(line);
        assert(ended.deep_view() =~= before.push(line@));
    }
    ended
}

// ----------------------------------------------------------------- search --

/// What stands behind the last `c` in `s`, or all of `s` when it has none.
pub open spec fn after_last(s: Seq<char>, c: char) -> Seq<char>
    decreases s.len(),
{
    if s.len() == 0 {
        s
    } else if s.last() == c {
        Seq::empty()
    } else {
        after_last(s.drop_last(), c).push(s.last())
    }
}

/// What follows the last `c` starts behind it.
pub proof fn lemma_after_last_at(s: Seq<char>, c: char, i: int)
    requires
        0 <= i <= s.len(),
        forall|k: int| i <= k < s.len() ==> #[trigger] s[k] != c,
        i > 0 ==> s[i - 1] == c,
    ensures
        after_last(s, c) == s.skip(i),
    decreases s.len(),
{
    if i == s.len() {
        assert(s.skip(i) =~= Seq::<char>::empty());
        if s.len() == 0 {
            assert(s =~= Seq::<char>::empty());
        }
    } else {
        lemma_after_last_at(s.drop_last(), c, i);
        assert(s.drop_last().skip(i).push(s.last()) =~= s.skip(i));
    }
}

/// How many characters of the text stand up to and including the last `c`.
fn past_last(chars: &Vec<char>, c: char) -> (i: usize)
    ensures
        i <= chars.len(),
        forall|k: int| i <= k < chars.len() ==> #[trigger] chars@[k] != c,
        i > 0 ==> chars@[i - 1] == c,
        after_last(chars@, c) == chars@.skip(i as int),
        (i > 0) == chars@.contains(c),
{
    let mut i: usize = chars.len();
    while i > 0 && chars[i - 1] != c
        invariant
            i <= chars.len(),
            forall|k: int| i <= k < chars.len() ==> #[trigger] chars@[k] != c,
        decreases i,
    {
        i -= 1;
    }
    proof {
        lemma_after_last_at(chars@, c, i as int);
        if i > 0 {
            assert(chars@[i - 1] == c);
        }
    }
    i
}

/// What stands behind the last `c` in the text, or all of it when it has none.
pub fn rest_after_last(s: &str, c: char) -> (r: String)
    ensures
        r@ == after_last(s@, c),
{
    let chars = to_chars(s);
    let i = past_last(&chars, c);
    assert(chars@.subrange(i as int, chars@.len() as int) =~= chars@.skip(i as int));
    from_chars(&chars, i, chars.len())
}

/// Where the last `c` stands, counted in characters.
pub fn rfind_char(s: &str, c: char) -> (r: Option<usize>)
    ensures
        r is Some <==> s@.contains(c),
        r matches Some(i) ==> i < s@.len() && s@[i as int] == c && after_last(s@, c) == s@.skip(
            i + 1,
        ) && (forall|k: int| i < k < s@.len() ==> #[trigger] s@[k] != c),
{
    let chars = to_chars(s);
    let i = past_last(&chars, c);
    if i > 0 {
        Some(i - 1)
    } else {
        None
    }
}

/// Whether `s` starts with `prefix`.
pub open spec fn starts_with(s: Seq<char>, prefix: Seq<char>) -> bool {
    prefix.len() <= s.len() && s.take(prefix.len() as int) == prefix
}

/// Whether the characters of `part` stand in `chars` from `at` on.
fn stands_at(chars: &Vec<char>, part: &Vec<char>, at: usize) -> (r: bool)
    requires
        at + part.len() <= chars.len(),
    ensures
        r == (chars@.subrange(at as int, at + part.len()) == part@),
{
    let mut k: usize = 0;
    while k < part.len()
        invariant
            k <= part.len(),
            at + part.len() <= chars.len(),
            forall|m: int| 0 <= m < k ==> chars@[at + m] == #[trigger] part@[m],
        decreases part.len() - k,
    {
        if chars[at + k] != part[k] {
            assert(chars@.subrange(at as int, at + part.len())[k as int] != part@[k as int]);
            return false;
        }
        k += 1;
    }
    assert(chars@.subrange(at as int, at + part.len()) =~= part@);
    true
}

/// Whether a text starts with `prefix`.
pub fn has_prefix(s: &str, prefix: &str) -> (r: bool)
    ensures
        r == starts_with(s@, prefix@),
{
    let chars = to_chars(s);
    let part = to_chars(prefix);
    if part.len() > chars.len() {
        return false;
    }
    assert(chars@.subrange(0, part.len() as int) =~= chars@.take(part.len() as int));
    stands_at(&chars, &part, 0)
}

/// Whether `part` occurs in `s`.
pub open spec fn occurs_in(part: Seq<char>, s: Seq<char>) -> bool {
    exists|i: int| 0 <= i && i + part.len() <= s.len() && #[trigger] s.subrange(i, i + part.len())
        == part
}

/// Whether `part` occurs in a text.
pub fn contains_text(s: &str, part: &str) -> (r: bool)
    ensures
        r == occurs_in(part@, s@),
{
    let chars = to_chars(s);
    let p = to_chars(part);
    if p.len() > chars.len() {
        return false;
    }
    let mut at: usize = 0;
    let last = chars.len() - p.len();
    while at <= last
        invariant
            chars@ == s@,
            p@ == part@,
            p.len() <= chars.len(),
            last == chars.len() - p.len(),
            at <= last + 1,
            forall|i: int| 0 <= i < at ==> #[trigger] s@.subrange(i, i + p.len()) != part@,
        decreases last + 1 - at,
    {
        if stands_at(&chars, &p, at) {
            return true;
        }
        if at == last {
            assert forall|i: int| 0 <= i && i + part@.len() <= s@.len() implies #[trigger] s@.subrange(
                i,
                i + part@.len(),
            ) != part@ by {}
            return false;
        }
        at += 1;
    }
    false
}

// ---------------------------------------------------------------- numbers --

/// The character for one decimal digit.
pub open spec fn digit(d: nat) -> char {
    (48 + d) as char
}

/// `n` in decimal, without leading zeros.
pub open spec fn decimal(n: nat) -> Seq<char>
    decreases n,
{
    if n < 10 {
        seq![digit(n)]
    } else {
        decimal(n / 10).push(digit(n % 10))
    }
}

/// A number in decimal, without leading zeros.
pub fn write_decimal(n: u128) -> (r: String)
    ensures
        r@ == decimal(n as nat),
    decreases n,
{
    let d: u8 = (n % 10) as u8;
    let c: char = (48 + d) as char;
    if n < 10 {
        let mut out = String::new();
        out.push(c);
        assert(out@ =~= seq![digit(n as nat)]);
        out
    } else {
        let mut out = write_decimal(n / 10);
        out.push(c);
        out
    }
}

// ------------------------------------------------------------------- laws --

/// A text free of white space is one word, and one that is nothing else has none.
pub proof fn a_word_stands_for_itself(s: Seq<char>)
    ensures
        s.len() > 0 && unbroken(s) ==> words(s) == seq![s],
        blank(s) ==> words(s) == Seq::<Seq<char>>::empty(),
    decreases s.len(),
{
    if unbroken(s) {
        lemma_scan_open(s);
        if s.len() > 0 {
            assert(words(s) =~= seq![s]);
        }
    }
    if blank(s) {
        if s.len() == 0 {
            assert(s =~= Seq::<char>::empty());
        } else {
            lemma_word_scan_after_gap(Seq::empty(), s);
            assert(Seq::<char>::empty() + s =~= s);
        }
        assert(words(s) =~= Seq::<Seq<char>>::empty());
    }
}

proof fn lemma_scan_open(s: Seq<char>)
    requires
        unbroken(s),
    ensures
        word_scan(s).0 == Seq::<Seq<char>>::empty(),
        word_scan(s).1 == s,
    decreases s.len(),
{
    if s.len() > 0 {
        let front = s.drop_last();
        assert forall|j: int| 0 <= j < front.len() implies !white_space(#[trigger] front[j]) by {
            assert(front[j] == s[j]);
        }
        lemma_scan_open(front);
        assert(!white_space(s[s.len() - 1]));
        assert(front.push(s.last()) =~= s);
    } else {
        assert(s =~= Seq::<char>::empty());
    }
}

/// Words written with a space between neighbours come back as they were.
pub proof fn words_come_back_from_a_line(parts: Seq<Seq<char>>)
    requires
        forall|i: int|
            0 <= i < parts.len() ==> (#[trigger] parts[i]).len() > 0 && unbroken(parts[i]),
    ensures
        words(joined(parts, seq![' '])) == parts,
    decreases parts.len(),
{
    if parts.len() == 0 {
        assert(words(Seq::<char>::empty()) =~= parts);
    } else if parts.len() == 1 {
        a_word_stands_for_itself(parts[0]);
        assert(parts =~= seq![parts[0]]);
    } else {
        let front = parts.drop_last();
        assert forall|i: int| 0 <= i < front.len() implies (#[trigger] front[i]).len() > 0
            && unbroken(front[i]) by {
            assert(front[i] == parts[i]);
        }
        words_come_back_from_a_line(front);
        let last = parts.last();
        assert(last == parts[parts.len() - 1]);
        a_word_stands_for_itself(last);
        words_around_a_gap(joined(front, seq![' ']), seq![' '], last);
        assert(front + seq![last] =~= parts);
    }
}

/// Trimming takes the white space off both ends and nothing else.
pub proof fn trimming_takes_only_the_ends(a: Seq<char>, s: Seq<char>, b: Seq<char>)
    requires
        blank(a),
        blank(b),
        s.len() > 0 ==> !white_space(s[0]) && !white_space(s.last()),
    ensures
        trimmed(a + s + b) == s,
{
    let all = a + s + b;
    if s.len() == 0 {
        assert forall|k: int| 0 <= k < all.len() implies white_space(#[trigger] all[k]) by {
            if k < a.len() {
                assert(all[k] == a[k]);
            } else {
                assert(all[k] == b[k - a.len()]);
            }
        }
        blank_is_trimmed_away(all);
        assert(trimmed(all) =~= s);
    } else {
        assert forall|k: int| 0 <= k < a.len() implies white_space(#[trigger] all[k]) by {
            assert(all[k] == a[k]);
        }
        assert(all[a.len() as int] == s[0]);
        lemma_trim_start_at(all, a.len() as int);
        let t = all.skip(a.len() as int);
        assert(t =~= s + b);
        assert forall|k: int| s.len() <= k < t.len() implies white_space(#[trigger] t[k]) by {
            assert(t[k] == b[k - s.len()]);
        }
        assert(t[s.len() - 1] == s.last());
        lemma_trim_end_at(t, |c: char| white_space(c), s.len() as int);
        assert(t.take(s.len() as int) =~= s);
    }
}

/// Which characters are white space: the tab, the line ends and the space, and
/// beyond ASCII those that Unicode counts.
pub proof fn white_space_is_unicodes(c: char)
    ensures
        ascii(c) ==> (white_space(c) <==> c == ' ' || c == '\t' || c == '\n' || c == '\r' || c
            == '\u{B}' || c == '\u{C}'),
        !ascii(c) ==> (white_space(c) <==> c == '\u{85}' || c == '\u{A0}' || c == '\u{1680}' || (
        '\u{2000}' <= c && c <= '\u{200A}') || c == '\u{2028}' || c == '\u{2029}' || c
            == '\u{202F}' || c == '\u{205F}' || c == '\u{3000}'),
{
}

/// Joining puts the separator between neighbours, wherever the list is cut.
pub proof fn joining_puts_the_separator_between(
    a: Seq<Seq<char>>,
    b: Seq<Seq<char>>,
    sep: Seq<char>,
    part: Seq<char>,
)
    ensures
        joined(Seq::empty(), sep) == Seq::<char>::empty(),
        joined(seq![part], sep) == part,
        a.len() > 0 && b.len() > 0 ==> joined(a + b, sep) == joined(a, sep) + sep + joined(b, sep),
    decreases b.len(),
{
    if a.len() > 0 && b.len() > 0 {
        let all = a + b;
        assert(all.last() == b.last());
        if b.len() == 1 {
            assert(all.drop_last() =~= a);
        } else {
            joining_puts_the_separator_between(a, b.drop_last(), sep, part);
            assert(all.drop_last() =~= a + b.drop_last());
            assert(joined(a, sep) + sep + joined(b.drop_last(), sep) + sep + b.last()
                =~= joined(a, sep) + sep + (joined(b.drop_last(), sep) + sep + b.last()));
        }
    }
}

proof fn lemma_line_scan_open(s: Seq<char>)
    requires
        !s.contains('\n'),
    ensures
        line_scan(s).0 == Seq::<Seq<char>>::empty(),
        line_scan(s).1 == s,
    decreases s.len(),
{
    if s.len() > 0 {
        let front = s.drop_last();
        assert(!front.contains('\n')) by {
            if front.contains('\n') {
                let j = choose|j: int| 0 <= j < front.len() && front[j] == '\n';
                assert(s[j] == '\n');
            }
        }
        lemma_line_scan_open(front);
        assert(s.contains(s[s.len() - 1]));
        assert(front.push(s.last()) =~= s);
    } else {
        assert(s =~= Seq::<char>::empty());
    }
}

proof fn lemma_line_scan_past(a: Seq<char>, b: Seq<char>)
    requires
        !a.contains('\n'),
    ensures
        line_scan(a.push('\n') + b).0 == seq![without_cr(a)] + line_scan(b).0,
        line_scan(a.push('\n') + b).1 == line_scan(b).1,
    decreases b.len(),
{
    let s = a.push('\n') + b;
    if b.len() == 0 {
        lemma_line_scan_open(a);
        assert(s =~= a.push('\n'));
        assert(s.drop_last() =~= a);
        assert(Seq::<Seq<char>>::empty().push(without_cr(a)) =~= seq![without_cr(a)]
            + line_scan(b).0);
    } else {
        lemma_line_scan_past(a, b.drop_last());
        assert(s.drop_last() =~= a.push('\n') + b.drop_last());
        assert(s.last() == b.last());
        let (ended, open) = line_scan(b.drop_last());
        assert((seq![without_cr(a)] + ended).push(without_cr(open)) =~= seq![without_cr(a)]
            + ended.push(without_cr(open)));
    }
}

/// A text is its first line and the lines behind the first newline; the carriage
/// return of a line end goes with it.
pub proof fn a_newline_ends_a_line(a: Seq<char>, b: Seq<char>)
    requires
        !a.contains('\n'),
    ensures
        a.len() > 0 ==> lines(a) == seq![a],
        lines(Seq::<char>::empty()) == Seq::<Seq<char>>::empty(),
        a.len() == 0 || a.last() != '\r' ==> lines(a.push('\n') + b) == seq![a] + lines(b),
        lines(a.push('\r').push('\n') + b) == seq![a] + lines(b),
{
    lemma_line_scan_open(a);
    if a.len() > 0 {
        assert(lines(a) =~= seq![a]);
    }
    lemma_line_scan_past(a, b);
    let (ended, open) = line_scan(b);
    assert((seq![a] + ended).push(open) =~= seq![a] + ended.push(open));
    let r = a.push('\r');
    assert(!r.contains('\n')) by {
        if r.contains('\n') {
            let j = choose|j: int| 0 <= j < r.len() && r[j] == '\n';
            assert(a[j] == '\n');
        }
    }
    lemma_line_scan_past(r, b);
    assert(r.drop_last() =~= a);
}

/// What stands behind the last `c` is what follows it, and the whole text where
/// there is none.
pub proof fn the_rest_follows_the_last_mark(before: Seq<char>, c: char, rest: Seq<char>)
    requires
        !rest.contains(c),
    ensures
        after_last(before.push(c) + rest, c) == rest,
        after_last(rest, c) == rest,
{
    let s = before.push(c) + rest;
    let at = before.len() as int;
    assert(s[at] == c);
    assert forall|k: int| at + 1 <= k < s.len() implies #[trigger] s[k] != c by {
        assert(s[k] == rest[k - at - 1]);
        assert(rest.contains(rest[k - at - 1]));
    }
    lemma_after_last_at(s, c, at + 1);
    assert(s.skip(at + 1) =~= rest);
    assert forall|k: int| 0 <= k < rest.len() implies #[trigger] rest[k] != c by {
        assert(rest.contains(rest[k]));
    }
    lemma_after_last_at(rest, c, 0);
    assert(rest.skip(0) =~= rest);
}

/// A text starts with what was put in front of it, and holds what was put
/// anywhere into it; and nothing else is a prefix or a part.
pub proof fn prefixes_and_parts(s: Seq<char>, part: Seq<char>, a: Seq<char>, b: Seq<char>)
    ensures
        starts_with(part + b, part),
        starts_with(s, part) ==> s == part + s.skip(part.len() as int),
        occurs_in(part, a + part + b),
        occurs_in(part, s) ==> exists|x: Seq<char>, y: Seq<char>| s == #[trigger] (x + part + y),
{
    assert((part + b).take(part.len() as int) =~= part);
    if starts_with(s, part) {
        assert(s =~= part + s.skip(part.len() as int));
    }
    let all = a + part + b;
    assert(all.subrange(a.len() as int, a.len() as int + part.len()) =~= part);
    if occurs_in(part, s) {
        let i = choose|i: int|
            0 <= i && i + part.len() <= s.len() && #[trigger] s.subrange(i, i + part.len())
                == part;
        assert(s =~= s.take(i) + part + s.skip(i + part.len()));
    }
}

/// The number a row of digits stands for.
pub open spec fn number_read(digits: Seq<char>) -> nat
    decreases digits.len(),
{
    if digits.len() == 0 {
        0
    } else {
        10 * number_read(digits.drop_last()) + (digits.last() as nat - 48) as nat
    }
}

/// A number written out is digits that read back as it, with no zero in front of
/// another digit.
pub proof fn a_number_reads_back(n: nat)
    ensures
        number_read(decimal(n)) == n,
        decimal(n).len() > 0,
        forall|i: int|
            0 <= i < decimal(n).len() ==> '0' <= #[trigger] decimal(n)[i] && decimal(n)[i] <= '9',
        decimal(n).len() > 1 ==> decimal(n)[0] != '0',
    decreases n,
{
    if n < 10 {
        assert(decimal(n).drop_last() =~= Seq::<char>::empty());
        assert(number_read(Seq::<char>::empty()) == 0);
        assert(decimal(n).last() == digit(n));
    } else {
        a_number_reads_back(n / 10);
        let front = decimal(n / 10);
        assert(decimal(n).drop_last() =~= front);
        if front.len() == 1 {
            assert(number_read(front.drop_last()) == 0) by {
                assert(front.drop_last() =~= Seq::<char>::empty());
            }
        }
        assert forall|i: int| 0 <= i < decimal(n).len() implies '0' <= #[trigger] decimal(n)[i]
            && decimal(n)[i] <= '9' by {
            if i < front.len() {
                assert(decimal(n)[i] == front[i]);
            }
        }
        assert(decimal(n)[0] == front[0]);
    }
}

} // verus!
