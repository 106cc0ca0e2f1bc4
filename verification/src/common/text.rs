//! Text as it travels on the wire: sequences of bytes, cut into lines and
//! fields, with numbers written in decimal.

use vstd::prelude::*;
use vstd::slice::slice_subrange;
use vstd::slice::slice_to_vec;

verus! {

/// The line feed that ends every line of the text protocols.
pub const NEWLINE: u8 = 10;

/// The carriage return that may stand before a line feed.
pub const CARRIAGE_RETURN: u8 = 13;

/// The space between the fields of a line.
pub const SPACE: u8 = 32;

/// The byte that pads fixed-size fields and buffers.
pub const NUL: u8 = 0;

/// The plus sign that may lead a decimal number.
pub const PLUS: u8 = 43;

/// The digit zero; the other digits follow it.
pub const ZERO: u8 = 48;

/// The views of a list of byte strings.
pub open spec fn views(list: Seq<Vec<u8>>) -> Seq<Seq<u8>> {
    list.map_values(|item: Vec<u8>| item@)
}

/// Whether `b` is one of the white-space characters of one byte: a space, a
/// tab, a line feed, a vertical tab, a form feed or a carriage return.
pub open spec fn is_space(b: u8) -> bool {
    b == 32 || (9 <= b && b <= 13)
}

/// Whether `a`, `b` spell one of the white-space characters of two bytes:
/// the next-line character or the no-break space.
pub open spec fn is_space_of_two(a: u8, b: u8) -> bool {
    a == 0xC2 && (b == 0x85 || b == 0xA0)
}

/// Whether `a`, `b`, `c` spell one of the white-space characters of three
/// bytes: the Ogham space mark, the spaces of fixed width from the en quad
/// to the hair space, the line and the paragraph separator, the narrow
/// no-break space, the medium mathematical space or the ideographic space.
pub open spec fn is_space_of_three(a: u8, b: u8, c: u8) -> bool {
    ||| a == 0xE1 && b == 0x9A && c == 0x80
    ||| a == 0xE2 && b == 0x80 && (0x80 <= c && c <= 0x8A)
    ||| a == 0xE2 && b == 0x80 && (c == 0xA8 || c == 0xA9 || c == 0xAF)
    ||| a == 0xE2 && b == 0x81 && c == 0x9F
    ||| a == 0xE3 && b == 0x80 && c == 0x80
}

/// The number of bytes of the white-space character that `s` begins with,
/// or zero where it begins with none. The characters are written in UTF-8.
pub open spec fn space_at_start(s: Seq<u8>) -> int {
    if s.len() >= 1 && is_space(s[0]) {
        1
    } else if s.len() >= 2 && is_space_of_two(s[0], s[1]) {
        2
    } else if s.len() >= 3 && is_space_of_three(s[0], s[1], s[2]) {
        3
    } else {
        0
    }
}

/// The number of bytes of the white-space character that `s` ends with, or
/// zero where it ends with none.
pub open spec fn space_at_end(s: Seq<u8>) -> int {
    if s.len() >= 1 && is_space(s[s.len() - 1]) {
        1
    } else if s.len() >= 2 && is_space_of_two(s[s.len() - 2], s[s.len() - 1]) {
        2
    } else if s.len() >= 3 && is_space_of_three(s[s.len() - 3], s[s.len() - 2], s[s.len() - 1]) {
        3
    } else {
        0
    }
}

/// Whether `b` is a decimal digit.
pub open spec fn is_digit(b: u8) -> bool {
    48 <= b && b <= 57
}

/// The number of leading bytes of `s` that differ from `b`: the place of the
/// first `b` in `s`, or the length of `s` where there is none.
pub open spec fn find_first(s: Seq<u8>, b: u8) -> int
    decreases s.len(),
{
    if s.len() == 0 || s[0] == b {
        0
    } else {
        1 + find_first(s.drop_first(), b)
    }
}

/// The place of the last `b` in `s`, or -1 where there is none.
pub open spec fn find_last(s: Seq<u8>, b: u8) -> int
    decreases s.len(),
{
    if s.len() == 0 {
        -1
    } else if s.last() == b {
        s.len() - 1
    } else {
        find_last(s.drop_last(), b)
    }
}

/// The number of bytes that the white-space characters at the start of `s`
/// take.
pub open spec fn leading_spaces(s: Seq<u8>) -> int
    decreases s.len(),
{
    let n = space_at_start(s);
    if n <= 0 {
        0
    } else {
        n + leading_spaces(s.skip(n))
    }
}

/// The number of bytes that the white-space characters at the end of `s`
/// take.
pub open spec fn trailing_spaces(s: Seq<u8>) -> int
    decreases s.len(),
{
    let n = space_at_end(s);
    if n <= 0 {
        0
    } else {
        n + trailing_spaces(s.take(s.len() - n))
    }
}

/// `s` without the white space at its start.
pub open spec fn trim_start(s: Seq<u8>) -> Seq<u8> {
    s.skip(leading_spaces(s))
}

/// `s` without the white space at its end.
pub open spec fn trim_end(s: Seq<u8>) -> Seq<u8> {
    s.take(s.len() - trailing_spaces(s))
}

/// `s` without the white space at either end.
pub open spec fn trim(s: Seq<u8>) -> Seq<u8> {
    trim_end(trim_start(s))
}

/// `line` without the carriage return at its end, if it has one.
pub open spec fn strip_cr(line: Seq<u8>) -> Seq<u8> {
    if line.len() > 0 && line.last() == CARRIAGE_RETURN {
        line.drop_last()
    } else {
        line
    }
}

/// The lines of `s`.
///
/// A line ends at a line feed; a carriage return just before the line feed
/// belongs to the line ending. The last line need not be ended, and then
/// keeps a carriage return at its end. Nothing follows the last line feed:
/// a text that ends with one has no empty line after it.
pub open spec fn lines(s: Seq<u8>) -> Seq<Seq<u8>>
    decreases s.len(),
{
    if s.len() == 0 {
        Seq::empty()
    } else {
        let end = find_first(s, NEWLINE);
        if 0 <= end && end < s.len() {
            seq![strip_cr(s.take(end))] + lines(s.skip(end + 1))
        } else {
            seq![s]
        }
    }
}

/// The number that the digits of `s` spell, most significant first.
pub open spec fn digits_value(s: Seq<u8>) -> nat
    decreases s.len(),
{
    if s.len() == 0 {
        0
    } else {
        digits_value(s.drop_last()) * 10 + (s.last() - ZERO) as nat
    }
}

/// Whether every byte of `s` is a decimal digit.
pub open spec fn all_digits(s: Seq<u8>) -> bool {
    forall|i: int| 0 <= i < s.len() ==> is_digit(#[trigger] s[i])
}

/// `s` without the plus sign that may lead a number.
pub open spec fn unsigned_body(s: Seq<u8>) -> Seq<u8> {
    if s.len() > 0 && s[0] == PLUS {
        s.drop_first()
    } else {
        s
    }
}

/// The number that `s` spells, if it spells one that fits in 64 bits: an
/// optional plus sign, then one or more decimal digits and nothing else.
pub open spec fn parse_unsigned(s: Seq<u8>) -> Option<u64> {
    let body = unsigned_body(s);
    if body.len() > 0 && all_digits(body) && digits_value(body) <= u64::MAX {
        Some(digits_value(body) as u64)
    } else {
        None
    }
}

/// `n` written in decimal, without leading zeros.
pub open spec fn decimal(n: nat) -> Seq<u8>
    decreases n,
{
    if n < 10 {
        seq![(ZERO + n) as u8]
    } else {
        decimal(n / 10).push((ZERO + n % 10) as u8)
    }
}

/// What `find_first` returns lies within `s`, no `b` stands before it, and a
/// `b` stands at it unless it is the end of `s`.
pub proof fn lemma_find_first(s: Seq<u8>, b: u8)
    ensures
        0 <= find_first(s, b) <= s.len(),
        forall|j: int| 0 <= j < find_first(s, b) ==> s[j] != b,
        find_first(s, b) < s.len() ==> s[find_first(s, b)] == b,
    decreases s.len(),
{
    if s.len() == 0 || s[0] == b {
    } else {
        let rest = s.drop_first();
        lemma_find_first(rest, b);
        assert forall|j: int| 0 <= j < find_first(s, b) implies s[j] != b by {
            if j > 0 {
                assert(s[j] == rest[j - 1]);
            }
        }
        assert(find_first(s, b) < s.len() ==> s[find_first(s, b)] == rest[find_first(rest, b)]);
    }
}

/// A place with the three properties of `lemma_find_first` is what
/// `find_first` returns.
pub proof fn lemma_find_first_is(s: Seq<u8>, b: u8, i: int)
    requires
        0 <= i <= s.len(),
        forall|j: int| 0 <= j < i ==> s[j] != b,
        i < s.len() ==> s[i] == b,
    ensures
        find_first(s, b) == i,
    decreases s.len(),
{
    if s.len() == 0 || s[0] == b {
    } else {
        let rest = s.drop_first();
        assert forall|j: int| 0 <= j < i - 1 implies rest[j] != b by {
            assert(rest[j] == s[j + 1]);
        }
        lemma_find_first_is(rest, b, i - 1);
    }
}

/// What `find_last` returns is -1 or lies within `s`, no `b` stands behind
/// it, and a `b` stands at it unless it is -1.
pub proof fn lemma_find_last(s: Seq<u8>, b: u8)
    ensures
        -1 <= find_last(s, b) < s.len(),
        forall|j: int| find_last(s, b) < j < s.len() ==> s[j] != b,
        find_last(s, b) >= 0 ==> s[find_last(s, b)] == b,
    decreases s.len(),
{
    if s.len() == 0 || s.last() == b {
    } else {
        let rest = s.drop_last();
        lemma_find_last(rest, b);
        assert forall|j: int| find_last(s, b) < j < s.len() implies s[j] != b by {
            if j < s.len() - 1 {
                assert(s[j] == rest[j]);
            }
        }
        assert(find_last(s, b) >= 0 ==> s[find_last(s, b)] == rest[find_last(rest, b)]);
    }
}

/// A place with the three properties of `lemma_find_last` is what
/// `find_last` returns.
pub proof fn lemma_find_last_is(s: Seq<u8>, b: u8, i: int)
    requires
        -1 <= i < s.len(),
        forall|j: int| i < j < s.len() ==> s[j] != b,
        i >= 0 ==> s[i] == b,
    ensures
        find_last(s, b) == i,
    decreases s.len(),
{
    if s.len() == 0 || s.last() == b {
    } else {
        let rest = s.drop_last();
        assert forall|j: int| i < j < rest.len() implies rest[j] != b by {
            assert(rest[j] == s[j]);
        }
        if i >= 0 {
            assert(rest[i] == s[i]);
        }
        lemma_find_last_is(rest, b, i);
    }
}

/// The digits read so far never spell more than the whole number.
pub proof fn lemma_digits_value_prefix(s: Seq<u8>, k: int)
    requires
        0 <= k <= s.len(),
    ensures
        digits_value(s.take(k)) <= digits_value(s),
    decreases s.len(),
{
    if k == s.len() {
        assert(s.take(k) =~= s);
    } else {
        assert(s.drop_last().take(k) =~= s.take(k));
        lemma_digits_value_prefix(s.drop_last(), k);
    }
}

/// Whether no byte of `s` is a line feed.
pub open spec fn is_one_line(s: Seq<u8>) -> bool {
    forall|i: int| 0 <= i < s.len() ==> #[trigger] s[i] != NEWLINE
}

/// Whether `s` is empty or ends with a line feed.
pub open spec fn is_ended(s: Seq<u8>) -> bool {
    s.len() == 0 || s.last() == NEWLINE
}

/// Whether `s` can stand on a line of its own: it holds no line feed and
/// does not end in a carriage return.
pub open spec fn is_line(s: Seq<u8>) -> bool {
    is_one_line(s) && (s.len() == 0 || s.last() != CARRIAGE_RETURN)
}

/// Whether each of `names` can stand on a line of its own.
pub open spec fn are_lines(names: Seq<Seq<u8>>) -> bool {
    forall|k: int| 0 <= k < names.len() ==> is_line(#[trigger] names[k])
}

/// The first place of a byte in a text is its first place in the text's
/// beginning, if it occurs there.
pub proof fn lemma_find_first_in_front(x: Seq<u8>, y: Seq<u8>, b: u8)
    requires
        find_first(x, b) < x.len(),
    ensures
        find_first(x + y, b) == find_first(x, b),
{
    lemma_find_first(x, b);
    let at = find_first(x, b);
    assert forall|j: int| 0 <= j < at implies (x + y)[j] != b by {
        assert((x + y)[j] == x[j]);
    }
    assert((x + y)[at] == x[at]);
    lemma_find_first_is(x + y, b, at);
}

/// The lines of a text that follows a text whose last line is ended are the
/// lines of the one and then the lines of the other.
pub proof fn lemma_lines_concat(x: Seq<u8>, y: Seq<u8>)
    requires
        is_ended(x),
    ensures
        lines(x + y) == lines(x) + lines(y),
    decreases x.len(),
{
    if x.len() == 0 {
        assert(x + y =~= y);
        assert(lines(x) + lines(y) =~= lines(y));
    } else {
        lemma_find_first(x, NEWLINE);
        let end = find_first(x, NEWLINE);
        if end >= x.len() {
            assert(x[x.len() - 1] != NEWLINE);
        }
        lemma_find_first_in_front(x, y, NEWLINE);
        let rest = x.skip(end + 1);
        assert((x + y).take(end) =~= x.take(end));
        assert((x + y).skip(end + 1) =~= rest + y);
        if rest.len() > 0 {
            assert(rest.last() == x.last());
        }
        lemma_lines_concat(rest, y);
        assert(lines(x + y) =~= seq![strip_cr(x.take(end))] + (lines(rest) + lines(y)));
        assert(lines(x) + lines(y) =~= seq![strip_cr(x.take(end))] + lines(rest) + lines(y));
    }
}

/// A text has no more lines than bytes.
pub proof fn lemma_lines_len(s: Seq<u8>)
    ensures
        lines(s).len() <= s.len(),
    decreases s.len(),
{
    if s.len() > 0 {
        let end = find_first(s, NEWLINE);
        if 0 <= end && end < s.len() {
            lemma_lines_len(s.skip(end + 1));
        }
    }
}

/// A line and its line feed are read as that line, without the carriage
/// return that it may end in.
pub proof fn lemma_lines_of_one(line: Seq<u8>)
    requires
        is_one_line(line),
    ensures
        lines(line + seq![NEWLINE]) == seq![strip_cr(line)],
{
    let text = line + seq![NEWLINE];
    assert forall|j: int| 0 <= j < line.len() implies text[j] != NEWLINE by {
        assert(text[j] == line[j]);
    }
    assert(text[line.len() as int] == NEWLINE);
    lemma_find_first_is(text, NEWLINE, line.len() as int);
    assert(text.take(line.len() as int) =~= line);
    assert(text.skip(line.len() as int + 1) =~= Seq::<u8>::empty());
    assert(lines(text.skip(line.len() as int + 1)) =~= Seq::<Seq<u8>>::empty());
    assert(lines(text) =~= seq![strip_cr(line)]);
}

/// A number written in decimal is made of digits, at least one.
pub proof fn lemma_decimal_digits(n: nat)
    ensures
        decimal(n).len() > 0,
        all_digits(decimal(n)),
        digits_value(decimal(n)) == n,
    decreases n,
{
    if n < 10 {
        let d = decimal(n);
        assert(d.len() == 1);
        assert(d.drop_last() =~= Seq::<u8>::empty());
        assert(digits_value(d.drop_last()) == 0);
    } else {
        lemma_decimal_digits(n / 10);
        let d = decimal(n);
        let front = decimal(n / 10);
        assert(d.drop_last() =~= front);
        assert(d.last() == (ZERO + n % 10) as u8);
        assert forall|i: int| 0 <= i < d.len() implies is_digit(#[trigger] d[i]) by {
            if i < front.len() {
                assert(d[i] == front[i]);
            }
        }
    }
}

/// A number written in decimal is read back as that number.
pub proof fn lemma_decimal_round_trip(n: u64)
    ensures
        parse_unsigned(decimal(n as nat)) == Some(n),
{
    lemma_decimal_digits(n as nat);
    let d = decimal(n as nat);
    assert(is_digit(d[0]));
}

/// Whether two byte strings are the same.
pub fn bytes_eq(a: &[u8], b: &[u8]) -> (same: bool)
    ensures
        same == (a@ == b@),
{
    if a.len() != b.len() {
        return false;
    }
    let mut i: usize = 0;
    while i < a.len()
        invariant
            a.len() == b.len(),
            i <= a.len(),
            forall|j: int| 0 <= j < i ==> a@[j] == b@[j],
        decreases a.len() - i,
    {
        if a[i] != b[i] {
            return false;
        }
        i += 1;
    }
    assert(a@ =~= b@);
    true
}

/// Whether `s` begins with `prefix`.
pub fn starts_with(s: &[u8], prefix: &[u8]) -> (found: bool)
    ensures
        found == prefix@.is_prefix_of(s@),
{
    if s.len() < prefix.len() {
        return false;
    }
    let mut i: usize = 0;
    while i < prefix.len()
        invariant
            prefix.len() <= s.len(),
            i <= prefix.len(),
            forall|j: int| 0 <= j < i ==> s@[j] == prefix@[j],
        decreases prefix.len() - i,
    {
        if s[i] != prefix[i] {
            assert(s@.subrange(0, prefix@.len() as int)[i as int] != prefix@[i as int]);
            return false;
        }
        i += 1;
    }
    assert(s@.subrange(0, prefix@.len() as int) =~= prefix@);
    true
}

/// A copy of the bytes of `s` from `from` up to `to`.
pub fn copy_range(s: &[u8], from: usize, to: usize) -> (out: Vec<u8>)
    requires
        from <= to <= s.len(),
    ensures
        out@ == s@.subrange(from as int, to as int),
{
    slice_to_vec(slice_subrange(s, from, to))
}

/// The place of the first `b` in `s` at or after `from`, or the length of
/// `s` where there is none.
pub fn index_of(s: &[u8], from: usize, b: u8) -> (at: usize)
    requires
        from <= s.len(),
    ensures
        from <= at <= s.len(),
        at == from + find_first(s@.skip(from as int), b),
{
    let mut i: usize = from;
    while i < s.len() && s[i] != b
        invariant
            from <= i <= s.len(),
            forall|j: int| from <= j < i ==> s@[j] != b,
        decreases s.len() - i,
    {
        i += 1;
    }
    proof {
        let tail = s@.skip(from as int);
        assert forall|j: int| 0 <= j < i - from implies tail[j] != b by {
            assert(tail[j] == s@[from + j]);
        }
        lemma_find_first_is(tail, b, i - from);
    }
    i
}

/// The place of the last `b` in `s`, if there is one.
pub fn last_index_of(s: &[u8], b: u8) -> (at: Option<usize>)
    ensures
        match at {
            Some(i) => i < s.len() && i == find_last(s@, b),
            None => find_last(s@, b) == -1,
        },
{
    let mut i: usize = s.len();
    while i > 0 && s[i - 1] != b
        invariant
            i <= s.len(),
            forall|j: int| i <= j < s.len() ==> s@[j] != b,
        decreases i,
    {
        i -= 1;
    }
    proof {
        lemma_find_last_is(s@, b, i - 1);
    }
    if i == 0 {
        None
    } else {
        Some(i - 1)
    }
}

/// Whether `b` is white space.
pub fn is_space_byte(b: u8) -> (space: bool)
    ensures
        space == is_space(b),
{
    b == 32 || (9 <= b && b <= 13)
}

/// The number of bytes of the white-space character that stands at `at`
/// in `s`, or zero where none stands there.
pub fn space_len_at(s: &[u8], at: usize) -> (n: usize)
    requires
        at <= s.len(),
    ensures
        n == space_at_start(s@.skip(at as int)),
        at + n <= s.len(),
{
    if at < s.len() && is_space_byte(s[at]) {
        1
    } else if s.len() - at >= 2 && s[at] == 0xC2 && (s[at + 1] == 0x85 || s[at + 1] == 0xA0) {
        2
    } else if s.len() - at >= 3 && wide_space(s[at], s[at + 1], s[at + 2]) {
        3
    } else {
        0
    }
}

/// The number of bytes of the white-space character that ends just before
/// `end` in `s`, or zero where none ends there.
pub fn space_len_before(s: &[u8], end: usize) -> (n: usize)
    requires
        end <= s.len(),
    ensures
        n == space_at_end(s@.take(end as int)),
        n <= end,
{
    if end >= 1 && is_space_byte(s[end - 1]) {
        1
    } else if end >= 2 && s[end - 2] == 0xC2 && (s[end - 1] == 0x85 || s[end - 1] == 0xA0) {
        2
    } else if end >= 3 && wide_space(s[end - 3], s[end - 2], s[end - 1]) {
        3
    } else {
        0
    }
}

/// Whether `a`, `b`, `c` spell a white-space character of three bytes.
fn wide_space(a: u8, b: u8, c: u8) -> (space: bool)
    ensures
        space == is_space_of_three(a, b, c),
{
    (a == 0xE1 && b == 0x9A && c == 0x80) || (a == 0xE2 && b == 0x80 && ((0x80 <= c && c <= 0x8A)
        || c == 0xA8 || c == 0xA9 || c == 0xAF)) || (a == 0xE2 && b == 0x81 && c == 0x9F) || (a
        == 0xE3 && b == 0x80 && c == 0x80)
}

/// The part of `s` between the white space at its two ends.
pub fn trim_bytes(s: &[u8]) -> (out: &[u8])
    ensures
        out@ == trim(s@),
{
    let mut start: usize = 0;
    assert(s@.skip(0) =~= s@);
    loop
        invariant
            start <= s.len(),
            leading_spaces(s@) == start + leading_spaces(s@.skip(start as int)),
        ensures
            start <= s.len(),
            leading_spaces(s@) == start,
        decreases s.len() - start,
    {
        let n = space_len_at(s, start);
        if n == 0 {
            break;
        }
        assert(s@.skip(start as int).skip(n as int) =~= s@.skip(start + n));
        start += n;
    }
    let ghost rest = trim_start(s@);
    assert(rest == s@.skip(start as int));
    let mut end: usize = s.len();
    assert(rest.take(rest.len() as int) =~= rest);
    loop
        invariant
            start <= end <= s.len(),
            rest == s@.skip(start as int),
            trailing_spaces(rest) == (s.len() - end) + trailing_spaces(
                s@.subrange(start as int, end as int),
            ),
        ensures
            start <= end <= s.len(),
            trailing_spaces(rest) == s.len() - end,
        decreases end,
    {
        let ghost middle = s@.subrange(start as int, end as int);
        let ghost whole = s@.take(end as int);
        proof {
            if middle.len() >= 1 {
                assert(middle[middle.len() - 1] == whole[whole.len() - 1]);
            }
            if middle.len() >= 2 {
                assert(middle[middle.len() - 2] == whole[whole.len() - 2]);
            }
            if middle.len() >= 3 {
                assert(middle[middle.len() - 3] == whole[whole.len() - 3]);
            }
        }
        let n = if end - start >= 3 {
            space_len_before(s, end)
        } else {
            space_len_within(s, start, end)
        };
        if n == 0 {
            break;
        }
        assert(middle.take(middle.len() - n) =~= s@.subrange(start as int, end - n));
        end -= n;
    }
    assert(rest.take(rest.len() - (s.len() - end)) =~= s@.subrange(start as int, end as int));
    slice_subrange(s, start, end)
}

/// The number of bytes of the white-space character that the part of `s`
/// from `start` up to `end` ends with, where that part has fewer than three
/// bytes.
fn space_len_within(s: &[u8], start: usize, end: usize) -> (n: usize)
    requires
        start <= end <= s.len(),
        end - start < 3,
    ensures
        n == space_at_end(s@.subrange(start as int, end as int)),
        n <= end - start,
{
    if end - start >= 1 && is_space_byte(s[end - 1]) {
        1
    } else if end - start >= 2 && s[end - 2] == 0xC2 && (s[end - 1] == 0x85 || s[end - 1]
        == 0xA0) {
        2
    } else {
        0
    }
}

/// The lines of `s`, each copied out.
pub fn split_lines(s: &[u8]) -> (out: Vec<Vec<u8>>)
    ensures
        views(out@) == lines(s@),
{
    let mut out: Vec<Vec<u8>> = Vec::new();
    let mut pos: usize = 0;
    assert(s@.skip(0) =~= s@);
    assert(views(out@) =~= Seq::<Seq<u8>>::empty());
    while pos < s.len()
        invariant
            pos <= s.len(),
            lines(s@) == views(out@) + lines(s@.skip(pos as int)),
        decreases s.len() - pos,
    {
        let end = index_of(s, pos, NEWLINE);
        let ghost rest = s@.skip(pos as int);
        let ghost before = views(out@);
        if end < s.len() {
            let mut stop: usize = end;
            if stop > pos && s[stop - 1] == CARRIAGE_RETURN {
                stop -= 1;
            }
            let line = copy_range(s, pos, stop);
            proof {
                lemma_find_first(rest, NEWLINE);
                assert(rest.take(end - pos) =~= s@.subrange(pos as int, end as int));
                assert(strip_cr(rest.take(end - pos)) =~= line@);
                assert(rest.skip(end - pos + 1) =~= s@.skip(end + 1));
            }
            out.push(line);
            pos = end + 1;
            proof {
                assert(views(out@) =~= before + seq![line@]);
                assert(lines(rest) == seq![line@] + lines(s@.skip(pos as int)));
                assert(lines(s@) =~= views(out@) + lines(s@.skip(pos as int)));
            }
        } else {
            let line = copy_range(s, pos, s.len());
            proof {
                assert(line@ =~= rest);
                assert(lines(rest) == seq![rest]);
            }
            out.push(line);
            pos = s.len();
            proof {
                assert(views(out@) =~= before + seq![line@]);
                assert(s@.skip(pos as int) =~= Seq::<u8>::empty());
                assert(lines(s@.skip(pos as int)) =~= Seq::<Seq<u8>>::empty());
                assert(lines(s@) =~= views(out@) + lines(s@.skip(pos as int)));
            }
        }
    }
    proof {
        assert(s@.skip(pos as int) =~= Seq::<u8>::empty());
        assert(views(out@) + Seq::<Seq<u8>>::empty() =~= views(out@));
    }
    out
}

/// Reads a decimal number: an optional plus sign, then digits.
pub fn parse_u64(s: &[u8]) -> (value: Option<u64>)
    ensures
        value == parse_unsigned(s@),
{
    let start: usize = if s.len() > 0 && s[0] == PLUS {
        1
    } else {
        0
    };
    let ghost body = unsigned_body(s@);
    assert(body =~= s@.skip(start as int));
    if start == s.len() {
        return None;
    }
    let mut acc: u64 = 0;
    let mut i: usize = start;
    assert(body.take(0) =~= Seq::<u8>::empty());
    while i < s.len()
        invariant
            start <= i <= s.len(),
            start < s.len(),
            body == s@.skip(start as int),
            body == unsigned_body(s@),
            forall|j: int| 0 <= j < i - start ==> is_digit(#[trigger] body[j]),
            acc == digits_value(body.take(i - start)),
        decreases s.len() - i,
    {
        let b = s[i];
        assert(b == body[i - start]);
        if b < 48 || b > 57 {
            return None;
        }
        let digit: u64 = (b - 48) as u64;
        proof {
            let next = body.take(i - start + 1);
            assert(next.drop_last() =~= body.take(i - start));
            assert(next.last() == b);
            assert(digits_value(next) == acc * 10 + digit);
            lemma_digits_value_prefix(body, i - start + 1);
        }
        if acc > (u64::MAX - digit) / 10 {
            return None;
        }
        acc = acc * 10 + digit;
        i += 1;
    }
    assert(body.take(i - start) =~= body);
    Some(acc)
}

/// Appends `n` in decimal to `out`.
pub fn push_decimal(out: &mut Vec<u8>, n: u64)
    ensures
        final(out)@ == old(out)@ + decimal(n as nat),
    decreases n,
{
    if n >= 10 {
        push_decimal(out, n / 10);
    }
    let digit: u8 = (n % 10) as u8;
    out.push(48 + digit);
    proof {
        if n >= 10 {
            assert(old(out)@ + decimal((n / 10) as nat).push((ZERO + n % 10) as u8) =~= (old(out)@
                + decimal((n / 10) as nat)).push((48 + digit) as u8));
        } else {
            assert(old(out)@ + decimal(n as nat) =~= old(out)@.push((48 + digit) as u8));
        }
    }
}

/// Appends the bytes of `s` to `out`.
pub fn push_bytes(out: &mut Vec<u8>, s: &[u8])
    ensures
        final(out)@ == old(out)@ + s@,
{
    let mut i: usize = 0;
    while i < s.len()
        invariant
            i <= s.len(),
            out@ == old(out)@ + s@.take(i as int),
        decreases s.len() - i,
    {
        out.push(s[i]);
        i += 1;
        assert(s@.take(i as int) =~= s@.take(i - 1).push(s@[i - 1]));
    }
    assert(s@.take(i as int) =~= s@);
}

} // verus!
