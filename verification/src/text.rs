//! Strings: decoding, building and formatting.

use vstd::prelude::*;
use vstd::utf8::{decode_utf8, valid_utf8};

verus! {

/// Calls `core::str::from_utf8`: the text whose UTF-8 encoding is `bytes`, or `None` when `bytes` is
/// not valid UTF-8.
#[verifier::external_body]
fn utf8_str(bytes: &[u8]) -> (s: Option<&str>)
    ensures
        s is Some <==> valid_utf8(bytes@),
        s matches Some(t) ==> t@ == decode_utf8(bytes@),
{
    core::str::from_utf8(bytes).ok()
}

/// The text whose UTF-8 encoding is `bytes`, or `None` when `bytes` is not valid UTF-8.
pub(crate) fn utf8_string(bytes: &[u8]) -> (s: Option<String>)
    ensures
        s is Some <==> valid_utf8(bytes@),
        s matches Some(t) ==> t@ == decode_utf8(bytes@),
{
    match utf8_str(bytes) {
        Some(t) => Some(t.to_string()),
        None => None,
    }
}

/// What `String::from_utf8_lossy` makes of bytes.
pub uninterp spec fn lossy_text(bytes: Seq<u8>) -> Seq<char>;

/// The text that bytes read as: what they encode, or what `String::from_utf8_lossy` makes of them
/// where they are not valid UTF-8.
pub open spec fn text_of(bytes: Seq<u8>) -> Seq<char> {
    if valid_utf8(bytes) {
        decode_utf8(bytes)
    } else {
        lossy_text(bytes)
    }
}

/// Calls `String::from_utf8_lossy`: the text of `bytes`, with U+FFFD in place of what is not valid
/// UTF-8. Valid UTF-8 is decoded as it is.
#[verifier::external_body]
pub(crate) fn utf8_lossy(bytes: &[u8]) -> (s: String)
    ensures
        s@ == lossy_text(bytes@),
        valid_utf8(bytes@) ==> s@ == decode_utf8(bytes@),
{
    String::from_utf8_lossy(bytes).into_owned()
}

/// `String::push`: the character is put at the end.
pub assume_specification[ std::string::String::push ](text: &mut std::string::String, c: char)
    ensures
        final(text)@ == old(text)@.push(c),
;

/// A digit of a number written in base 16 (or, below ten, in base 10).
pub open spec fn digit(d: nat) -> char {
    if d < 10 {
        (48 + d) as char
    } else {
        (87 + d) as char
    }
}

/// A number in base 10.
pub open spec fn dec_text(n: nat) -> Seq<char>
    decreases n,
{
    if n < 10 {
        seq![digit(n)]
    } else {
        dec_text(n / 10).push(digit(n % 10))
    }
}

/// The low `width` digits of a number in base 16, with leading zeros, in lower case.
pub open spec fn hex_text(n: nat, width: nat) -> Seq<char>
    decreases width,
{
    if width == 0 {
        Seq::empty()
    } else {
        hex_text(n / 16, (width - 1) as nat).push(digit(n % 16))
    }
}

/// Bytes as pairs of hexadecimal digits.
pub open spec fn hex_bytes(b: Seq<u8>) -> Seq<char>
    decreases b.len(),
{
    if b.len() == 0 {
        Seq::empty()
    } else {
        hex_bytes(b.drop_last()) + hex_text(b.last() as nat, 2)
    }
}

/// A text brought to at least `width` characters with spaces in front.
pub open spec fn pad_left(text: Seq<char>, width: nat) -> Seq<char> {
    if text.len() < width {
        Seq::new((width - text.len()) as nat, |i: int| ' ') + text
    } else {
        text
    }
}

/// The character of a digit.
fn digit_char(d: u64) -> (c: char)
    requires
        d < 16,
    ensures
        c == digit(d as nat),
{
    let code: u8 = if d < 10 {
        48 + d as u8
    } else {
        87 + d as u8
    };
    code as char
}

/// Appends a number in base 10.
pub fn push_dec(out: &mut String, n: u64)
    ensures
        final(out)@ == old(out)@ + dec_text(n as nat),
    decreases n,
{
    if n >= 10 {
        push_dec(out, n / 10);
    }
    out.push(digit_char(n % 10));
    assert(out@ =~= old(out)@ + dec_text(n as nat));
}

/// Appends a number of any size in base 10.
pub fn push_dec_wide(out: &mut String, n: u128)
    ensures
        final(out)@ == old(out)@ + dec_text(n as nat),
    decreases n,
{
    if n >= 10 {
        push_dec_wide(out, n / 10);
    }
    out.push(digit_char((n % 10) as u64));
    assert(out@ =~= old(out)@ + dec_text(n as nat));
}

/// Appends the low `width` digits of a number in base 16, with leading zeros.
pub fn push_hex(out: &mut String, n: u64, width: usize)
    ensures
        final(out)@ == old(out)@ + hex_text(n as nat, width as nat),
    decreases width,
{
    if width > 0 {
        push_hex(out, n / 16, width - 1);
        out.push(digit_char(n % 16));
    }
    assert(out@ =~= old(out)@ + hex_text(n as nat, width as nat));
}

/// Bytes as pairs of hexadecimal digits.
pub fn hex(bytes: &[u8]) -> (s: String)
    ensures
        s@ == hex_bytes(bytes@),
{
    let mut s = String::new();
    let mut i: usize = 0;
    assert(bytes@.take(0) =~= Seq::<u8>::empty());
    while i < bytes.len()
        invariant
            i <= bytes@.len(),
            s@ == hex_bytes(bytes@.take(i as int)),
        decreases bytes@.len() - i,
    {
        assert(bytes@.take(i + 1).drop_last() =~= bytes@.take(i as int));
        push_hex(&mut s, bytes[i] as u64, 2);
        i = i + 1;
    }
    assert(bytes@.take(i as int) =~= bytes@);
    s
}

/// The number as text in base 10.
pub fn dec(n: u64) -> (s: String)
    ensures
        s@ == dec_text(n as nat),
{
    let mut s = String::new();
    push_dec(&mut s, n);
    assert(s@ =~= dec_text(n as nat));
    s
}

/// Appends a text, brought to at least `width` characters with spaces in front.
pub fn push_padded(out: &mut String, text: &str, width: usize)
    ensures
        final(out)@ == old(out)@ + pad_left(text@, width as nat),
{
    let len: usize = text.unicode_len();
    let ghost start = out@;
    let mut i: usize = len;
    assert(out@ =~= start + Seq::new(0, |k: int| ' '));
    while i < width
        invariant
            len == text@.len(),
            len <= i,
            i <= width || i == len,
            out@ == start + Seq::new((i - len) as nat, |k: int| ' '),
        decreases width - i,
    {
        out.push(' ');
        assert(out@ =~= start + Seq::new((i + 1 - len) as nat, |k: int| ' '));
        i = i + 1;
    }
    out.append(text);
    assert(out@ =~= start + pad_left(text@, width as nat));
}

/// The characters of a text.
pub fn chars_of(s: &str) -> (v: Vec<char>)
    ensures
        v@ == s@,
{
    let mut v: Vec<char> = Vec::new();
    for c in it: s.chars()
        invariant
            v@ == s@.take(it.index() as int),
            it.seq() == s@,
    {
        v.push(c);
        assert(v@ =~= s@.take(it.index() + 1));
    }
    assert(v@ =~= s@);
    v
}

/// A text with every `c` written twice.
pub open spec fn doubled(s: Seq<char>, c: char) -> Seq<char>
    decreases s.len(),
{
    if s.len() == 0 {
        Seq::empty()
    } else if s.last() == c {
        doubled(s.drop_last(), c).push(c).push(c)
    } else {
        doubled(s.drop_last(), c).push(s.last())
    }
}

/// Appends a text with every `c` written twice.
pub fn push_doubled(out: &mut String, s: &str, c: char)
    ensures
        final(out)@ == old(out)@ + doubled(s@, c),
{
    let v = chars_of(s);
    let ghost start = out@;
    let mut i: usize = 0;
    assert(out@ =~= start + doubled(s@.take(0), c));
    while i < v.len()
        invariant
            i <= v@.len(),
            v@ == s@,
            out@ == start + doubled(s@.take(i as int), c),
        decreases v@.len() - i,
    {
        assert(s@.take(i + 1).drop_last() =~= s@.take(i as int));
        if v[i] == c {
            out.push(c);
        }
        out.push(v[i]);
        assert(out@ =~= start + doubled(s@.take(i + 1), c));
        i = i + 1;
    }
    assert(s@.take(i as int) =~= s@);
}

// ---------------------------------------------------------------------------
// Parts of texts.
// ---------------------------------------------------------------------------

/// A text stands in another from place `i` on.
pub open spec fn stands_at<T>(text: Seq<T>, part: Seq<T>, i: int) -> bool {
    0 <= i && i + part.len() <= text.len() && text.subrange(i, i + part.len()) == part
}

/// A text stands somewhere in another.
pub open spec fn has_part<T>(text: Seq<T>, part: Seq<T>) -> bool {
    exists|i: int| #[trigger] stands_at(text, part, i)
}

/// What stands in a text stands in it with more around it.
pub proof fn lemma_part_within<T>(before: Seq<T>, text: Seq<T>, after: Seq<T>, part: Seq<T>)
    requires
        has_part(text, part),
    ensures
        has_part(before + text + after, part),
{
    let i = choose|i: int| #[trigger] stands_at(text, part, i);
    let all = before + text + after;
    let j = before.len() + i;
    assert(all.subrange(j, j + part.len()) =~= text.subrange(i, i + part.len()));
    assert(stands_at(all, part, j));
}

/// What stands in a part of a text stands in the text.
pub proof fn lemma_part_in_part<T>(text: Seq<T>, mid: Seq<T>, part: Seq<T>)
    requires
        has_part(text, mid),
        has_part(mid, part),
    ensures
        has_part(text, part),
{
    let i = choose|i: int| #[trigger] stands_at(text, mid, i);
    let before = text.take(i);
    let after = text.skip(i + mid.len());
    assert(text =~= before + mid + after);
    lemma_part_within(before, mid, after, part);
}

/// A text stands in what is written around it.
pub proof fn lemma_part_of<T>(before: Seq<T>, part: Seq<T>, after: Seq<T>)
    ensures
        has_part(before + part + after, part),
{
    assert(part.subrange(0, part.len() as int) =~= part);
    assert(stands_at(part, part, 0));
    lemma_part_within(before, part, after, part);
}

// ---------------------------------------------------------------------------
// Reading settings.
// ---------------------------------------------------------------------------

/// A character with the Unicode property White_Space.
pub open spec fn is_white(c: char) -> bool {
    let n = c as u32;
    (9 <= n <= 13) || n == 0x20 || n == 0x85 || n == 0xa0 || n == 0x1680 || (0x2000 <= n <= 0x200a)
        || n == 0x2028 || n == 0x2029 || n == 0x202f || n == 0x205f || n == 0x3000
}

/// A text without the white space at its start.
pub open spec fn trim_start(s: Seq<char>) -> Seq<char>
    decreases s.len(),
{
    if s.len() > 0 && is_white(s[0]) {
        trim_start(s.skip(1))
    } else {
        s
    }
}

/// A text without the white space at its end.
pub open spec fn trim_end(s: Seq<char>) -> Seq<char>
    decreases s.len(),
{
    if s.len() > 0 && is_white(s.last()) {
        trim_end(s.drop_last())
    } else {
        s
    }
}

/// A text without the white space around it.
pub open spec fn trimmed(s: Seq<char>) -> Seq<char> {
    trim_end(trim_start(s))
}

/// A character in lower case, if it is an ASCII letter.
pub open spec fn lower_char(c: char) -> char {
    if 'A' as u32 <= c as u32 <= 'Z' as u32 {
        ((c as u32) + 32) as char
    } else {
        c
    }
}

/// A text with its ASCII letters in lower case.
pub open spec fn lowered(s: Seq<char>) -> Seq<char> {
    s.map_values(|c: char| lower_char(c))
}

/// Whether a character has the Unicode property White_Space.
fn char_is_white(c: char) -> (r: bool)
    ensures
        r == is_white(c),
{
    let n: u32 = c as u32;
    (9 <= n && n <= 13) || n == 0x20 || n == 0x85 || n == 0xa0 || n == 0x1680 || (0x2000 <= n && n
        <= 0x200a) || n == 0x2028 || n == 0x2029 || n == 0x202f || n == 0x205f || n == 0x3000
}

/// The characters of a text without the white space around it.
fn trimmed_chars(s: &str) -> (v: Vec<char>)
    ensures
        v@ == trimmed(s@),
{
    let all = chars_of(s);
    let mut i: usize = 0;
    assert(all@.skip(0) =~= all@);
    while i < all.len() && char_is_white(all[i])
        invariant
            i <= all@.len(),
            trim_start(s@) == trim_start(all@.skip(i as int)),
        decreases all@.len() - i,
    {
        assert(all@.skip(i as int).skip(1) =~= all@.skip(i + 1));
        i = i + 1;
    }
    let mut j: usize = all.len();
    let ghost rest = all@.skip(i as int);
    assert(rest =~= all@.subrange(i as int, j as int));
    while j > i && char_is_white(all[j - 1])
        invariant
            i <= j <= all@.len(),
            trim_end(rest) == trim_end(all@.subrange(i as int, j as int)),
        decreases j,
    {
        proof {
            let part = all@.subrange(i as int, j as int);
            assert(part.last() == all@[j - 1]);
            assert(part.drop_last() =~= all@.subrange(i as int, j - 1));
        }
        j = j - 1;
    }
    let ghost part = all@.subrange(i as int, j as int);
    proof {
        if part.len() > 0 {
            assert(part.last() == all@[j - 1]);
        }
    }
    let mut v: Vec<char> = Vec::new();
    let mut k: usize = i;
    while k < j
        invariant
            i <= k <= j <= all@.len(),
            v@ == all@.subrange(i as int, k as int),
        decreases j - k,
    {
        v.push(all[k]);
        assert(v@ =~= all@.subrange(i as int, k + 1));
        k = k + 1;
    }
    v
}

/// A text without the white space around it.
pub fn trim(s: &str) -> (t: String)
    ensures
        t@ == trimmed(s@),
{
    let v = trimmed_chars(s);
    let mut t = String::new();
    let mut i: usize = 0;
    while i < v.len()
        invariant
            i <= v@.len(),
            t@ == v@.take(i as int),
        decreases v@.len() - i,
    {
        t.push(v[i]);
        assert(t@ =~= v@.take(i + 1));
        i = i + 1;
    }
    assert(v@.take(i as int) =~= v@);
    t
}

/// A text without the white space around it, its ASCII letters in lower case.
pub fn normalized(s: &str) -> (t: String)
    ensures
        t@ == lowered(trimmed(s@)),
{
    let v = trimmed_chars(s);
    let mut t = String::new();
    let mut i: usize = 0;
    while i < v.len()
        invariant
            i <= v@.len(),
            t@ == lowered(v@.take(i as int)),
        decreases v@.len() - i,
    {
        let c: char = v[i];
        let n: u32 = c as u32;
        if 65 <= n && n <= 90 {
            t.push((n as u8 + 32) as char);
        } else {
            t.push(c);
        }
        assert(t@ =~= lowered(v@.take(i + 1)));
        i = i + 1;
    }
    assert(v@.take(i as int) =~= v@);
    t
}

/// Whether two texts are the same.
pub fn same_text(a: &str, b: &str) -> (r: bool)
    ensures
        r == (a@ == b@),
{
    let x = chars_of(a);
    let y = chars_of(b);
    if x.len() != y.len() {
        return false;
    }
    let mut i: usize = 0;
    while i < x.len()
        invariant
            i <= x@.len() == y@.len(),
            x@ == a@,
            y@ == b@,
            forall|k: int| 0 <= k < i ==> x@[k] == y@[k],
        decreases x@.len() - i,
    {
        if x[i] != y[i] {
            return false;
        }
        i = i + 1;
    }
    assert(x@ =~= y@);
    true
}

/// A decimal digit.
pub open spec fn is_digit(c: char) -> bool {
    '0' as u32 <= c as u32 <= '9' as u32
}

/// Every character is a decimal digit.
pub open spec fn all_digits(s: Seq<char>) -> bool {
    forall|i: int| 0 <= i < s.len() ==> is_digit(#[trigger] s[i])
}

/// The number that decimal digits write.
pub open spec fn digits_value(s: Seq<char>) -> nat
    decreases s.len(),
{
    if s.len() == 0 {
        0
    } else {
        10 * digits_value(s.drop_last()) + (s.last() as u32 - '0' as u32) as nat
    }
}

/// The digits of a number that may carry a plus sign.
pub open spec fn unsigned_digits(s: Seq<char>) -> Seq<char> {
    if s.len() > 0 && s[0] == '+' {
        s.skip(1)
    } else {
        s
    }
}

/// The number that a text writes: digits, with or without a plus sign before them.
pub open spec fn number_of(s: Seq<char>) -> Option<nat> {
    let d = unsigned_digits(s);
    if d.len() > 0 && all_digits(d) {
        Some(digits_value(d))
    } else {
        None
    }
}

/// The number that a text writes, if it is at most `max`.
pub open spec fn number_up_to(s: Seq<char>, max: nat) -> Option<nat> {
    match number_of(s) {
        Some(n) => if n <= max {
            Some(n)
        } else {
            None
        },
        None => None,
    }
}

/// More digits write no smaller number.
proof fn lemma_digits_grow(s: Seq<char>, i: int)
    requires
        0 <= i <= s.len(),
    ensures
        digits_value(s.take(i)) <= digits_value(s),
    decreases s.len(),
{
    if i < s.len() {
        lemma_digits_grow(s.drop_last(), i);
        assert(s.drop_last().take(i) =~= s.take(i));
    } else {
        assert(s.take(i) =~= s);
    }
}

/// Reads a number of at most `max`: digits, with or without a plus sign before them.
pub fn parse_number(s: &str, max: u64) -> (r: Option<u64>)
    ensures
        match r {
            Some(n) => number_up_to(s@, max as nat) == Some(n as nat),
            None => number_up_to(s@, max as nat) is None,
        },
{
    let v = chars_of(s);
    let start: usize = if v.len() > 0 && v[0] == '+' {
        1
    } else {
        0
    };
    let ghost d = unsigned_digits(s@);
    assert(d =~= v@.skip(start as int));
    if start == v.len() {
        return None;
    }
    let mut n: u64 = 0;
    let mut i: usize = start;
    assert(d.take(0) =~= Seq::<char>::empty());
    while i < v.len()
        invariant
            start <= i <= v@.len(),
            start <= 1,
            d == unsigned_digits(s@),
            d == v@.skip(start as int),
            n == digits_value(d.take(i - start)),
            n <= max,
            forall|k: int| 0 <= k < i - start ==> is_digit(#[trigger] d[k]),
        decreases v@.len() - i,
    {
        let c: u32 = v[i] as u32;
        let ghost k = i - start;
        assert(d[k] == v@[i as int]);
        if c < 48 || c > 57 {
            assert(!is_digit(d[k]));
            return None;
        }
        proof {
            assert(d.take(k + 1).drop_last() =~= d.take(k));
            assert(d.take(k + 1).last() == d[k]);
            lemma_digits_grow(d, k + 1);
        }
        let digit: u64 = (c - 48) as u64;
        if n > (u64::MAX - digit) / 10 || 10 * n + digit > max {
            return None;
        }
        n = 10 * n + digit;
        i = i + 1;
    }
    assert(d.take(i - start) =~= d);
    Some(n)
}

/// Writing a number in base 10 and reading it back gives the number.
pub proof fn law_number_round_trip(n: nat)
    ensures
        number_of(dec_text(n)) == Some(n),
        all_digits(dec_text(n)),
        dec_text(n).len() > 0,
        digits_value(dec_text(n)) == n,
    decreases n,
{
    let t = dec_text(n);
    if n < 10 {
        assert(t.last() == digit(n));
        assert(t.drop_last() =~= Seq::<char>::empty());
        assert(digits_value(t.drop_last()) == 0);
    } else {
        law_number_round_trip(n / 10);
        let init = dec_text(n / 10);
        assert(t.drop_last() =~= init);
        assert(t.last() == digit(n % 10));
        assert forall|i: int| 0 <= i < t.len() implies is_digit(#[trigger] t[i]) by {
            if i < init.len() {
                assert(t[i] == init[i]);
            }
        }
    }
    assert(is_digit(t[0]));
    assert(unsigned_digits(t) == t);
}

} // verus!
