//! Text helpers shared by the lexer, the parser and the code generator.
//!
//! Texts are modelled by their characters (`Seq<char>`, the view of `str` and
//! `String`); the lexer also looks at their UTF-8 bytes.

use crate::lexer::{CARRIAGE_RETURN, LINE_FEED};
use itertools::Itertools;
use vstd::prelude::*;
use vstd::string::StringSliceAdditionalSpecFns;
use vstd::utf8::*;

verus! {

/// In well-formed UTF-8 an ASCII byte starts a character, and the byte that
/// follows it starts the next one (or is the end of the text).
pub proof fn lemma_boundary_after_ascii(bytes: Seq<u8>, i: int)
    requires
        valid_utf8(bytes),
        0 <= i < bytes.len(),
        bytes[i] < 0x80,
    ensures
        is_char_boundary(bytes, i),
        is_char_boundary(bytes, i + 1),
    decreases bytes.len(),
{
    reveal_with_fuel(is_char_boundary, 2);
    let first = length_of_first_scalar(bytes);
    if i >= first {
        lemma_boundary_after_ascii(pop_first_scalar(bytes), i - first);
    }
}

/// A text has at most as many characters as its UTF-8 encoding has bytes.
pub proof fn lemma_chars_fit_in_bytes(chars: Seq<char>)
    ensures
        chars.len() <= encode_utf8(chars).len(),
    decreases chars.len(),
{
    if chars.len() > 0 {
        lemma_chars_fit_in_bytes(chars.drop_first());
    }
}

/// The part of `s` between two byte offsets that both fall on character
/// boundaries.
pub fn substring<'a>(s: &'a str, start: usize, end: usize) -> (r: &'a str)
    requires
        start <= end <= s.spec_bytes().len(),
        is_char_boundary(s.spec_bytes(), start as int),
        is_char_boundary(s.spec_bytes(), end as int),
    ensures
        r.spec_bytes() == s.spec_bytes().subrange(start as int, end as int),
        r@ == decode_utf8(s.spec_bytes().subrange(start as int, end as int)),
{
    broadcast use vstd::utf8::group_utf8_lib;

    let (head, _) = s.split_at(end);
    proof {
        let whole = s.spec_bytes();
        let front = head.spec_bytes();
        if start < end {
            is_char_boundary_iff_not_is_continuation_byte(whole, start as int);
            is_char_boundary_iff_not_is_continuation_byte(front, start as int);
        } else {
            is_char_boundary_start_end_of_seq(front);
        }
    }
    let (_, r) = head.split_at(start);
    r
}

/// Whether two strings hold the same characters.
pub fn str_eq(a: &str, b: &str) -> (r: bool)
    ensures
        r == (a@ == b@),
{
    broadcast use vstd::utf8::group_utf8_lib;

    let x = a.as_bytes();
    let y = b.as_bytes();
    if x.len() != y.len() {
        return false;
    }
    let mut i: usize = 0;
    while i < x.len()
        invariant
            x@ == a.spec_bytes(),
            y@ == b.spec_bytes(),
            x@.len() == y@.len(),
            i <= x@.len(),
            forall|k: int| 0 <= k < i ==> x@[k] == y@[k],
        decreases x@.len() - i,
    {
        if x[i] != y[i] {
            return false;
        }
        i += 1;
    }
    assert(x@ =~= y@);
    assert(decode_utf8(encode_utf8(a@)) == a@);
    true
}

/// The texts of a sequence of strings.
pub open spec fn texts(parts: Seq<String>) -> Seq<Seq<char>> {
    parts.map_values(|p: String| p@)
}

/// The parts in order, with `sep` between each two neighbours.
pub open spec fn joined(parts: Seq<Seq<char>>, sep: Seq<char>) -> Seq<char>
    decreases parts.len(),
{
    if parts.len() == 0 {
        Seq::empty()
    } else if parts.len() == 1 {
        parts[0]
    } else {
        joined(parts.drop_last(), sep) + sep + parts.last()
    }
}

/// `Itertools::join` on the strings of a vector. Trusted: the result is the
/// first string followed, for each further string, by `sep` and that string;
/// it is empty for an empty vector.
#[verifier::external_body]
pub(crate) fn join_with(parts: &Vec<String>, sep: &str) -> (r: String)
    ensures
        r@ == joined(texts(parts@), sep@),
{
    parts.iter().join(sep)
}

/// The number of characters before the first line feed, or the whole length
/// where there is none.
pub open spec fn line_len(s: Seq<char>) -> nat
    decreases s.len(),
{
    if s.len() == 0 || s[0] == '\n' {
        0
    } else {
        1 + line_len(s.drop_first())
    }
}

/// A line without the carriage return that stood before its line feed.
pub open spec fn strip_cr(line: Seq<char>) -> Seq<char> {
    if line.len() > 0 && line.last() == '\r' {
        line.drop_last()
    } else {
        line
    }
}

/// The lines of a text. A line ends at a line feed, or at a carriage return
/// directly followed by one; neither belongs to the line. The last line needs
/// no line ending, and a text that ends with one has no empty line after it.
pub open spec fn lines_of(s: Seq<char>) -> Seq<Seq<char>>
    decreases s.len(),
{
    if s.len() == 0 {
        Seq::empty()
    } else {
        let n = line_len(s) as int;
        if n >= s.len() {
            seq![s]
        } else {
            seq![strip_cr(s.take(n))] + lines_of(s.skip(n + 1))
        }
    }
}

/// The first byte of the encoding of a scalar outside ASCII is not ASCII.
proof fn lemma_leading_bytes(c: u32)
    by (bit_vector)
    ensures
        (0xC0u8 | ((c >> 6) & 0x1F) as u8) >= 0x80,
        (0xE0u8 | ((c >> 12) & 0x0F) as u8) >= 0x80,
        (0xF0u8 | ((c >> 18) & 0x7) as u8) >= 0x80,
{
}

/// The further bytes of the encoding of a scalar are not ASCII.
proof fn lemma_continuation_bytes(c: u32)
    by (bit_vector)
    ensures
        (0x80u8 | (c & 0x3F) as u8) >= 0x80,
        (0x80u8 | ((c >> 6) & 0x3F) as u8) >= 0x80,
        (0x80u8 | ((c >> 12) & 0x3F) as u8) >= 0x80,
{
}

/// An ASCII scalar is encoded by the byte of the same value.
proof fn lemma_ascii_byte(c: u32)
    by (bit_vector)
    requires
        c < 0x80,
    ensures
        (c & 0x7F) as u8 == c as u8,
        (c as u8) as u32 == c,
{
}

/// A character is told by its scalar value.
pub proof fn lemma_char_value(c: char, d: char)
    ensures
        c == d <==> c as u32 == d as u32,
{
    if c as u32 == d as u32 {
        char_u32_cast(c, c as u32);
        char_u32_cast(d, c as u32);
    }
}

/// An ASCII character is encoded by one byte of the same value, and no byte
/// of the encoding of another character is ASCII.
pub proof fn lemma_char_bytes(c: char)
    ensures
        encode_scalar(c as u32).len() >= 1,
        (c as u32) < 0x80 ==> encode_scalar(c as u32) == seq![(c as u32) as u8] && ((
        c as u32) as u8) as u32 == c as u32,
        (c as u32) >= 0x80 ==> forall|k: int|
            0 <= k < encode_scalar(c as u32).len() ==> #[trigger] encode_scalar(c as u32)[k]
                >= 0x80,
{
    let v = c as u32;
    lemma_leading_bytes(v);
    lemma_continuation_bytes(v);
    if v < 0x80 {
        lemma_ascii_byte(v);
    }
}

/// The encoding of two texts one after the other is the encoding of the
/// first, then that of the second.
pub proof fn lemma_encode_concat(a: Seq<char>, b: Seq<char>)
    ensures
        encode_utf8(a + b) == encode_utf8(a) + encode_utf8(b),
    decreases a.len(),
{
    if a.len() == 0 {
        assert(a + b =~= b);
    } else {
        assert((a + b).drop_first() =~= a.drop_first() + b);
        lemma_encode_concat(a.drop_first(), b);
    }
}

/// The first line of a text in its encoding: the bytes before the first line
/// feed byte encode the characters before the first line feed, and what
/// follows the one encodes what follows the other.
pub proof fn lemma_first_line_bytes(chars: Seq<char>)
    ensures
        ({
            let n = line_len(chars) as int;
            let bytes = encode_utf8(chars);
            let m = encode_utf8(chars.take(n)).len() as int;
            &&& n <= chars.len()
            &&& m <= bytes.len()
            &&& forall|k: int| 0 <= k < m ==> #[trigger] bytes[k] != LINE_FEED
            &&& bytes.take(m) == encode_utf8(chars.take(n))
            &&& n < chars.len() ==> m < bytes.len() && bytes[m] == LINE_FEED && bytes.skip(m + 1)
                == encode_utf8(chars.skip(n + 1))
        }),
    decreases chars.len(),
{
    let bytes = encode_utf8(chars);
    if chars.len() == 0 {
        assert(chars.take(0) =~= chars);
    } else {
        let first = encode_scalar(chars[0] as u32);
        let rest = chars.drop_first();
        lemma_char_bytes(chars[0]);
        lemma_char_value(chars[0], '\n');
        assert('\n' as u32 == 10);
        assert(bytes == first + encode_utf8(rest));
        if chars[0] == '\n' {
            assert(chars.take(0) =~= Seq::<char>::empty());
            assert(bytes.take(0) =~= Seq::<u8>::empty());
            assert(bytes.skip(1) =~= encode_utf8(rest));
            assert(chars.skip(1) =~= rest);
        } else {
            lemma_first_line_bytes(rest);
            let n = line_len(rest) as int;
            let m = encode_utf8(rest.take(n)).len() as int;
            let tail = encode_utf8(rest);
            assert(chars.take(n + 1).drop_first() =~= rest.take(n));
            assert(encode_utf8(chars.take(n + 1)) == first + encode_utf8(rest.take(n)));
            assert forall|k: int| 0 <= k < first.len() + m implies #[trigger] bytes[k]
                != LINE_FEED by {
                if k < first.len() {
                    assert(bytes[k] == first[k]);
                } else {
                    assert(bytes[k] == tail[k - first.len()]);
                }
            }
            assert(bytes.take(first.len() + m) =~= first + tail.take(m));
            if n < rest.len() {
                assert(bytes[first.len() + m] == tail[m]);
                assert(bytes.skip(first.len() + m + 1) =~= tail.skip(m + 1));
                assert(chars.skip(n + 2) =~= rest.skip(n + 1));
            }
        }
    }
}

/// The last character of a text in its encoding: the last byte is a
/// carriage return exactly if the last character is one, and then the bytes
/// before it encode the characters before it.
pub proof fn lemma_last_byte(chars: Seq<char>)
    requires
        chars.len() > 0,
    ensures
        encode_utf8(chars).len() > 0,
        encode_utf8(chars).last() == CARRIAGE_RETURN <==> chars.last() == '\r',
        chars.last() == '\r' ==> encode_utf8(chars).drop_last() == encode_utf8(chars.drop_last()),
{
    let front = chars.drop_last();
    let last = chars.last();
    let tail = encode_scalar(last as u32);
    assert(chars =~= front + seq![last]);
    lemma_encode_concat(front, seq![last]);
    lemma_char_bytes(last);
    assert(encode_utf8(seq![last]) =~= tail) by {
        reveal_with_fuel(encode_utf8, 2);
        assert(seq![last].drop_first() =~= Seq::<char>::empty());
    }
    let bytes = encode_utf8(chars);
    lemma_char_value(last, '\r');
    assert('\r' as u32 == 13);
    assert(bytes.last() == tail.last());
    if last == '\r' {
        assert(bytes.drop_last() =~= encode_utf8(front));
    }
}

/// `line_len` is the position of the first line feed.
pub proof fn lemma_line_len(s: Seq<char>, n: int)
    requires
        0 <= n <= s.len(),
        forall|k: int| 0 <= k < n ==> s[k] != '\n',
        n < s.len() ==> s[n] == '\n',
    ensures
        line_len(s) == n,
    decreases n,
{
    if n > 0 {
        lemma_line_len(s.drop_first(), n - 1);
    }
}

/// The lines of `s`, each as a string of its own.
#[verifier::rlimit(50)]
pub fn split_lines(s: &str) -> (lines: Vec<String>)
    ensures
        texts(lines@) == lines_of(s@),
{
    broadcast use vstd::utf8::group_utf8_lib;

    let bytes = s.as_bytes();
    let len = bytes.len();
    let mut lines: Vec<String> = Vec::new();
    let mut start: usize = 0;
    let mut i: usize = 0;
    let ghost mut done: int = 0;
    proof {
        assert(s@.skip(0) =~= s@);
        assert(bytes@.skip(0) =~= bytes@);
        assert(bytes@ == encode_utf8(s@));
    }
    while i < len
        invariant
            bytes@ == s.spec_bytes(),
            valid_utf8(bytes@),
            len == bytes@.len(),
            start <= i <= len,
            0 <= done <= s@.len(),
            start == 0 || bytes@[start - 1] == LINE_FEED,
            bytes@.skip(start as int) == encode_utf8(s@.skip(done)),
            lines_of(s@) == texts(lines@) + lines_of(s@.skip(done)),
            forall|k: int| start <= k < i ==> bytes@[k] != LINE_FEED,
        decreases len - i,
    {
        if bytes[i] == LINE_FEED {
            let cr = i > start && bytes[i - 1] == CARRIAGE_RETURN;
            let end = if cr { i - 1 } else { i };
            let ghost rest = s@.skip(done);
            let ghost n = line_len(rest) as int;
            let ghost line = rest.take(n);
            proof {
                let tail = bytes@.skip(start as int);
                let m = encode_utf8(line).len() as int;
                lemma_first_line_bytes(rest);
                assert(tail[i - start] == bytes@[i as int]);
                assert forall|k: int| 0 <= k < i - start implies tail[k] != LINE_FEED by {
                    assert(tail[k] == bytes@[start + k]);
                }
                assert(tail[i - start] == LINE_FEED);
                assert(encode_utf8(rest)[i - start] == LINE_FEED);
                assert(n < rest.len() && m == i - start) by {
                    if n >= rest.len() {
                        assert(rest.take(n) =~= rest);
                    }
                    if m < i - start {
                        assert(tail[m] != LINE_FEED);
                    }
                }
                assert(bytes@.subrange(start as int, i as int) =~= tail.take(m));
                assert(tail.skip(m + 1) =~= bytes@.skip(i + 1));
                assert(rest.skip(n + 1) =~= s@.skip(done + n + 1));
                lemma_chars_fit_in_bytes(line);
                assert(tail.take(m) == encode_utf8(line));
                if line.len() > 0 {
                    lemma_last_byte(line);
                    assert(tail.take(m).last() == bytes@[i - 1]);
                }
                if cr {
                    assert(line.len() > 0) by {
                        if line.len() == 0 {
                            assert(encode_utf8(line).len() == 0);
                        }
                    }
                    assert(bytes@.subrange(start as int, end as int) =~= tail.take(m).drop_last());
                    encode_utf8_decode_utf8(line.drop_last());
                } else {
                    encode_utf8_decode_utf8(line);
                }
                if start > 0 {
                    lemma_boundary_after_ascii(bytes@, start - 1);
                }
                lemma_boundary_after_ascii(bytes@, end as int);
            }
            let piece = String::from_str(substring(s, start, end));
            proof {
                assert(piece@ == strip_cr(line));
                assert(texts(lines@.push(piece)) =~= texts(lines@) + seq![piece@]);
                done = done + n + 1;
            }
            lines.push(piece);
            start = i + 1;
        }
        i += 1;
    }
    let ghost rest = s@.skip(done);
    proof {
        let tail = bytes@.skip(start as int);
        lemma_first_line_bytes(rest);
        lemma_chars_fit_in_bytes(rest);
        assert forall|k: int| 0 <= k < tail.len() implies tail[k] != LINE_FEED by {
            assert(tail[k] == bytes@[start + k]);
        }
        assert(line_len(rest) == rest.len());
        assert(rest.take(rest.len() as int) =~= rest);
    }
    if start < len {
        proof {
            if start > 0 {
                lemma_boundary_after_ascii(bytes@, start - 1);
            }
            assert(bytes@.subrange(start as int, len as int) =~= bytes@.skip(start as int));
        }
        let piece = String::from_str(substring(s, start, len));
        proof {
            assert(texts(lines@.push(piece)) =~= texts(lines@) + seq![piece@]);
        }
        lines.push(piece);
    } else {
        assert(texts(lines@) + Seq::<Seq<char>>::empty() =~= texts(lines@));
    }
    lines
}

/// The text of one decimal digit.
pub open spec fn digit_text(d: nat) -> Seq<char> {
    if d == 0 {
        "0"@
    } else if d == 1 {
        "1"@
    } else if d == 2 {
        "2"@
    } else if d == 3 {
        "3"@
    } else if d == 4 {
        "4"@
    } else if d == 5 {
        "5"@
    } else if d == 6 {
        "6"@
    } else if d == 7 {
        "7"@
    } else if d == 8 {
        "8"@
    } else {
        "9"@
    }
}

/// A number written in decimal digits, without leading zeros.
pub open spec fn decimal_text(n: nat) -> Seq<char>
    decreases n,
{
    if n < 10 {
        digit_text(n)
    } else {
        decimal_text(n / 10) + digit_text(n % 10)
    }
}

fn digit(d: usize) -> (r: &'static str)
    requires
        d < 10,
    ensures
        r@ == digit_text(d as nat),
{
    if d == 0 {
        "0"
    } else if d == 1 {
        "1"
    } else if d == 2 {
        "2"
    } else if d == 3 {
        "3"
    } else if d == 4 {
        "4"
    } else if d == 5 {
        "5"
    } else if d == 6 {
        "6"
    } else if d == 7 {
        "7"
    } else if d == 8 {
        "8"
    } else {
        "9"
    }
}

/// Writes `n` in decimal digits.
pub fn decimal(n: usize) -> (r: String)
    ensures
        r@ == decimal_text(n as nat),
    decreases n,
{
    if n < 10 {
        String::from_str(digit(n))
    } else {
        let mut r = decimal(n / 10);
        r.append(digit(n % 10));
        r
    }
}

} // verus!
