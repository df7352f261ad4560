//! Byte offsets into strings.
//!
//! A string is modelled by its characters; every offset in this library counts bytes of its UTF-8
//! encoding. The definitions here tie the two together: what lies between two offsets, which
//! offsets fall between characters, and how slices of slices compose.

use vstd::prelude::*;
use vstd::utf8::{decode_utf8, encode_scalar, encode_utf8, is_char_boundary};

verus! {

/// The number of bytes that `s` takes in UTF-8.
pub open spec fn byte_len(s: Seq<char>) -> nat {
    encode_utf8(s).len()
}

/// Whether the byte offset `i` lies between two characters of `s`, or at one of its ends.
pub open spec fn at_boundary(s: Seq<char>, i: int) -> bool {
    0 <= i <= byte_len(s) && is_char_boundary(encode_utf8(s), i)
}

/// The characters of `s` between the byte offsets `i` and `j`.
pub open spec fn byte_slice(s: Seq<char>, i: int, j: int) -> Seq<char> {
    decode_utf8(encode_utf8(s).subrange(i, j))
}

/// What remains of `s` from the byte offset `i` on.
pub open spec fn byte_suffix(s: Seq<char>, i: int) -> Seq<char> {
    byte_slice(s, i, byte_len(s) as int)
}

/// Both ends of a string are boundaries.
pub proof fn lemma_ends(s: Seq<char>)
    ensures
        at_boundary(s, 0),
        at_boundary(s, byte_len(s) as int),
{
    vstd::utf8::encode_utf8_valid_utf8(s);
    vstd::utf8::is_char_boundary_start_end_of_seq(encode_utf8(s));
}

/// Inside a string the boundaries are the offsets of the bytes that start a character.
proof fn lemma_boundary_byte(s: Seq<char>, i: int)
    requires
        0 <= i < byte_len(s),
    ensures
        at_boundary(s, i) <==> !vstd::utf8::is_continuation_byte(encode_utf8(s)[i]),
{
    vstd::utf8::encode_utf8_valid_utf8(s);
    vstd::utf8::is_char_boundary_iff_not_is_continuation_byte(encode_utf8(s), i);
}

/// The bytes between two boundaries are the encoding of the characters between them.
pub proof fn lemma_slice_bytes(s: Seq<char>, i: int, j: int)
    requires
        i <= j,
        at_boundary(s, i),
        at_boundary(s, j),
    ensures
        encode_utf8(byte_slice(s, i, j)) == encode_utf8(s).subrange(i, j),
        byte_len(byte_slice(s, i, j)) == j - i,
{
    let bytes = encode_utf8(s);
    vstd::utf8::encode_utf8_valid_utf8(s);
    vstd::utf8::valid_utf8_split(bytes, j);
    let prefix = bytes.subrange(0, j);
    vstd::utf8::is_char_boundary_start_end_of_seq(prefix);
    if i < j {
        lemma_boundary_byte(s, i);
        vstd::utf8::is_char_boundary_iff_not_is_continuation_byte(prefix, i);
    }
    vstd::utf8::valid_utf8_split(prefix, i);
    assert(prefix.subrange(i, j) =~= bytes.subrange(i, j));
    vstd::utf8::decode_utf8_encode_utf8(bytes.subrange(i, j));
}

/// A boundary of a slice is a boundary of the whole, shifted by where the slice starts.
pub proof fn lemma_slice_boundary(s: Seq<char>, i: int, j: int, k: int)
    requires
        i <= j,
        at_boundary(s, i),
        at_boundary(s, j),
        0 <= k <= j - i,
    ensures
        at_boundary(byte_slice(s, i, j), k) <==> at_boundary(s, i + k),
{
    lemma_slice_bytes(s, i, j);
    let part = byte_slice(s, i, j);
    lemma_ends(part);
    if k < j - i {
        lemma_boundary_byte(part, k);
        lemma_boundary_byte(s, i + k);
    }
}

/// A slice of a slice is a slice of the whole.
pub proof fn lemma_slice_of_slice(s: Seq<char>, i: int, j: int, a: int, b: int)
    requires
        i <= j,
        at_boundary(s, i),
        at_boundary(s, j),
        0 <= a <= b <= j - i,
    ensures
        byte_slice(byte_slice(s, i, j), a, b) == byte_slice(s, i + a, i + b),
{
    lemma_slice_bytes(s, i, j);
    assert(encode_utf8(s).subrange(i, j).subrange(a, b) =~= encode_utf8(s).subrange(i + a, i + b));
}

/// The slice from one end of a string to the other is the string.
pub proof fn lemma_slice_all(s: Seq<char>)
    ensures
        byte_slice(s, 0, byte_len(s) as int) == s,
{
    assert(encode_utf8(s).subrange(0, byte_len(s) as int) =~= encode_utf8(s));
    vstd::utf8::encode_utf8_decode_utf8(s);
}

/// A slice between two equal offsets holds nothing.
pub proof fn lemma_slice_empty(s: Seq<char>, i: int)
    requires
        at_boundary(s, i),
    ensures
        byte_slice(s, i, i) == Seq::<char>::empty(),
{
    assert(encode_utf8(s).subrange(i, i) =~= Seq::<u8>::empty());
    assert(vstd::utf8::valid_utf8(Seq::<u8>::empty()));
}

/// Two slices that meet make one slice.
pub proof fn lemma_slice_concat(s: Seq<char>, i: int, j: int, k: int)
    requires
        i <= j <= k,
        at_boundary(s, i),
        at_boundary(s, j),
        at_boundary(s, k),
    ensures
        byte_slice(s, i, j) + byte_slice(s, j, k) == byte_slice(s, i, k),
{
    lemma_slice_bytes(s, i, k);
    lemma_slice_boundary(s, i, k, j - i);
    let whole = encode_utf8(byte_slice(s, i, k));
    vstd::utf8::encode_utf8_valid_utf8(byte_slice(s, i, k));
    vstd::utf8::decode_utf8_split(whole, j - i);
    assert(whole.subrange(0, j - i) =~= encode_utf8(s).subrange(i, j));
    assert(whole.subrange(j - i, k - i) =~= encode_utf8(s).subrange(j, k));
}

/// A string has no bytes exactly when it has no characters.
pub proof fn lemma_byte_len_zero(s: Seq<char>)
    ensures
        byte_len(s) == 0 <==> s.len() == 0,
{
    if s.len() > 0 {
        vstd::utf8::encode_utf8_first_scalar(s);
    }
}

/// The encoding of two strings one after another is that of the one followed by that of the
/// other.
pub proof fn lemma_encode_concat(a: Seq<char>, b: Seq<char>)
    ensures
        encode_utf8(a + b) == encode_utf8(a) + encode_utf8(b),
        byte_len(a + b) == byte_len(a) + byte_len(b),
    decreases a.len(),
{
    if a.len() == 0 {
        assert(a + b =~= b);
        assert(encode_utf8(a) + encode_utf8(b) =~= encode_utf8(b));
    } else {
        assert((a + b).drop_first() =~= a.drop_first() + b);
        lemma_encode_concat(a.drop_first(), b);
        assert(encode_utf8(a + b) =~= encode_utf8(a) + encode_utf8(b));
    }
}

/// The bytes in front of a character end at a boundary.
pub proof fn lemma_prefix_boundary(a: Seq<char>, b: Seq<char>)
    ensures
        at_boundary(a + b, byte_len(a) as int),
{
    lemma_encode_concat(a, b);
    lemma_ends(a + b);
    if b.len() > 0 {
        vstd::utf8::encode_utf8_first_scalar(b);
        lemma_byte_len_zero(b);
        assert(encode_utf8(a + b)[byte_len(a) as int] == encode_utf8(b)[0]);
        lemma_boundary_byte(a + b, byte_len(a) as int);
    }
}

/// The part of a string between the byte lengths of two of its prefixes is what the longer has
/// more than the shorter.
pub proof fn lemma_prefix_slice(a: Seq<char>, b: Seq<char>, c: Seq<char>)
    ensures
        byte_slice(a + b + c, byte_len(a) as int, byte_len(a + b) as int) == b,
{
    lemma_encode_concat(a, b);
    lemma_encode_concat(a + b, c);
    assert(encode_utf8(a + b + c).subrange(byte_len(a) as int, byte_len(a + b) as int)
        =~= encode_utf8(b));
    vstd::utf8::encode_utf8_decode_utf8(b);
}

/// The number of bytes that `s` takes.
pub fn str_len(s: &str) -> (n: usize)
    ensures
        n == byte_len(s@),
{
    s.as_bytes().len()
}

/// Whether the byte offset `i` lies between two characters of `s`, or at one of its ends.
pub fn is_boundary(s: &str, i: usize) -> (found: bool)
    ensures
        found == at_boundary(s@, i as int),
{
    proof {
        vstd::utf8::encode_utf8_valid_utf8(s@);
    }
    s.is_char_boundary(i)
}

/// The part of `s` between the byte offsets `i` and `j`.
pub fn slice<'a>(s: &'a str, i: usize, j: usize) -> (part: &'a str)
    requires
        i <= j,
        at_boundary(s@, i as int),
        at_boundary(s@, j as int),
    ensures
        part@ == byte_slice(s@, i as int, j as int),
{
    let (head, _) = s.split_at(j);
    proof {
        vstd::utf8::encode_utf8_decode_utf8(head@);
        lemma_ends(s@);
        assert(head@ == byte_slice(s@, 0, j as int));
        lemma_slice_boundary(s@, 0, j as int, i as int);
    }
    let (_, part) = head.split_at(i);
    proof {
        vstd::utf8::encode_utf8_decode_utf8(part@);
        lemma_slice_bytes(s@, 0, j as int);
        lemma_slice_of_slice(s@, 0, j as int, i as int, j as int);
    }
    part
}

/// `s` without the spaces at its start.
pub open spec fn trim_start(s: Seq<char>) -> Seq<char>
    decreases s.len(),
{
    if s.len() > 0 && s[0] == ' ' {
        trim_start(s.drop_first())
    } else {
        s
    }
}

/// `s` without the spaces at its end.
pub open spec fn trim_end(s: Seq<char>) -> Seq<char>
    decreases s.len(),
{
    if s.len() > 0 && s.last() == ' ' {
        trim_end(s.drop_last())
    } else {
        s
    }
}

/// `s` without the spaces around it.
pub open spec fn trim(s: Seq<char>) -> Seq<char> {
    trim_end(trim_start(s))
}

/// Whether `s` neither starts nor ends with a space.
pub open spec fn is_trimmed(s: Seq<char>) -> bool {
    s.len() > 0 ==> s[0] != ' ' && s.last() != ' '
}

/// What `str::to_lowercase` makes of `s`.
pub uninterp spec fn lowercase(s: Seq<char>) -> Seq<char>;

/// What `str::to_uppercase` makes of `s`.
pub uninterp spec fn uppercase(s: Seq<char>) -> Seq<char>;

/// Calls `str::to_lowercase`.
#[verifier::external_body]
pub(crate) fn to_lowercase(s: &str) -> (lower: String)
    ensures
        lower@ == lowercase(s@),
{
    s.to_lowercase()
}

/// Calls `str::to_uppercase`.
#[verifier::external_body]
pub(crate) fn to_uppercase(s: &str) -> (upper: String)
    ensures
        upper@ == uppercase(s@),
{
    s.to_uppercase()
}

/// Of the first and of the last byte of a character, each is that of a space exactly when the
/// character is one.
proof fn lemma_space_bytes(c: char)
    ensures
        encode_scalar(c as u32).len() > 0,
        encode_scalar(c as u32)[0] == 0x20 <==> c == ' ',
        encode_scalar(c as u32).last() == 0x20 <==> c == ' ',
        c == ' ' ==> encode_scalar(c as u32).len() == 1,
{
    let v = c as u32;
    assert(v <= 0x7F ==> (v & 0x7F) as u8 == v) by (bit_vector);
    assert(0xC0 | ((v >> 6) & 0x1F) as u8 != 0x20) by (bit_vector);
    assert(0xE0 | ((v >> 12) & 0x0F) as u8 != 0x20) by (bit_vector);
    assert(0xF0 | ((v >> 18) & 0x7) as u8 != 0x20) by (bit_vector);
    assert(0x80 | (v & 0x3F) as u8 != 0x20) by (bit_vector);
}

/// The first byte tells whether a string starts with a space, and what remains behind one.
proof fn lemma_first_byte(s: Seq<char>)
    requires
        s.len() > 0,
    ensures
        byte_len(s) > 0,
        encode_utf8(s)[0] == 0x20 <==> s[0] == ' ',
        s[0] == ' ' ==> at_boundary(s, 1) && byte_suffix(s, 1) == s.drop_first(),
{
    let first = seq![s[0]];
    let rest = s.drop_first();
    lemma_space_bytes(s[0]);
    assert(first.drop_first() =~= Seq::<char>::empty());
    assert(encode_utf8(first.drop_first()) =~= Seq::<u8>::empty());
    assert(encode_utf8(first) =~= encode_scalar(s[0] as u32));
    assert(first + rest =~= s);
    assert(first + rest + Seq::<char>::empty() =~= s);
    lemma_encode_concat(first, rest);
    lemma_prefix_boundary(first, rest);
    lemma_prefix_slice(first, rest, Seq::empty());
}

/// The last byte tells whether a string ends with a space, and what stands before one.
proof fn lemma_last_byte(s: Seq<char>)
    requires
        s.len() > 0,
    ensures
        byte_len(s) > 0,
        encode_utf8(s).last() == 0x20 <==> s.last() == ' ',
        s.last() == ' ' ==> at_boundary(s, byte_len(s) - 1) && byte_slice(s, 0, byte_len(s) - 1)
            == s.drop_last(),
{
    let front = s.drop_last();
    let last = seq![s.last()];
    lemma_space_bytes(s.last());
    assert(last.drop_first() =~= Seq::<char>::empty());
    assert(encode_utf8(last.drop_first()) =~= Seq::<u8>::empty());
    assert(encode_utf8(last) =~= encode_scalar(s.last() as u32));
    assert(front + last =~= s);
    assert(Seq::<char>::empty() + front + last =~= s);
    assert(Seq::<char>::empty() + front =~= front);
    lemma_encode_concat(front, last);
    lemma_prefix_boundary(front, last);
    lemma_byte_len_zero(Seq::<char>::empty());
    lemma_prefix_slice(Seq::empty(), front, last);
}

/// Whether `s` starts with a space.
fn starts_with_space(s: &str) -> (found: bool)
    ensures
        found == (s@.len() > 0 && s@[0] == ' '),
{
    if s.is_empty() {
        return false;
    }
    proof {
        lemma_first_byte(s@);
    }
    s.as_bytes()[0] == 0x20
}

/// Whether `s` ends with a space.
fn ends_with_space(s: &str) -> (found: bool)
    ensures
        found == (s@.len() > 0 && s@.last() == ' '),
{
    if s.is_empty() {
        return false;
    }
    proof {
        lemma_last_byte(s@);
    }
    let bytes = s.as_bytes();
    bytes[bytes.len() - 1] == 0x20
}

/// `s` without the spaces around it.
pub fn trim_spaces(s: &str) -> (trimmed: &str)
    ensures
        trimmed@ == trim(s@),
{
    let mut rest = s;
    while starts_with_space(rest)
        invariant
            trim_start(rest@) == trim_start(s@),
        decreases rest@.len(),
    {
        proof {
            lemma_first_byte(rest@);
            lemma_ends(rest@);
        }
        rest = slice(rest, 1, str_len(rest));
    }
    while ends_with_space(rest)
        invariant
            trim_end(rest@) == trim(s@),
        decreases rest@.len(),
    {
        proof {
            lemma_last_byte(rest@);
            lemma_ends(rest@);
        }
        rest = slice(rest, 0, str_len(rest) - 1);
    }
    rest
}

/// Trimming the end keeps what `s` starts with, and leaves no space at the end.
proof fn lemma_trim_end(s: Seq<char>)
    ensures
        trim_end(s).len() > 0 ==> trim_end(s)[0] == s[0] && trim_end(s).last() != ' ',
    decreases s.len(),
{
    if s.len() > 0 && s.last() == ' ' {
        lemma_trim_end(s.drop_last());
    }
}

/// Trimming the start leaves no space there.
proof fn lemma_trim_start(s: Seq<char>)
    ensures
        trim_start(s).len() > 0 ==> trim_start(s)[0] != ' ',
    decreases s.len(),
{
    if s.len() > 0 && s[0] == ' ' {
        lemma_trim_start(s.drop_first());
    }
}

/// What `trim` leaves neither starts nor ends with a space.
pub proof fn lemma_trim(s: Seq<char>)
    ensures
        is_trimmed(trim(s)),
{
    lemma_trim_start(s);
    lemma_trim_end(trim_start(s));
}

/// All of `parts`, one after another.
pub open spec fn concat(parts: Seq<Seq<char>>) -> Seq<char>
    decreases parts.len(),
{
    if parts.len() == 0 {
        Seq::empty()
    } else {
        concat(parts.drop_last()) + parts.last()
    }
}

/// Whether `word` is one of `words`.
pub fn contains_word(words: &Vec<String>, word: &str) -> (found: bool)
    ensures
        found == words.deep_view().contains(word@),
{
    let key = word.to_string();
    for i in 0..words.len()
        invariant
            key@ == word@,
            forall|j: int| 0 <= j < i ==> #[trigger] words.deep_view()[j] != word@,
    {
        assert(words.deep_view()[i as int] == words@[i as int]@);
        if words[i] == key {
            return true;
        }
    }
    false
}

} // verus!
