//! Borrowed string bytes in either of the two encodings a scripting
//! engine hands out: Latin-1 (one byte per character) or UTF-8.
//!
//! Splitting at commas works on the raw bytes in both encodings: the
//! comma is ASCII (byte 44), so in UTF-8 a comma byte always stands for
//! a comma character.

use vstd::prelude::*;

use vstd::slice::{slice_index_get, slice_subrange};
use vstd::std_specs::iter::IteratorSpec;
use vstd::string::StringSliceAdditionalSpecFns;
use vstd::utf8::{
    char_is_scalar, encode_scalar, encode_utf8, encode_utf8_valid_utf8, is_char_boundary,
    is_char_boundary_iff_not_is_continuation_byte, is_char_boundary_start_end_of_seq,
    is_continuation_byte, length_of_first_scalar, pop_first_scalar, valid_utf8,
};

verus! {

/// String bytes as a scripting engine holds them.
#[derive(Copy, Clone, Debug)]
pub enum EncodedBytes<'a> {
    Latin1Bytes(&'a [u8]),
    Utf8Bytes(&'a str),
}

/// Narrows an ASCII character to the byte that carries it in a Latin-1
/// string.  Wider characters do not fit in one byte.
pub fn char_to_latin1_u8(c: char) -> (r: u8)
    requires
        c as u32 <= 127,
    ensures
        r as u32 == c as u32,
{
    let u: u32 = c as u32;
    u as u8
}

/// Widens a Latin-1 byte in the ASCII range back to its character.
pub fn latin1_u8_to_char(c: u8) -> (r: char)
    requires
        c <= 127,
    ensures
        r as u32 == c as u32,
        r == c as char,
{
    c as char
}

/// The raw bytes a value stands for, in its own encoding.
pub open spec fn seg_bytes<'a>(e: EncodedBytes<'a>) -> Seq<u8> {
    match e {
        EncodedBytes::Latin1Bytes(b) => b@,
        EncodedBytes::Utf8Bytes(s) => s.spec_bytes(),
    }
}

/// The position of the first occurrence of a byte, or -1 when it does
/// not occur.
pub open spec fn first_byte_index(s: Seq<u8>, sep: u8) -> int
    decreases s.len(),
{
    if s.len() == 0 {
        -1
    } else if s[0] == sep {
        0
    } else {
        let r = first_byte_index(s.drop_first(), sep);
        if r < 0 {
            -1
        } else {
            r + 1
        }
    }
}

/// What `first_byte_index` finds: the separator's position with nothing
/// equal before it, or the separator's absence.
pub proof fn lemma_first_byte_index(s: Seq<u8>, sep: u8)
    ensures
        first_byte_index(s, sep) < 0 ==> forall|j: int| 0 <= j < s.len() ==> s[j] != sep,
        first_byte_index(s, sep) >= 0 ==> 0 <= first_byte_index(s, sep) < s.len() && s[
            first_byte_index(s, sep)
        ] == sep && (forall|j: int| 0 <= j < first_byte_index(s, sep) ==> s[j] != sep),
    decreases s.len(),
{
    if s.len() == 0 {
    } else if s[0] == sep {
    } else {
        lemma_first_byte_index(s.drop_first(), sep);
        let r = first_byte_index(s.drop_first(), sep);
        assert forall|j: int| 0 <= j < s.drop_first().len() implies s.drop_first()[j] == s[j
            + 1] by {}
        if r < 0 {
            assert forall|j: int| 0 <= j < s.len() implies s[j] != sep by {
                if j > 0 {
                    assert(s.drop_first()[j - 1] == s[j]);
                }
            }
        } else {
            assert(s[r + 1] == s.drop_first()[r]);
            assert forall|j: int| 0 <= j < r + 1 implies s[j] != sep by {
                if j > 0 {
                    assert(s.drop_first()[j - 1] == s[j]);
                }
            }
        }
    }
}

/// A byte sequence split at every occurrence of a separator: the
/// separators are dropped, and n separators yield n + 1 segments,
/// counting empty ones.
pub open spec fn split_bytes_on(s: Seq<u8>, sep: u8) -> Seq<Seq<u8>>
    decreases s.len(),
{
    let i = first_byte_index(s, sep);
    if 0 <= i < s.len() {
        seq![s.take(i)] + split_bytes_on(s.skip(i + 1), sep)
    } else {
        seq![s]
    }
}

/// Finds the first occurrence of a byte in a slice.
fn find_byte(s: &[u8], sep: u8) -> (r: Option<usize>)
    ensures
        match r {
            Some(p) => first_byte_index(s@, sep) == p,
            None => first_byte_index(s@, sep) < 0,
        },
{
    let n = s.len();
    let mut i: usize = 0;
    while i < n
        invariant
            n == s@.len(),
            0 <= i <= n,
            forall|j: int| 0 <= j < i ==> s@[j] != sep,
        decreases n - i,
    {
        if *slice_index_get(s, i) == sep {
            proof {
                lemma_first_byte_index(s@, sep);
                let fi = first_byte_index(s@, sep);
                if fi < 0 {
                } else if fi < (i as int) {
                    assert(s@[fi] != sep);
                } else if (i as int) < fi {
                    assert(s@[i as int] != sep);
                }
            }
            return Some(i);
        }
        i += 1;
    }
    proof {
        lemma_first_byte_index(s@, sep);
    }
    None
}

/// Splits a Latin-1 byte slice at every comma byte.
fn split_commas_latin1<'a>(s: &'a [u8]) -> (r: Vec<EncodedBytes<'a>>)
    ensures
        r@.len() == split_bytes_on(s@, 44).len(),
        forall|i: int|
            0 <= i < r@.len() ==> seg_bytes(#[trigger] r@[i]) == split_bytes_on(s@, 44)[i] && r@[
                i
            ] is Latin1Bytes,
{
    let mut out: Vec<EncodedBytes<'a>> = Vec::new();
    let mut rest: &'a [u8] = s;
    loop
        invariant
            forall|k: int| 0 <= k < out@.len() ==> (#[trigger] out@[k]) is Latin1Bytes,
            split_bytes_on(s@, 44) == Seq::new(out@.len(), |k: int| seg_bytes(out@[k]))
                + split_bytes_on(rest@, 44),
        decreases rest@.len(),
    {
        let ghost done = Seq::new(out@.len(), |k: int| seg_bytes(out@[k]));
        match find_byte(rest, 44) {
            None => {
                proof {
                    lemma_first_byte_index(rest@, 44);
                    assert(split_bytes_on(rest@, 44) =~= seq![rest@]);
                }
                out.push(EncodedBytes::Latin1Bytes(rest));
                proof {
                    assert(Seq::new(out@.len(), |k: int| seg_bytes(out@[k])) =~= done.push(
                        rest@,
                    ));
                    assert(done + seq![rest@] =~= done.push(rest@));
                    assert(split_bytes_on(s@, 44) =~= Seq::new(
                        out@.len(),
                        |k: int| seg_bytes(out@[k]),
                    ));
                }
                return out;
            },
            Some(p) => {
                proof {
                    lemma_first_byte_index(rest@, 44);
                }
                let n = rest.len();
                proof {
                    assert((p as int) < rest@.len());
                }
                let seg = slice_subrange(rest, 0, p);
                let tail = slice_subrange(rest, p + 1, n);
                proof {
                    assert(seg@ =~= rest@.take(p as int));
                    assert(tail@ =~= rest@.skip(p + 1));
                    assert(split_bytes_on(rest@, 44) == seq![rest@.take(p as int)]
                        + split_bytes_on(rest@.skip(p + 1), 44));
                }
                out.push(EncodedBytes::Latin1Bytes(seg));
                rest = tail;
                proof {
                    assert(Seq::new(out@.len(), |k: int| seg_bytes(out@[k])) =~= done.push(seg@));
                    assert(split_bytes_on(s@, 44) =~= Seq::new(
                        out@.len(),
                        |k: int| seg_bytes(out@[k]),
                    ) + split_bytes_on(rest@, 44));
                }
            },
        }
    }
}

/// Splits a UTF-8 string at every comma.  A comma byte in valid UTF-8
/// always falls on a character boundary, so splitting the bytes splits
/// the string.
fn split_commas_utf8<'a>(s: &'a str) -> (r: Vec<EncodedBytes<'a>>)
    ensures
        r@.len() == split_bytes_on(s.spec_bytes(), 44).len(),
        forall|i: int|
            0 <= i < r@.len() ==> seg_bytes(#[trigger] r@[i]) == split_bytes_on(
                s.spec_bytes(),
                44,
            )[i] && r@[i] is Utf8Bytes,
{
    let mut out: Vec<EncodedBytes<'a>> = Vec::new();
    let mut rest: &'a str = s;
    loop
        invariant
            forall|k: int| 0 <= k < out@.len() ==> (#[trigger] out@[k]) is Utf8Bytes,
            split_bytes_on(s.spec_bytes(), 44) == Seq::new(
                out@.len(),
                |k: int| seg_bytes(out@[k]),
            ) + split_bytes_on(rest.spec_bytes(), 44),
        decreases rest.spec_bytes().len(),
    {
        let ghost done = Seq::new(out@.len(), |k: int| seg_bytes(out@[k]));
        let b = rest.as_bytes();
        match find_byte(b, 44) {
            None => {
                proof {
                    lemma_first_byte_index(rest.spec_bytes(), 44);
                    assert(split_bytes_on(rest.spec_bytes(), 44) =~= seq![rest.spec_bytes()]);
                }
                out.push(EncodedBytes::Utf8Bytes(rest));
                proof {
                    assert(Seq::new(out@.len(), |k: int| seg_bytes(out@[k])) =~= done.push(
                        rest.spec_bytes(),
                    ));
                    assert(done + seq![rest.spec_bytes()] =~= done.push(rest.spec_bytes()));
                    assert(split_bytes_on(s.spec_bytes(), 44) =~= Seq::new(
                        out@.len(),
                        |k: int| seg_bytes(out@[k]),
                    ));
                }
                return out;
            },
            Some(p) => {
                let ghost rb = rest.spec_bytes();
                proof {
                    lemma_first_byte_index(rb, 44);
                    encode_utf8_valid_utf8(rest@);
                    assert(valid_utf8(rb));
                    is_char_boundary_iff_not_is_continuation_byte(rb, p as int);
                    assert(!is_continuation_byte(44));
                    assert(is_char_boundary(rb, p as int));
                }
                let (seg, with_comma) = rest.split_at(p);
                proof {
                    let wb = with_comma.spec_bytes();
                    assert(wb =~= rb.subrange(p as int, rb.len() as int));
                    assert(wb[0] == 44);
                    encode_utf8_valid_utf8(with_comma@);
                    assert(valid_utf8(wb));
                    if wb.len() > 1 {
                        is_char_boundary_iff_not_is_continuation_byte(wb, 1);
                        assert(length_of_first_scalar(wb) == 1);
                        assert(valid_utf8(pop_first_scalar(wb)));
                        assert(pop_first_scalar(wb).len() > 0);
                        assert(!is_continuation_byte(pop_first_scalar(wb)[0])) by {
                            assert(valid_utf8(pop_first_scalar(wb)));
                        }
                        assert(pop_first_scalar(wb)[0] == wb[1]);
                        assert(is_char_boundary(wb, 1));
                    } else {
                        is_char_boundary_start_end_of_seq(wb);
                        assert(is_char_boundary(wb, 1));
                    }
                }
                let (_comma, tail) = with_comma.split_at(1);
                proof {
                    assert(tail.spec_bytes() =~= rb.skip(p + 1));
                    assert(seg.spec_bytes() =~= rb.take(p as int));
                    assert(split_bytes_on(rb, 44) == seq![rb.take(p as int)] + split_bytes_on(
                        rb.skip(p + 1),
                        44,
                    ));
                }
                out.push(EncodedBytes::Utf8Bytes(seg));
                rest = tail;
                proof {
                    assert(Seq::new(out@.len(), |k: int| seg_bytes(out@[k])) =~= done.push(
                        rb.take(p as int),
                    ));
                    assert(split_bytes_on(s.spec_bytes(), 44) =~= Seq::new(
                        out@.len(),
                        |k: int| seg_bytes(out@[k]),
                    ) + split_bytes_on(rest.spec_bytes(), 44));
                }
            },
        }
    }
}

/// The characters of a UTF-8 string paired with their byte positions:
/// character k starts after the encoding of the first k characters.
pub open spec fn utf8_char_indices(chars: Seq<char>) -> Seq<(usize, char)> {
    Seq::new(chars.len(), |k: int| (encode_utf8(chars.take(k)).len() as usize, chars[k]))
}

/// Encoding one more character appends that character's encoding.
proof fn lemma_encode_utf8_take_succ(chars: Seq<char>, k: int)
    requires
        0 <= k < chars.len(),
    ensures
        encode_utf8(chars.take(k + 1)) == encode_utf8(chars.take(k)) + encode_scalar(
            chars[k] as u32,
        ),
    decreases k,
{
    if k == 0 {
        let t1 = chars.take(1);
        assert(t1.len() == 1);
        assert(t1[0] == chars[0]);
        assert(t1.drop_first() =~= Seq::<char>::empty());
        assert(encode_utf8(t1) == encode_scalar(chars[0] as u32) + encode_utf8(
            Seq::<char>::empty(),
        ));
        assert(chars.take(0) =~= Seq::<char>::empty());
        assert(encode_utf8(chars.take(0)) + encode_scalar(chars[0] as u32) =~= encode_scalar(
            chars[0] as u32,
        ) + encode_utf8(Seq::<char>::empty()));
    } else {
        let d = chars.drop_first();
        lemma_encode_utf8_take_succ(d, k - 1);
        assert(chars.take(k + 1).drop_first() =~= d.take(k));
        assert(chars.take(k).drop_first() =~= d.take(k - 1));
        assert(chars.take(k + 1)[0] == chars[0]);
        assert(chars.take(k)[0] == chars[0]);
        assert(d[k - 1] == chars[k]);
        assert(encode_utf8(chars.take(k + 1)) == encode_scalar(chars[0] as u32) + encode_utf8(
            d.take(k),
        ));
        assert(encode_utf8(chars.take(k)) == encode_scalar(chars[0] as u32) + encode_utf8(
            d.take(k - 1),
        ));
        assert(encode_scalar(chars[0] as u32) + (encode_utf8(d.take(k - 1)) + encode_scalar(
            d[k - 1] as u32,
        )) =~= (encode_scalar(chars[0] as u32) + encode_utf8(d.take(k - 1))) + encode_scalar(
            d[k - 1] as u32,
        ));
    }
}

/// The encoding of a string splits at any character count.
proof fn lemma_encode_utf8_split_at(chars: Seq<char>, k: int)
    requires
        0 <= k <= chars.len(),
    ensures
        encode_utf8(chars) == encode_utf8(chars.take(k)) + encode_utf8(chars.skip(k)),
    decreases k,
{
    if k == 0 {
        assert(chars.take(0) =~= Seq::<char>::empty());
        assert(chars.skip(0) =~= chars);
        assert(encode_utf8(chars) =~= Seq::<u8>::empty() + encode_utf8(chars));
    } else {
        let d = chars.drop_first();
        lemma_encode_utf8_split_at(d, k - 1);
        assert(chars.take(k).drop_first() =~= d.take(k - 1));
        assert(chars.take(k)[0] == chars[0]);
        assert(chars.skip(k) =~= d.skip(k - 1));
        assert(encode_utf8(chars) == encode_scalar(chars[0] as u32) + encode_utf8(d));
        assert(encode_utf8(chars.take(k)) == encode_scalar(chars[0] as u32) + encode_utf8(
            d.take(k - 1),
        ));
        assert(encode_scalar(chars[0] as u32) + (encode_utf8(d.take(k - 1)) + encode_utf8(
            d.skip(k - 1),
        )) =~= (encode_scalar(chars[0] as u32) + encode_utf8(d.take(k - 1))) + encode_utf8(
            d.skip(k - 1),
        ));
    }
}

/// The byte width of one character's UTF-8 encoding.
fn utf8_width_of(c: char) -> (w: usize)
    ensures
        w == encode_scalar(c as u32).len(),
{
    proof {
        char_is_scalar(c);
    }
    let u: u32 = c as u32;
    if u < 0x80 {
        1
    } else if u < 0x800 {
        2
    } else if u < 0x10000 {
        3
    } else {
        4
    }
}

/// Walks a UTF-8 string, pairing each character with its byte position.
fn char_indices_utf8(s: &str) -> (r: Vec<(usize, char)>)
    ensures
        r@ == utf8_char_indices(s@),
{
    let b = s.as_bytes();
    let total = b.len();
    let mut out: Vec<(usize, char)> = Vec::new();
    let mut pos: usize = 0;
    let mut it = s.chars();
    proof {
        assert(it.remaining() =~= s@.skip(0));
        assert(out@ =~= utf8_char_indices(s@).take(0));
        assert(s@.take(0) =~= Seq::<char>::empty());
    }
    loop
        invariant
            it.obeys_prophetic_iter_laws(),
            0 <= out@.len() <= s@.len(),
            it.remaining() == s@.skip(out@.len() as int),
            pos == encode_utf8(s@.take(out@.len() as int)).len(),
            out@ == utf8_char_indices(s@).take(out@.len() as int),
            total == encode_utf8(s@).len(),
        decreases s@.len() - out@.len(),
    {
        let ghost k = out@.len() as int;
        match it.next() {
            None => {
                proof {
                    assert(s@.skip(k).len() == 0);
                    assert(out@ =~= utf8_char_indices(s@));
                }
                return out;
            },
            Some(c) => {
                proof {
                    assert(c == s@.skip(k)[0]);
                    assert(s@.skip(k)[0] == s@[k]);
                    assert(it.remaining() =~= s@.skip(k + 1));
                    lemma_encode_utf8_take_succ(s@, k);
                    lemma_encode_utf8_split_at(s@, k + 1);
                }
                out.push((pos, c));
                let w = utf8_width_of(c);
                proof {
                    assert(pos + w == encode_utf8(s@.take(k + 1)).len());
                    assert(pos + w <= total);
                    assert(out@ =~= utf8_char_indices(s@).take(k + 1));
                }
                pos = pos + w;
            },
        }
    }
}

/// Walks a Latin-1 byte slice, pairing each byte position with its
/// character.
fn char_indices_latin1(s: &[u8]) -> (r: Vec<(usize, char)>)
    requires
        forall|i: int| 0 <= i < s@.len() ==> s@[i] <= 127,
    ensures
        r@.len() == s@.len(),
        forall|i: int| 0 <= i < s@.len() ==> #[trigger] r@[i] == (i as usize, s@[i] as char),
{
    let n = s.len();
    let mut out: Vec<(usize, char)> = Vec::new();
    let mut i: usize = 0;
    while i < n
        invariant
            n == s@.len(),
            0 <= i <= n,
            out@.len() == i,
            forall|j: int| 0 <= j < s@.len() ==> s@[j] <= 127,
            forall|j: int| 0 <= j < i ==> #[trigger] out@[j] == (j as usize, s@[j] as char),
        decreases n - i,
    {
        let byte = *slice_index_get(s, i);
        out.push((i, latin1_u8_to_char(byte)));
        i += 1;
    }
    out
}

/// Compares two byte slices for equality.
fn bytes_equal(a: &[u8], b: &[u8]) -> (r: bool)
    ensures
        r == (a@ == b@),
{
    let n = a.len();
    if n != b.len() {
        return false;
    }
    let mut i: usize = 0;
    while i < n
        invariant
            n == a@.len(),
            n == b@.len(),
            0 <= i <= n,
            forall|j: int| 0 <= j < i ==> a@[j] == b@[j],
        decreases n - i,
    {
        if *slice_index_get(a, i) != *slice_index_get(b, i) {
            return false;
        }
        i += 1;
    }
    proof {
        assert(a@ =~= b@);
    }
    true
}

impl<'a> EncodedBytes<'a> {
    /// Splits at every comma, handing out borrowed segments in the same
    /// encoding.  The commas themselves are dropped; n commas yield
    /// n + 1 segments, counting empty ones.
    pub fn split_commas(self) -> (r: Vec<EncodedBytes<'a>>)
        ensures
            r@.len() == split_bytes_on(seg_bytes(self), 44).len(),
            forall|i: int|
                0 <= i < r@.len() ==> seg_bytes(#[trigger] r@[i]) == split_bytes_on(
                    seg_bytes(self),
                    44,
                )[i],
            forall|i: int|
                0 <= i < r@.len() ==> ((#[trigger] r@[i]) is Latin1Bytes <==> self is Latin1Bytes),
    {
        match self {
            EncodedBytes::Latin1Bytes(s) => split_commas_latin1(s),
            EncodedBytes::Utf8Bytes(s) => split_commas_utf8(s),
        }
    }

    /// Whether the held bytes spell the given string: byte for byte
    /// against the string's UTF-8 encoding.  For a Latin-1 value that
    /// means equality as ASCII — a byte above 127 is encoded differently
    /// in UTF-8 and never matches.
    pub fn eq_str(&self, other: &str) -> (r: bool)
        ensures
            r == (seg_bytes(*self) == other.spec_bytes()),
    {
        match self {
            EncodedBytes::Latin1Bytes(b) => bytes_equal(b, other.as_bytes()),
            EncodedBytes::Utf8Bytes(s) => bytes_equal(s.as_bytes(), other.as_bytes()),
        }
    }

    /// The characters with their positions: byte positions within the
    /// UTF-8 encoding, or plain indices within a Latin-1 slice.  A
    /// Latin-1 slice must hold ASCII bytes; a wider byte has no single
    /// ASCII character to pair with.
    pub fn char_indices(self) -> (r: Vec<(usize, char)>)
        requires
            self matches EncodedBytes::Latin1Bytes(b) ==> forall|i: int|
                0 <= i < b@.len() ==> b@[i] <= 127,
        ensures
            match self {
                EncodedBytes::Latin1Bytes(b) => r@.len() == b@.len() && forall|i: int|
                    0 <= i < b@.len() ==> #[trigger] r@[i] == (i as usize, b@[i] as char),
                EncodedBytes::Utf8Bytes(s) => r@ == utf8_char_indices(s@),
            },
    {
        match self {
            EncodedBytes::Latin1Bytes(b) => char_indices_latin1(b),
            EncodedBytes::Utf8Bytes(s) => char_indices_utf8(s),
        }
    }
}

} // verus!
