//! Text conversions for the Windows helper: ANSI and UTF-16 buffers.

use vstd::prelude::*;
use vstd::slice::slice_subrange;

use crate::text::push_char;

verus! {

/// The characters of an ANSI buffer: each byte read as the code point of the
/// same value.
pub open spec fn latin1_chars(chars: Seq<i8>) -> Seq<char> {
    Seq::new(chars.len(), |i: int| ((chars[i] as u8) as u32) as char)
}

/// The characters of an ANSI buffer are exactly its bytes, one for one: as
/// many characters as bytes, character `k` being byte `k` read as the code
/// point of the same value (the bytes' order kept, none dropped or added).
pub proof fn lemma_latin1_one_char_per_byte(chars: Seq<i8>)
    ensures
        latin1_chars(chars).len() == chars.len(),
        forall|k: int|
            0 <= k < chars.len() ==> #[trigger] latin1_chars(chars)[k] as int == (chars[k] as u8)
                as int,
{
    assert forall|k: int| 0 <= k < chars.len() implies #[trigger] latin1_chars(chars)[k] as int == (
    chars[k] as u8) as int by {
        let b = chars[k] as u8;
        let c = (b as u32) as char;
        assert(c as int == b as int) by {
            lemma_small_u32_to_char(b as u32);
        }
    }
}

proof fn lemma_small_u32_to_char(u: u32)
    requires
        u < 256,
    ensures
        (u as char) as int == u as int,
{
}

/// Convert an ANSI buffer to a string, byte by byte.
pub fn char_to_string(chars: &[i8]) -> (res: String)
    ensures
        res@ == latin1_chars(chars@),
        res@.len() == chars@.len(),
        forall|k: int| 0 <= k < chars@.len() ==> #[trigger] res@[k] as int == (chars@[k] as u8) as int,
{
    proof {
        lemma_latin1_one_char_per_byte(chars@);
    }
    let mut s = String::new();
    for i in 0..chars.len()
        invariant
            i <= chars@.len(),
            s@ =~= latin1_chars(chars@).take(i as int),
    {
        let b = chars[i] as u8;
        push_char(&mut s, b as char);
        assert(s@ =~= latin1_chars(chars@).take(i + 1));
    }
    assert(latin1_chars(chars@).take(chars.len() as int) =~= latin1_chars(chars@));
    s
}

/// The string value read from the registry: the `size` bytes that the query
/// reported, without the terminating NUL.
pub fn registry_string(buf: &[i8], size: u32) -> (res: String)
    requires
        1 <= size <= buf@.len() + 1,
    ensures
        res@ == latin1_chars(buf@.take(size - 1)),
        res@.len() == size - 1,
        forall|k: int| 0 <= k < size - 1 ==> #[trigger] res@[k] as int == (buf@[k] as u8) as int,
{
    let n = (size - 1) as usize;
    let value = slice_subrange(buf, 0, n);
    assert(value@ =~= buf@.take(n as int));
    char_to_string(value)
}

/// The UTF-16 code units of one character.
pub open spec fn utf16_units(c: char) -> Seq<u16> {
    let v = c as int;
    if v < 0x1_0000 {
        seq![v as u16]
    } else {
        seq![(0xD800 + (v - 0x1_0000) / 0x400) as u16, (0xDC00 + (v - 0x1_0000) % 0x400) as u16]
    }
}

/// The UTF-16 encoding of a string.
pub open spec fn utf16_encode(s: Seq<char>) -> Seq<u16>
    decreases s.len(),
{
    if s.len() == 0 {
        Seq::empty()
    } else {
        utf16_encode(s.drop_last()) + utf16_units(s.last())
    }
}

/// The string as NUL-terminated UTF-16, as Windows wide-string APIs take it.
pub fn wide_string(s: &str) -> (res: Vec<u16>)
    ensures
        res@ == utf16_encode(s@).push(0),
{
    let n = s.unicode_len();
    let mut out: Vec<u16> = Vec::new();
    for i in 0..n
        invariant
            n == s@.len(),
            out@ == utf16_encode(s@.take(i as int)),
    {
        let c = s.get_char(i);
        let v = c as u32;
        assert(s@.take(i + 1).drop_last() =~= s@.take(i as int));
        if v < 0x1_0000 {
            out.push(v as u16);
        } else {
            let w = v - 0x1_0000;
            assert(w <= 0x10_0000) by {
                assert(v <= 0x10FFFF);
            }
            out.push((0xD800 + w / 0x400) as u16);
            out.push((0xDC00 + w % 0x400) as u16);
        }
        assert(out@ =~= utf16_encode(s@.take(i + 1)));
    }
    assert(s@.take(n as int) =~= s@);
    out.push(0);
    out
}

/// What `String::from_utf16_lossy` makes of the code units `u`.
pub uninterp spec fn utf16_lossy(u: Seq<u16>) -> Seq<char>;

/// Decode UTF-16, replacing unpaired surrogates (std's `String::from_utf16_lossy`).
///
/// Trusted: claims that the result is a function of the code units, and that
/// code units which are the UTF-16 encoding of a string decode to that string,
/// as std documents. How unpaired surrogates are replaced is not stated.
#[verifier::external_body]
fn from_utf16_lossy(u: &[u16]) -> (res: String)
    ensures
        res@ == utf16_lossy(u@),
        forall|s: Seq<char>| #[trigger] utf16_encode(s) == u@ ==> res@ == s,
{
    String::from_utf16_lossy(u)
}

/// Decode UTF-16 strictly (std's `String::from_utf16`).
///
/// Trusted: claims the call succeeds exactly when the code units are the
/// UTF-16 encoding of some string, and then returns that string, as std
/// documents ("returning Err if v contains any invalid data").
#[verifier::external_body]
fn from_utf16(u: &[u16]) -> (res: Option<String>)
    ensures
        res is Some <==> exists|s: Seq<char>| #[trigger] utf16_encode(s) == u@,
        res matches Some(t) ==> utf16_encode(t@) == u@,
{
    match String::from_utf16(u) {
        Ok(s) => Some(s),
        Err(_) => None,
    }
}

/// Decode UTF-16 code units: the string they encode, or `None` when they hold
/// an unpaired surrogate.
pub fn decode_utf16(units: &[u16]) -> (res: Option<String>)
    ensures
        res is Some <==> exists|s: Seq<char>| #[trigger] utf16_encode(s) == units@,
        res matches Some(t) ==> utf16_encode(t@) == units@,
{
    from_utf16(units)
}

/// The length of the text in a wide-character buffer: up to its first NUL,
/// or the whole buffer when it has none.
pub open spec fn wide_len(u: Seq<u16>) -> int {
    if exists|i: int| 0 <= i < u.len() && u[i] == 0 {
        choose|i: int| 0 <= i < u.len() && u[i] == 0 && forall|j: int| 0 <= j < i ==> u[j] != 0
    } else {
        u.len() as int
    }
}

/// Convert a NUL-terminated wide-character buffer to a string.
pub fn wchar_to_string(slice: &[u16]) -> (res: String)
    ensures
        res@ == utf16_lossy(slice@.take(wide_len(slice@))),
        forall|s: Seq<char>| #[trigger] utf16_encode(s) == slice@.take(wide_len(slice@)) ==> res@ == s,
        forall|s: Seq<char>|
            !s.contains('\0') && slice@ == #[trigger] utf16_encode(s).push(0) ==> res@ == s,
{
    let n = slice.len();
    let mut pos: usize = 0;
    while pos < n && slice[pos] != 0
        invariant
            n == slice@.len(),
            pos <= n,
            forall|j: int| 0 <= j < pos ==> slice@[j] != 0,
        decreases n - pos,
    {
        pos = pos + 1;
    }
    proof {
        if pos < n {
            assert(slice@[pos as int] == 0);
            let i = choose|i: int|
                0 <= i < slice@.len() && slice@[i] == 0 && forall|j: int| 0 <= j < i ==> slice@[j]
                    != 0;
            assert(i == pos) by {
                if i < pos {
                    assert(slice@[i] != 0);
                } else if i > pos {
                    assert(slice@[pos as int] != 0);
                }
            }
        }
    }
    let text = slice_subrange(slice, 0, pos);
    assert(text@ =~= slice@.take(pos as int));
    let res = from_utf16_lossy(text);
    assert forall|s: Seq<char>|
        !s.contains('\0') && slice@ == #[trigger] utf16_encode(s).push(0) implies res@ == s by {
        lemma_utf16_encode_no_nul(s);
        let e = utf16_encode(s);
        assert(slice@[e.len() as int] == 0);
        if pos < e.len() {
            assert(slice@[pos as int] == e[pos as int]);
        }
        assert(pos == e.len());
        assert(text@ =~= e);
    }
    res
}

/// A character other than NUL has no zero UTF-16 code unit.
proof fn lemma_utf16_units_nonzero(c: char)
    requires
        c != '\0',
    ensures
        forall|j: int| 0 <= j < utf16_units(c).len() ==> #[trigger] utf16_units(c)[j] != 0,
{
    let v = c as int;
    let u = utf16_units(c);
    assert(v != 0) by {
        if v == 0 {
            assert(c == '\0');
        }
    }
    assert forall|j: int| 0 <= j < u.len() implies #[trigger] u[j] != 0 by {
        if v < 0x1_0000 {
            assert(u[0] == v);
        } else {
            assert(0 <= (v - 0x1_0000) / 0x400 < 0x400);
            assert(u[0] == 0xD800 + (v - 0x1_0000) / 0x400);
            assert(u[1] == 0xDC00 + (v - 0x1_0000) % 0x400);
        }
    }
}

/// A string without NUL characters encodes to UTF-16 without zero units.
proof fn lemma_utf16_encode_no_nul(s: Seq<char>)
    requires
        !s.contains('\0'),
    ensures
        forall|i: int| 0 <= i < utf16_encode(s).len() ==> #[trigger] utf16_encode(s)[i] != 0,
    decreases s.len(),
{
    if s.len() > 0 {
        let front = s.drop_last();
        assert(!front.contains('\0')) by {
            if front.contains('\0') {
                let k = choose|k: int| 0 <= k < front.len() && front[k] == '\0';
                assert(s[k] == '\0');
            }
        }
        lemma_utf16_encode_no_nul(front);
        assert(s[s.len() - 1] != '\0');
        lemma_utf16_units_nonzero(s.last());
        let e = utf16_encode(s);
        assert forall|i: int| 0 <= i < e.len() implies #[trigger] e[i] != 0 by {
            if i < utf16_encode(front).len() {
                assert(e[i] == utf16_encode(front)[i]);
            } else {
                assert(e[i] == utf16_units(s.last())[i - utf16_encode(front).len()]);
            }
        }
    }
}

} // verus!
