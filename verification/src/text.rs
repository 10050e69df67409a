//! Small text utilities shared by the library: building strings and
//! rendering numbers as lower-case hexadecimal.

use vstd::prelude::*;
use vstd::string::*;
use vstd::utf8::{decode_utf8, valid_utf8};

verus! {

/// Appends one character to a `String` (std's `String::push`).
///
/// Trusted: claims that the new contents are the old contents followed by `c`,
/// which is what std documents for `String::push`.
#[verifier::external_body]
pub(crate) fn push_char(s: &mut String, c: char)
    ensures
        final(s)@ == old(s)@.push(c),
{
    s.push(c);
}

/// The lower-case hexadecimal digit for `v`, for `v < 16`.
pub open spec fn hex_char(v: nat) -> char {
    if v < 10 {
        ((v + 48) as u8) as char
    } else {
        ((v + 87) as u8) as char
    }
}

/// `v` written in lower-case hexadecimal without leading zeros (`{:x}`).
pub open spec fn hex_lower(v: nat) -> Seq<char>
    decreases v,
{
    if v < 16 {
        seq![hex_char(v)]
    } else {
        hex_lower(v / 16).push(hex_char(v % 16))
    }
}

/// `n` copies of the character `'0'`.
pub open spec fn zeros(n: nat) -> Seq<char> {
    Seq::new(n, |i: int| '0')
}

/// `v` in lower-case hexadecimal, left-padded with zeros to `width` digits (`{:0width$x}`).
pub open spec fn hex_lower_padded(v: nat, width: nat) -> Seq<char> {
    let d = hex_lower(v);
    if d.len() < width {
        zeros((width - d.len()) as nat) + d
    } else {
        d
    }
}

fn hex_digit(v: u64) -> (c: char)
    requires
        v < 16,
    ensures
        c == hex_char(v as nat),
{
    if v < 10 {
        ((v as u8) + 48) as char
    } else {
        ((v as u8) + 87) as char
    }
}

/// Appends `v` in lower-case hexadecimal (as `format!("{:x}", v)` renders it).
pub fn push_hex(s: &mut String, v: u64)
    ensures
        final(s)@ == old(s)@ + hex_lower(v as nat),
    decreases v,
{
    if v >= 16 {
        push_hex(s, v / 16);
    }
    push_char(s, hex_digit(v % 16));
    proof {
        if v < 16 {
            assert(hex_lower(v as nat) == seq![hex_char(v as nat)]);
        }
    }
}

/// The number of lower-case hexadecimal digits of `v`.
fn hex_len(v: u64) -> (n: usize)
    ensures
        n == hex_lower(v as nat).len(),
        1 <= n <= 16,
    decreases v,
{
    if v < 16 {
        1
    } else {
        proof {
            lemma_hex_lower_len_bound(v as nat);
        }
        hex_len(v / 16) + 1
    }
}

/// `16` raised to the power `k`.
spec fn pow16(k: nat) -> nat
    decreases k,
{
    if k == 0 {
        1
    } else {
        16 * pow16((k - 1) as nat)
    }
}

proof fn lemma_hex_lower_len_le(v: nat, k: nat)
    requires
        k >= 1,
        v < pow16(k),
    ensures
        hex_lower(v).len() <= k,
    decreases v,
{
    if v >= 16 {
        let p = pow16((k - 1) as nat);
        assert(k >= 2) by {
            if k == 1 {
                assert(pow16(0) == 1);
            }
        }
        assert(v / 16 < p) by (nonlinear_arith)
            requires
                v < 16 * p,
        ;
        lemma_hex_lower_len_le(v / 16, (k - 1) as nat);
    }
}

proof fn lemma_hex_lower_len_bound(v: nat)
    requires
        v <= u64::MAX,
    ensures
        1 <= hex_lower(v).len() <= 16,
        v >= 16 ==> hex_lower(v).len() == hex_lower(v / 16).len() + 1,
{
    assert(pow16(16) == 0x1_0000_0000_0000_0000) by {
        reveal_with_fuel(pow16, 17);
    }
    lemma_hex_lower_len_le(v, 16);
}

/// Appends `v` in lower-case hexadecimal, left-padded with zeros to `width`
/// digits (as `format!("{:0width$x}", v)` renders it).
pub fn push_hex_padded(s: &mut String, v: u64, width: usize)
    ensures
        final(s)@ == old(s)@ + hex_lower_padded(v as nat, width as nat),
{
    let n = hex_len(v);
    if n < width {
        let mut i: usize = 0;
        while i < width - n
            invariant
                n < width,
                i <= width - n,
                s@ == old(s)@ + zeros(i as nat),
            decreases width - n - i,
        {
            push_char(s, '0');
            i = i + 1;
            assert(s@ =~= old(s)@ + zeros(i as nat));
        }
    }
    push_hex(s, v);
    assert(s@ =~= old(s)@ + hex_lower_padded(v as nat, width as nat));
}


// ---------------------------------------------------------------------------
// Trimming
// ---------------------------------------------------------------------------

/// Unicode `White_Space`, the characters that `char::is_whitespace` accepts.
pub open spec fn is_white_space(c: char) -> bool {
    ('\u{9}' <= c <= '\u{d}') || c == ' ' || c == '\u{85}' || c == '\u{a0}' || c == '\u{1680}'
        || ('\u{2000}' <= c <= '\u{200a}') || c == '\u{2028}' || c == '\u{2029}' || c == '\u{202f}'
        || c == '\u{205f}' || c == '\u{3000}'
}

fn is_white_space_exec(c: char) -> (r: bool)
    ensures
        r == is_white_space(c),
{
    ('\u{9}' <= c && c <= '\u{d}') || c == ' ' || c == '\u{85}' || c == '\u{a0}' || c
        == '\u{1680}' || ('\u{2000}' <= c && c <= '\u{200a}') || c == '\u{2028}' || c
        == '\u{2029}' || c == '\u{202f}' || c == '\u{205f}' || c == '\u{3000}'
}

/// `s` without its leading white space.
pub open spec fn trim_start(s: Seq<char>) -> Seq<char>
    decreases s.len(),
{
    if s.len() > 0 && is_white_space(s[0]) {
        trim_start(s.drop_first())
    } else {
        s
    }
}

/// `s` without its trailing white space.
pub open spec fn trim_end(s: Seq<char>) -> Seq<char>
    decreases s.len(),
{
    if s.len() > 0 && is_white_space(s.last()) {
        trim_end(s.drop_last())
    } else {
        s
    }
}

/// `s` without leading and trailing white space (`str::trim`).
pub open spec fn trim(s: Seq<char>) -> Seq<char> {
    trim_end(trim_start(s))
}

proof fn lemma_trim_start_skip(s: Seq<char>, i: int)
    requires
        0 <= i <= s.len(),
        forall|k: int| 0 <= k < i ==> is_white_space(#[trigger] s[k]),
    ensures
        trim_start(s) == trim_start(s.subrange(i, s.len() as int)),
    decreases i,
{
    if i > 0 {
        let t = s.drop_first();
        assert forall|k: int| 0 <= k < i - 1 implies is_white_space(#[trigger] t[k]) by {
            assert(t[k] == s[k + 1]);
        }
        lemma_trim_start_skip(t, i - 1);
        assert(t.subrange(i - 1, t.len() as int) =~= s.subrange(i, s.len() as int));
    } else {
        assert(s.subrange(0, s.len() as int) =~= s);
    }
}

proof fn lemma_trim_end_skip(s: Seq<char>, j: int)
    requires
        0 <= j <= s.len(),
        forall|k: int| j <= k < s.len() ==> is_white_space(#[trigger] s[k]),
    ensures
        trim_end(s) == trim_end(s.subrange(0, j)),
    decreases s.len() - j,
{
    if j < s.len() {
        let t = s.drop_last();
        assert forall|k: int| j <= k < t.len() implies is_white_space(#[trigger] t[k]) by {
            assert(t[k] == s[k]);
        }
        lemma_trim_end_skip(t, j);
        assert(t.subrange(0, j) =~= s.subrange(0, j));
    } else {
        assert(s.subrange(0, j) =~= s);
    }
}

/// `s` with leading and trailing white space removed.
pub fn trim_string(s: &str) -> (res: String)
    ensures
        res@ == trim(s@),
{
    let n = s.unicode_len();
    let mut a: usize = 0;
    while a < n && is_white_space_exec(s.get_char(a))
        invariant
            n == s@.len(),
            a <= n,
            forall|k: int| 0 <= k < a ==> is_white_space(#[trigger] s@[k]),
        decreases n - a,
    {
        a = a + 1;
    }
    proof {
        lemma_trim_start_skip(s@, a as int);
    }
    let ghost rest = s@.subrange(a as int, n as int);
    assert(a == n || !is_white_space(rest[0]));
    assert(trim_start(rest) == rest);
    let mut b: usize = n;
    while b > a && is_white_space_exec(s.get_char(b - 1))
        invariant
            n == s@.len(),
            a <= b <= n,
            rest == s@.subrange(a as int, n as int),
            forall|k: int| b - a <= k < rest.len() ==> is_white_space(#[trigger] rest[k]),
        decreases b,
    {
        b = b - 1;
        assert(rest[b - a] == s@[b as int]);
    }
    proof {
        lemma_trim_end_skip(rest, b - a);
        let kept = rest.subrange(0, b - a);
        assert(kept =~= s@.subrange(a as int, b as int));
        assert(b == a || !is_white_space(kept.last()));
        assert(trim_end(kept) == kept);
    }
    s.substring_char(a, b).to_owned()
}

// ---------------------------------------------------------------------------
// Decoding bytes
// ---------------------------------------------------------------------------

/// What `String::from_utf8_lossy` makes of the bytes `b`.
pub uninterp spec fn utf8_lossy(b: Seq<u8>) -> Seq<char>;

/// Decode bytes as UTF-8, replacing invalid sequences (std's `String::from_utf8_lossy`).
///
/// Trusted: claims the result is a function of the bytes alone, and that
/// valid UTF-8 comes back decoded as it is, as std documents. How invalid
/// sequences are replaced is not stated.
#[verifier::external_body]
pub(crate) fn from_utf8_lossy(b: &[u8]) -> (res: String)
    ensures
        res@ == utf8_lossy(b@),
        valid_utf8(b@) ==> res@ == decode_utf8(b@),
{
    String::from_utf8_lossy(b).into_owned()
}

// ---------------------------------------------------------------------------
// Joining
// ---------------------------------------------------------------------------

/// The strings `parts` with `sep` between each two.
pub open spec fn join(parts: Seq<Seq<char>>, sep: Seq<char>) -> Seq<char>
    decreases parts.len(),
{
    if parts.len() == 0 {
        Seq::empty()
    } else if parts.len() == 1 {
        parts[0]
    } else {
        join(parts.drop_last(), sep) + sep + parts.last()
    }
}

} // verus!
