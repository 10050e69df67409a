//! Version-specific patch configurations and the parsing of their hex fields.

use vstd::prelude::*;
use vstd::utf8::{
    encode_utf8, is_char_boundary, is_char_boundary_iff_not_is_continuation_byte,
    is_char_boundary_start_end_of_seq, is_leading_byte_width_1, partial_valid_utf8,
    partial_valid_utf8_extend_ascii_block, valid_utf8,
};
use vstd::string::*;

verus! {

/// The default configurations, as JSON: those for WeChat 31927 (its revoke
/// entry) and 34371.
pub const DEFAULT_CONFIG_JSON: &'static str = "[{\"version\":\"31927\",\"targets\":[{\"identifier\":\"revoke\",\"entries\":[{\"arch\":\"arm64\",\"addr\":\"103dba3d0\",\"asm\":\"00008052C0035FD6\"}]}]},{\"version\":\"34371\",\"targets\":[{\"identifier\":\"multiInstance\",\"entries\":[{\"arch\":\"arm64\",\"addr\":\"1001b82c4\",\"asm\":\"20008052C0035FD6\"}]},{\"identifier\":\"revoke\",\"entries\":[{\"arch\":\"arm64\",\"addr\":\"103e7cd2c\",\"asm\":\"00008052C0035FD6\"}]}]}]";

/// A version-specific patch configuration.
#[derive(Debug, Clone)]
pub struct PatchConfig {
    pub version: String,
    pub targets: Vec<Target>,
}

/// A patch target (e.g. "revoke", "multiInstance").
#[derive(Debug, Clone)]
pub struct Target {
    pub identifier: String,
    pub entries: Vec<Entry>,
}

/// A single patch entry for a specific architecture.
#[derive(Debug, Clone)]
pub struct Entry {
    pub arch: String,
    /// Virtual address as hex string (e.g. "103dba3d0")
    pub addr: String,
    /// Machine code as hex string (e.g. "00008052C0035FD6")
    pub asm_hex: String,
}

/// The mathematical value of an [`Entry`].
pub struct EntryView {
    pub arch: Seq<char>,
    pub addr: Seq<char>,
    pub asm_hex: Seq<char>,
}

/// The mathematical value of a [`Target`].
pub struct TargetView {
    pub identifier: Seq<char>,
    pub entries: Seq<EntryView>,
}

/// The mathematical value of a [`PatchConfig`].
pub struct PatchConfigView {
    pub version: Seq<char>,
    pub targets: Seq<TargetView>,
}

impl DeepView for Entry {
    type V = EntryView;

    open spec fn deep_view(&self) -> EntryView {
        EntryView { arch: self.arch@, addr: self.addr@, asm_hex: self.asm_hex@ }
    }
}

impl DeepView for Target {
    type V = TargetView;

    open spec fn deep_view(&self) -> TargetView {
        TargetView { identifier: self.identifier@, entries: self.entries.deep_view() }
    }
}

impl DeepView for PatchConfig {
    type V = PatchConfigView;

    open spec fn deep_view(&self) -> PatchConfigView {
        PatchConfigView { version: self.version@, targets: self.targets.deep_view() }
    }
}

// ---------------------------------------------------------------------------
// Hex digits
// ---------------------------------------------------------------------------

/// The value of an ASCII hex digit byte (`0-9`, `a-f`, `A-F`).
pub open spec fn hex_digit_value(b: u8) -> Option<u8> {
    if 48 <= b <= 57 {
        Some((b - 48) as u8)
    } else if 97 <= b <= 102 {
        Some((b - 87) as u8)
    } else if 65 <= b <= 70 {
        Some((b - 55) as u8)
    } else {
        None
    }
}

/// The value of a two-byte hex string parsed as a `u8` in radix 16: two hex
/// digits, or a `+` sign followed by one hex digit.
pub open spec fn hex_pair_value(b0: u8, b1: u8) -> Option<u8> {
    match (hex_digit_value(b0), hex_digit_value(b1)) {
        (Some(h), Some(l)) => Some((16 * h + l) as u8),
        (None, Some(l)) => if b0 == 43 { Some(l) } else { None },
        _ => None,
    }
}

/// Whether every byte pair before pair `k` of `b` decodes.
pub open spec fn hex_pairs_ok_before(b: Seq<u8>, k: int) -> bool {
    forall|j: int| 0 <= j < k ==> (#[trigger] hex_pair_value(b[2 * j], b[2 * j + 1])) is Some
}

/// The bytes that a hex string (given by its UTF-8 bytes `b`) denotes:
/// `None` when its length is odd or some pair of bytes is not a hex byte.
pub open spec fn spec_hex_to_bytes(b: Seq<u8>) -> Option<Seq<u8>> {
    if b.len() % 2 != 0 {
        None
    } else if hex_pairs_ok_before(b, (b.len() / 2) as int) {
        Some(Seq::new(b.len() / 2, |k: int| hex_pair_value(b[2 * k], b[2 * k + 1])->0))
    } else {
        None
    }
}

/// Whether decoding the hex string with UTF-8 bytes `b` two bytes at a time
/// reaches a pair whose ends are not both character boundaries: slicing the
/// string there panics.
pub open spec fn hex_slicing_panics(b: Seq<u8>) -> bool {
    &&& b.len() % 2 == 0
    &&& exists|k: int|
        0 <= k < b.len() / 2 && hex_pairs_ok_before(b, k) && !#[trigger] pair_on_boundaries(b, k)
}

/// Whether both ends of the `k`-th two-byte chunk of `b` are character boundaries.
pub open spec fn pair_on_boundaries(b: Seq<u8>, k: int) -> bool {
    is_char_boundary(b, 2 * k) && is_char_boundary(b, 2 * k + 2)
}

fn hex_digit_value_exec(b: u8) -> (r: Option<u8>)
    ensures
        r == hex_digit_value(b),
{
    if 48 <= b && b <= 57 {
        Some(b - 48)
    } else if 97 <= b && b <= 102 {
        Some(b - 87)
    } else if 65 <= b && b <= 70 {
        Some(b - 55)
    } else {
        None
    }
}

fn hex_pair_value_exec(b0: u8, b1: u8) -> (r: Option<u8>)
    ensures
        r == hex_pair_value(b0, b1),
{
    match (hex_digit_value_exec(b0), hex_digit_value_exec(b1)) {
        (Some(h), Some(l)) => Some(16 * h + l),
        (None, Some(l)) => if b0 == 43 { Some(l) } else { None },
        _ => None,
    }
}

/// What decoding a hex string two bytes at a time comes to.
pub enum HexDecode {
    /// The decoded bytes.
    Bytes(Vec<u8>),
    /// The byte length is odd or a chunk is not a hex byte.
    Invalid,
    /// A chunk would be cut inside a UTF-8 character before any bad chunk.
    SplitsChar,
}

/// Decode `hex` two bytes at a time: reject an odd byte length,
/// then take two-byte chunks in order, stopping at the first chunk that either
/// cuts a character or is not a hex byte.
pub fn decode_hex(hex: &str) -> (res: HexDecode)
    ensures
        match res {
            HexDecode::Bytes(v) => !hex_slicing_panics(hex.spec_bytes()) && spec_hex_to_bytes(
                hex.spec_bytes(),
            ) == Some(v@),
            HexDecode::Invalid => !hex_slicing_panics(hex.spec_bytes()) && spec_hex_to_bytes(
                hex.spec_bytes(),
            ) is None,
            HexDecode::SplitsChar => hex_slicing_panics(hex.spec_bytes()),
        },
{
    let b = hex.as_bytes();
    let len = b.len();
    if len % 2 != 0 {
        return HexDecode::Invalid;
    }
    let mut out: Vec<u8> = Vec::new();
    let mut i: usize = 0;
    while i < len
        invariant
            b@ == hex.spec_bytes(),
            len == b@.len(),
            len % 2 == 0,
            i % 2 == 0,
            i <= len,
            out@.len() == i / 2,
            hex_pairs_ok_before(b@, (i / 2) as int),
            forall|k: int|
                0 <= k < i / 2 ==> out@[k] == hex_pair_value(b@[2 * k], b@[2 * k + 1])->0,
            forall|k: int| 0 <= k < i / 2 ==> #[trigger] pair_on_boundaries(b@, k),
        decreases len - i,
    {
        let ghost k: int = (i / 2) as int;
        assert(2 * k == i);
        let cut_free = hex.is_char_boundary(i) && hex.is_char_boundary(i + 2);
        assert(cut_free == pair_on_boundaries(b@, k));
        if !cut_free {
            assert(hex_slicing_panics(b@)) by {
                assert(0 <= k < b@.len() / 2 && hex_pairs_ok_before(b@, k) && !pair_on_boundaries(
                    b@,
                    k,
                ));
            }
            return HexDecode::SplitsChar;
        }
        let v = hex_pair_value_exec(b[i], b[i + 1]);
        match v {
            Some(x) => {
                out.push(x);
            },
            None => {
                assert(!hex_pairs_ok_before(b@, (len / 2) as int)) by {
                    assert(hex_pair_value(b@[2 * k], b@[2 * k + 1]) is None);
                }
                proof {
                    lemma_no_split_before_bad_pair(b@, k);
                }
                return HexDecode::Invalid;
            },
        }
        i = i + 2;
    }
    proof {
        assert forall|k: int|
            0 <= k < b@.len() / 2 && hex_pairs_ok_before(b@, k) implies #[trigger] pair_on_boundaries(
            b@,
            k,
        ) by {}
    }
    assert(out@ =~= Seq::new((len / 2) as nat, |k: int| hex_pair_value(b@[2 * k], b@[2 * k + 1])->0));
    HexDecode::Bytes(out)
}

/// When pair `k` is the first bad pair and every earlier pair cuts no
/// character, decoding does not panic.
proof fn lemma_no_split_before_bad_pair(b: Seq<u8>, k: int)
    requires
        b.len() % 2 == 0,
        0 <= k < b.len() / 2,
        hex_pairs_ok_before(b, k),
        hex_pair_value(b[2 * k], b[2 * k + 1]) is None,
        forall|j: int| 0 <= j < k ==> #[trigger] pair_on_boundaries(b, j),
        pair_on_boundaries(b, k),
    ensures
        !hex_slicing_panics(b),
{
    assert forall|j: int|
        0 <= j < b.len() / 2 && hex_pairs_ok_before(b, j) implies #[trigger] pair_on_boundaries(
        b,
        j,
    ) by {
        if j > k {
            assert(hex_pair_value(b[2 * k], b[2 * k + 1]) is Some);
        }
    }
}

/// Parse a hex string into bytes, two hex digits per byte.
///
/// Returns `None` when the string's byte length is odd or some two-byte chunk
/// is not a hex byte. The caller must not pass a string on which cutting it
/// into two-byte chunks splits a UTF-8 character before the first bad chunk.
pub fn hex_to_bytes(hex: &str) -> (res: Option<Vec<u8>>)
    requires
        !hex_slicing_panics(hex.spec_bytes()),
    ensures
        res matches Some(v) ==> spec_hex_to_bytes(hex.spec_bytes()) == Some(v@),
        res is None ==> spec_hex_to_bytes(hex.spec_bytes()) is None,
{
    match decode_hex(hex) {
        HexDecode::Bytes(v) => Some(v),
        _ => None,
    }
}

// ---------------------------------------------------------------------------
// Writing bytes as hex text
// ---------------------------------------------------------------------------

/// The ASCII hex digit for a nibble `n < 16`: upper case (`{:X}`) or lower
/// case (`{:x}`).
pub open spec fn hex_digit_byte(n: int, upper: bool) -> u8 {
    if n < 10 {
        (48 + n) as u8
    } else if upper {
        (55 + n) as u8
    } else {
        (87 + n) as u8
    }
}

/// The bytes `v` written as hex text, two digits per byte (each byte as
/// `{:02X}` when `upper`, else as `{:02x}`), as the UTF-8 bytes of that text.
pub open spec fn hex_text(v: Seq<u8>, upper: bool) -> Seq<u8> {
    Seq::new(
        2 * v.len(),
        |i: int|
            if i % 2 == 0 {
                hex_digit_byte(v[i / 2] as int / 16, upper)
            } else {
                hex_digit_byte(v[i / 2] as int % 16, upper)
            },
    )
}

/// Hex text made from bytes, two digits per byte in either case, decodes back
/// to those bytes, and decoding it cuts no character.
#[verifier::spinoff_prover]
#[verifier::rlimit(40)]
pub proof fn lemma_hex_text_round_trip(v: Seq<u8>, upper: bool)
    ensures
        !hex_slicing_panics(hex_text(v, upper)),
        spec_hex_to_bytes(hex_text(v, upper)) == Some(v),
{
    let b = hex_text(v, upper);
    assert forall|k: int| 0 <= k < v.len() implies (#[trigger] hex_pair_value(b[2 * k], b[2 * k + 1]))
        == Some(v[k]) by {
        assert((2 * k) % 2 == 0 && (2 * k) / 2 == k);
        assert((2 * k + 1) % 2 == 1 && (2 * k + 1) / 2 == k);
        let h = v[k] as int / 16;
        let l = v[k] as int % 16;
        assert(hex_digit_value(hex_digit_byte(h, upper)) == Some(h as u8));
        assert(hex_digit_value(hex_digit_byte(l, upper)) == Some(l as u8));
        assert(16 * h + l == v[k]);
    }
    assert(b.len() / 2 == v.len());
    assert(hex_pairs_ok_before(b, (b.len() / 2) as int));
    assert(Seq::new(b.len() / 2, |k: int| hex_pair_value(b[2 * k], b[2 * k + 1])->0) =~= v);
    // The text is ASCII, so it is valid UTF-8 and every index is a character boundary.
    assert forall|i: int| 0 <= i < b.len() implies #[trigger] is_leading_byte_width_1(b[i]) by {
        let n = if i % 2 == 0 { v[i / 2] as int / 16 } else { v[i / 2] as int % 16 };
        assert(0 <= n < 16);
    }
    assert(b.subrange(0, 0) =~= Seq::<u8>::empty());
    assert(partial_valid_utf8(b, 0));
    partial_valid_utf8_extend_ascii_block(b, 0, b.len() as int);
    assert(b.subrange(0, b.len() as int) =~= b);
    assert(valid_utf8(b));
    is_char_boundary_start_end_of_seq(b);
    assert forall|i: int| 0 <= i <= b.len() implies #[trigger] is_char_boundary(b, i) by {
        if i < b.len() {
            is_char_boundary_iff_not_is_continuation_byte(b, i);
        }
    }
    assert forall|k: int|
        0 <= k < b.len() / 2 && hex_pairs_ok_before(b, k) implies #[trigger] pair_on_boundaries(
        b,
        k,
    ) by {
        assert(is_char_boundary(b, 2 * k));
        assert(is_char_boundary(b, 2 * k + 2));
    }
}

// ---------------------------------------------------------------------------
// Entry fields
// ---------------------------------------------------------------------------

#[verifier::external_type_specification]
#[verifier::external_body]
pub struct ExParseIntError(std::num::ParseIntError);

/// Whether `c` is an ASCII hex digit.
pub open spec fn is_hex_char(c: char) -> bool {
    ('0' <= c <= '9') || ('a' <= c <= 'f') || ('A' <= c <= 'F')
}

/// The value of an ASCII hex digit character.
pub open spec fn hex_char_value(c: char) -> nat {
    if '0' <= c <= '9' {
        (c as nat - 48) as nat
    } else if 'a' <= c <= 'f' {
        (c as nat - 87) as nat
    } else {
        (c as nat - 55) as nat
    }
}

/// The number written by a sequence of hex digits, most significant first.
pub open spec fn hex_digits_value(d: Seq<char>) -> nat
    decreases d.len(),
{
    if d.len() == 0 {
        0
    } else {
        hex_digits_value(d.drop_last()) * 16 + hex_char_value(d.last())
    }
}

/// `s` without a leading `+` sign.
pub open spec fn unsigned_digits(s: Seq<char>) -> Seq<char> {
    if s.len() > 0 && s[0] == '+' {
        s.drop_first()
    } else {
        s
    }
}

/// Whether every character of `d` is an ASCII hex digit.
pub open spec fn all_hex_chars(d: Seq<char>) -> bool {
    forall|i: int| 0 <= i < d.len() ==> is_hex_char(#[trigger] d[i])
}

/// What `u64::from_str_radix(s, 16)` gives for `s`: an optional `+` followed by
/// one or more hex digits whose value fits in a `u64`.
pub open spec fn spec_parse_hex_u64(s: Seq<char>) -> Option<u64> {
    let d = unsigned_digits(s);
    if d.len() > 0 && all_hex_chars(d) && hex_digits_value(d) <= u64::MAX {
        Some(hex_digits_value(d) as u64)
    } else {
        None
    }
}

/// The text that the error of `u64::from_str_radix(s, 16)` displays, for an
/// `s` that it rejects.
pub uninterp spec fn hex_u64_error_text(s: Seq<char>) -> Seq<char>;

/// Parses a radix-16 `u64` (std's `u64::from_str_radix(s, 16)`), giving the
/// error together with its displayed text.
///
/// Trusted: claims the call succeeds exactly when `s` is an optional `+` sign
/// followed by one or more ASCII hex digits whose value fits in a `u64`, and
/// then returns that value, as std's documentation describes the function;
/// and that the error's text depends on `s` alone. The text itself is not
/// stated, nor which kind of `ParseIntError` comes back.
#[verifier::external_body]
pub(crate) fn from_str_radix_16(s: &str) -> (res: Result<u64, (std::num::ParseIntError, String)>)
    ensures
        res is Ok <==> spec_parse_hex_u64(s@) is Some,
        res matches Ok(v) ==> spec_parse_hex_u64(s@) == Some(v),
        res matches Err(failure) ==> failure.1@ == hex_u64_error_text(s@),
{
    match u64::from_str_radix(s, 16) {
        Ok(v) => Ok(v),
        Err(e) => {
            let text = format!("{}", e);
            Err((e, text))
        },
    }
}

impl Entry {
    /// Parse the hex addr string to u64.
    pub fn addr_u64(&self) -> (res: Result<u64, std::num::ParseIntError>)
        ensures
            res is Ok <==> spec_parse_hex_u64(self.addr@) is Some,
            res matches Ok(v) ==> spec_parse_hex_u64(self.addr@) == Some(v),
    {
        match from_str_radix_16(self.addr.as_str()) {
            Ok(v) => Ok(v),
            Err(failure) => Err(failure.0),
        }
    }

    /// Parse the hex asm string to bytes.
    pub fn asm_bytes(&self) -> (res: Option<Vec<u8>>)
        requires
            !hex_slicing_panics(encode_utf8(self.asm_hex@)),
        ensures
            res matches Some(v) ==> spec_hex_to_bytes(encode_utf8(self.asm_hex@)) == Some(v@),
            res is None ==> spec_hex_to_bytes(encode_utf8(self.asm_hex@)) is None,
    {
        hex_to_bytes(self.asm_hex.as_str())
    }

    /// A copy of this entry.
    pub fn duplicate(&self) -> (res: Entry)
        ensures
            res.deep_view() == self.deep_view(),
    {
        Entry { arch: self.arch.clone(), addr: self.addr.clone(), asm_hex: self.asm_hex.clone() }
    }
}

/// Copies of `entries`, in order.
pub fn duplicate_entries(entries: &[Entry]) -> (res: Vec<Entry>)
    ensures
        res.deep_view() == entries.deep_view(),
{
    let mut out: Vec<Entry> = Vec::new();
    for i in 0..entries.len()
        invariant
            i <= entries@.len(),
            out@.len() == i,
            out.deep_view() =~= entries.deep_view().take(i as int),
    {
        let e = entries[i].duplicate();
        let ghost before = out@;
        out.push(e);
        assert(out@ == before.push(e));
        assert(out.deep_view() =~= entries.deep_view().take(i + 1)) by {
            assert(e.deep_view() == entries.deep_view()[i as int]);
            assert forall|k: int| 0 <= k < i + 1 implies out.deep_view()[k] == entries.deep_view().take(i + 1)[k] by {
                if k < i {
                    assert(out@[k] == before[k]);
                }
            }
        }
    }
    assert(entries.deep_view().take(entries.len() as int) =~= entries.deep_view());
    out
}

impl Target {
    /// A copy of this target.
    pub fn duplicate(&self) -> (res: Target)
        ensures
            res.deep_view() == self.deep_view(),
    {
        Target {
            identifier: self.identifier.clone(),
            entries: duplicate_entries(self.entries.as_slice()),
        }
    }
}

impl PatchConfig {
    /// A copy of this configuration.
    pub fn duplicate(&self) -> (res: PatchConfig)
        ensures
            res.deep_view() == self.deep_view(),
    {
        let mut targets: Vec<Target> = Vec::new();
        for i in 0..self.targets.len()
            invariant
                i <= self.targets@.len(),
                targets@.len() == i,
                targets.deep_view() =~= self.targets.deep_view().take(i as int),
        {
            let t = self.targets[i].duplicate();
            let ghost before = targets@;
            targets.push(t);
            assert(targets.deep_view() =~= self.targets.deep_view().take(i + 1)) by {
                assert(t.deep_view() == self.targets.deep_view()[i as int]);
                assert forall|k: int| 0 <= k < i + 1 implies targets.deep_view()[k] == self.targets.deep_view().take(i + 1)[k] by {
                    if k < i {
                        assert(targets@[k] == before[k]);
                    }
                }
            }
        }
        assert(self.targets.deep_view().take(self.targets.len() as int)
            =~= self.targets.deep_view());
        PatchConfig { version: self.version.clone(), targets }
    }
}

// ---------------------------------------------------------------------------
// Lookup
// ---------------------------------------------------------------------------

/// Find config matching a specific WeChat version.
pub fn find_for_version(configs: &[PatchConfig], version: &str) -> (res: Option<PatchConfig>)
    ensures
        ({
            let cs = configs.deep_view();
            match res {
                Some(c) => exists|i: int|
                    0 <= i < cs.len() && c.deep_view() == cs[i] && cs[i].version == version@
                        && forall|j: int| 0 <= j < i ==> (#[trigger] cs[j]).version != version@,
                None => forall|i: int| 0 <= i < cs.len() ==> (#[trigger] cs[i]).version != version@,
            }
        }),
{
    let wanted: String = version.to_owned();
    for i in 0..configs.len()
        invariant
            wanted@ == version@,
            forall|j: int| 0 <= j < i ==> (#[trigger] configs.deep_view()[j]).version != version@,
    {
        if configs[i].version == wanted {
            let found = configs[i].duplicate();
            assert(configs.deep_view()[i as int] == configs[i as int].deep_view());
            return Some(found);
        }
        assert(configs.deep_view()[i as int].version == configs[i as int].version@);
    }
    None
}

} // verus!
