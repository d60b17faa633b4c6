//! Decoder for the binary snapshot format: a magic header, auxiliary metadata
//! and typed, length-prefixed key/value entries.

use crate::text::utf8_text;
use dashmap::DashMap;
use vstd::prelude::*;
use vstd::utf8::{decode_utf8, encode_utf8_decode_utf8, valid_utf8};

verus! {

/// Why a snapshot could not be decoded.
#[derive(Debug, Clone, Copy, PartialEq, Eq)]
pub enum RdbError {
    /// The buffer ended before the bytes that an encoding announces.
    Truncated,
    /// The length marker 255, which no encoding uses.
    InvalidLength,
    /// A byte that does not start an integer encoding.
    InvalidInteger(u8),
    /// A value-type tag that the decoder does not know.
    UnknownValueType(u8),
    /// The header does not begin with the magic "REDIS".
    BadMagic,
    /// The four header bytes after the magic are not a decimal number.
    BadVersion,
    /// An auxiliary field name that is not UTF-8.
    InvalidUtf8Key,
}

/// A decoded length code as mathematical integers.
pub open spec fn sized_length(r: Result<(usize, usize), RdbError>) -> Result<(nat, nat), RdbError> {
    match r {
        Ok((n, len)) => Ok((n as nat, len as nat)),
        Err(e) => Err(e),
    }
}

/// A decoded integer code as mathematical integers.
pub open spec fn sized_int(r: Result<(usize, i64), RdbError>) -> Result<(nat, int), RdbError> {
    match r {
        Ok((n, v)) => Ok((n as nat, v as int)),
        Err(e) => Err(e),
    }
}

/// A decoded byte string with its extent, as a position and a sequence.
pub open spec fn sized_bytes(r: Result<(usize, Vec<u8>), RdbError>) -> Result<(nat, Seq<u8>), RdbError> {
    match r {
        Ok((n, v)) => Ok((n as nat, v@)),
        Err(e) => Err(e),
    }
}

/// The length code at the start of `d`: the bytes it occupies and the length
/// it announces.
pub open spec fn length_code(d: Seq<u8>) -> Result<(nat, nat), RdbError> {
    if d.len() == 0 {
        Err(RdbError::Truncated)
    } else {
        let b0 = d[0];
        if b0 <= 63 {
            Ok((1, b0 as nat))
        } else if b0 <= 127 {
            if d.len() < 2 {
                Err(RdbError::Truncated)
            } else {
                Ok((2, ((b0 - 64) * 256 + d[1]) as nat))
            }
        } else if b0 <= 191 {
            if d.len() < 4 {
                Err(RdbError::Truncated)
            } else {
                Ok((4, ((b0 - 128) * 0x100_0000 + d[1] * 0x1_0000 + d[2] * 0x100 + d[3]) as nat))
            }
        } else if b0 <= 253 {
            Ok((1, (b0 - 192) as nat))
        } else if b0 == 254 {
            if d.len() < 5 {
                Err(RdbError::Truncated)
            } else {
                Ok((5, (d[1] + d[2] * 0x100 + d[3] * 0x1_0000 + d[4] * 0x100_0000) as nat))
            }
        } else {
            Err(RdbError::InvalidLength)
        }
    }
}



/// The unsigned value of two little-endian bytes of `d` from `i`.
pub open spec fn le2(d: Seq<u8>, i: int) -> nat {
    (d[i] + d[i + 1] * 0x100) as nat
}

/// The unsigned value of four little-endian bytes of `d` from `i`.
pub open spec fn le4(d: Seq<u8>, i: int) -> nat {
    (d[i] + d[i + 1] * 0x100 + d[i + 2] * 0x1_0000 + d[i + 3] * 0x100_0000) as nat
}

/// The unsigned value of eight little-endian bytes of `d` from `i`.
pub open spec fn le8(d: Seq<u8>, i: int) -> nat {
    (le4(d, i) + le4(d, i + 4) * 0x1_0000_0000) as nat
}

/// The integer code at the start of `d`: the bytes it occupies and its value.
/// Markers 0xC1 to 0xC3 carry two's-complement little-endian integers; 0xC0
/// carries one unsigned byte; the other markers from 192 to 223 hold the value
/// in their low six bits.
pub open spec fn int_code(d: Seq<u8>) -> Result<(nat, int), RdbError> {
    if d.len() == 0 {
        Err(RdbError::Truncated)
    } else {
        let b0 = d[0];
        if b0 == 0xC0 {
            if d.len() < 2 {
                Err(RdbError::Truncated)
            } else {
                Ok((2, d[1] as int))
            }
        } else if b0 == 0xC1 {
            if d.len() < 3 {
                Err(RdbError::Truncated)
            } else {
                let u = le2(d, 1);
                Ok((3, if u >= 0x8000 { u - 0x1_0000 } else { u as int }))
            }
        } else if b0 == 0xC2 {
            if d.len() < 5 {
                Err(RdbError::Truncated)
            } else {
                let u = le4(d, 1);
                Ok((5, if u >= 0x8000_0000 { u - 0x1_0000_0000 } else { u as int }))
            }
        } else if b0 == 0xC3 {
            if d.len() < 9 {
                Err(RdbError::Truncated)
            } else {
                let u = le8(d, 1);
                Ok(
                    (
                        9,
                        if u >= 0x8000_0000_0000_0000 {
                            u - 0x1_0000_0000_0000_0000
                        } else {
                            u as int
                        },
                    ),
                )
            }
        } else if 192 <= b0 <= 223 {
            Ok((1, b0 - 192))
        } else {
            Err(RdbError::InvalidInteger(b0))
        }
    }
}

/// The length-prefixed byte string at the start of `d`: the bytes it occupies
/// (prefix and payload) and its payload.
pub open spec fn string_code(d: Seq<u8>) -> Result<(nat, Seq<u8>), RdbError> {
    match length_code(d) {
        Err(e) => Err(e),
        Ok((n, len)) => if d.len() < n + len {
            Err(RdbError::Truncated)
        } else {
            Ok(((n + len) as nat, d.subrange(n as int, (n + len) as int)))
        },
    }
}

/// Eight little-endian bytes of `u` (which is below 2^64).
pub open spec fn le_bytes8(u: nat) -> Seq<u8> {
    seq![
        (u % 0x100) as u8,
        (u / 0x100 % 0x100) as u8,
        (u / 0x1_0000 % 0x100) as u8,
        (u / 0x100_0000 % 0x100) as u8,
        (u / 0x1_0000_0000 % 0x100) as u8,
        (u / 0x100_0000_0000 % 0x100) as u8,
        (u / 0x1_0000_0000_0000 % 0x100) as u8,
        (u / 0x100_0000_0000_0000 % 0x100) as u8,
    ]
}

/// The eight bytes of the two's-complement little-endian form of `v`.
pub open spec fn i64_bytes(v: int) -> Seq<u8> {
    le_bytes8((if v < 0 { v + 0x1_0000_0000_0000_0000 } else { v }) as nat)
}

/// Reads four little-endian bytes of `data` from `i` as an unsigned number.
fn read_le4(data: &[u8], i: usize) -> (r: u64)
    requires
        i + 4 <= data@.len(),
    ensures
        r == le4(data@, i as int),
{
    data[i] as u64 + data[i + 1] as u64 * 0x100 + data[i + 2] as u64 * 0x1_0000 + data[i + 3] as u64
        * 0x100_0000
}

/// Reads eight little-endian bytes of `data` from `i` as an unsigned number.
fn read_le8(data: &[u8], i: usize) -> (r: u64)
    requires
        i + 8 <= data@.len(),
    ensures
        r == le8(data@, i as int),
{
    let lo = read_le4(data, i);
    let n = data.len();
    assert(i + 4 < n);
    let hi = read_le4(data, i + 4);
    lo + hi * 0x1_0000_0000
}

/// The eight little-endian bytes of `u`.
fn u64_bytes(u: u64) -> (r: Vec<u8>)
    ensures
        r@ == le_bytes8(u as nat),
{
    let mut out: Vec<u8> = Vec::new();
    out.push((u % 0x100) as u8);
    out.push((u / 0x100 % 0x100) as u8);
    out.push((u / 0x1_0000 % 0x100) as u8);
    out.push((u / 0x100_0000 % 0x100) as u8);
    out.push((u / 0x1_0000_0000 % 0x100) as u8);
    out.push((u / 0x100_0000_0000 % 0x100) as u8);
    out.push((u / 0x1_0000_0000_0000 % 0x100) as u8);
    out.push((u / 0x100_0000_0000_0000 % 0x100) as u8);
    assert(out@ =~= le_bytes8(u as nat));
    out
}

/// The eight bytes of the two's-complement little-endian form of `v`.
fn i64_to_bytes(v: i64) -> (r: Vec<u8>)
    ensures
        r@ == i64_bytes(v as int),
{
    if v < 0 {
        let shifted: i64 = v + 0x7fff_ffff_ffff_ffff + 1;
        u64_bytes(shifted as u64 + 0x8000_0000_0000_0000)
    } else {
        u64_bytes(v as u64)
    }
}



/// Separator between the items of a flattened collection value.
pub const COMMA: u8 = 44;

/// Separator between the two halves of a sorted-set or hash item.
pub const COLON: u8 = 58;

/// One item of a collection value of type `tag`, starting at position `i` of
/// `d`: the position after it and its flattened bytes. A list or set item is
/// one string; a sorted-set item is a member and a score given as a length
/// code, written `member:score` with the score as eight little-endian bytes;
/// a hash item is a field and a value, written `field:value`.
pub open spec fn element_code(d: Seq<u8>, i: nat, tag: u8) -> Result<(nat, Seq<u8>), RdbError> {
    match string_code(d.skip(i as int)) {
        Err(e) => Err(e),
        Ok((n, first)) => {
            let j = i + n;
            if tag == 3 {
                match length_code(d.skip(j as int)) {
                    Err(e) => Err(e),
                    Ok((m, score)) => Ok(((j + m) as nat, first + seq![COLON] + le_bytes8(score))),
                }
            } else if tag == 4 {
                match string_code(d.skip(j as int)) {
                    Err(e) => Err(e),
                    Ok((m, second)) => Ok(((j + m) as nat, first + seq![COLON] + second)),
                }
            } else {
                Ok((j as nat, first))
            }
        },
    }
}

/// The first `k` items of a collection value of type `tag` from position `i`:
/// the position after them and the items joined by commas.
pub open spec fn elements_code(d: Seq<u8>, i: nat, tag: u8, k: nat) -> Result<
    (nat, Seq<u8>),
    RdbError,
>
    decreases k,
{
    if k == 0 {
        Ok((i, Seq::empty()))
    } else {
        match elements_code(d, i, tag, (k - 1) as nat) {
            Err(e) => Err(e),
            Ok((j, acc)) => match element_code(d, j, tag) {
                Err(e) => Err(e),
                Ok((j2, item)) => Ok((j2, if k == 1 { item } else { acc + seq![COMMA] + item })),
            },
        }
    }
}

/// The value of type `tag` at position `i` of `d`: the position after it and
/// its bytes in the store's flat representation.
pub open spec fn value_code(d: Seq<u8>, tag: u8, i: nat) -> Result<(nat, Seq<u8>), RdbError> {
    if tag == 0 {
        match string_code(d.skip(i as int)) {
            Err(e) => Err(e),
            Ok((n, v)) => Ok(((i + n) as nat, v)),
        }
    } else if 1 <= tag <= 4 {
        match length_code(d.skip(i as int)) {
            Err(e) => Err(e),
            Ok((n, count)) => elements_code(d, (i + n) as nat, tag, count),
        }
    } else if 9 <= tag <= 12 {
        match int_code(d.skip(i as int)) {
            Err(e) => Err(e),
            Ok((n, v)) => Ok(((i + n) as nat, i64_bytes(v))),
        }
    } else if tag == 55 || tag == 250 {
        if i < d.len() {
            Ok(((i + 1) as nat, seq![d[i as int]]))
        } else {
            Err(RdbError::Truncated)
        }
    } else {
        Err(RdbError::UnknownValueType(tag))
    }
}

pub proof fn lemma_codes_bounded(d: Seq<u8>)
    ensures
        length_code(d) matches Ok((n, _)) ==> 1 <= n <= d.len(),
        string_code(d) matches Ok((n, v)) ==> 1 <= n <= d.len(),
        int_code(d) matches Ok((n, _)) ==> 1 <= n <= d.len(),
{
}

pub proof fn lemma_element_bounded(d: Seq<u8>, i: nat, tag: u8)
    requires
        i <= d.len(),
    ensures
        element_code(d, i, tag) matches Ok((j, _)) ==> i < j <= d.len(),
{
    lemma_codes_bounded(d.skip(i as int));
    if let Ok((n, _)) = string_code(d.skip(i as int)) {
        lemma_codes_bounded(d.skip(i + n as int));
    }
}

pub proof fn lemma_elements_bounded(d: Seq<u8>, i: nat, tag: u8, k: nat)
    requires
        i <= d.len(),
    ensures
        elements_code(d, i, tag, k) matches Ok((j, _)) ==> i <= j <= d.len(),
    decreases k,
{
    if k > 0 {
        lemma_elements_bounded(d, i, tag, (k - 1) as nat);
        if let Ok((j, _)) = elements_code(d, i, tag, (k - 1) as nat) {
            lemma_element_bounded(d, j, tag);
        }
    }
}

/// Once the items of a collection fail to decode, taking more of them fails
/// in the same way.
pub proof fn lemma_elements_error_stays(d: Seq<u8>, i: nat, tag: u8, k: nat, m: nat)
    requires
        k <= m,
        elements_code(d, i, tag, k) is Err,
    ensures
        elements_code(d, i, tag, m) == elements_code(d, i, tag, k),
    decreases m - k,
{
    if k < m {
        lemma_elements_error_stays(d, i, tag, k, (m - 1) as nat);
    }
}

pub proof fn lemma_value_bounded(d: Seq<u8>, tag: u8, i: nat)
    requires
        i <= d.len(),
    ensures
        value_code(d, tag, i) matches Ok((j, _)) ==> i < j <= d.len() || (i <= j <= d.len() && 1
            <= tag <= 4),
{
    lemma_codes_bounded(d.skip(i as int));
    if 1 <= tag <= 4 {
        if let Ok((n, count)) = length_code(d.skip(i as int)) {
            lemma_elements_bounded(d, (i + n) as nat, tag, count);
        }
    }
}

/// The rest of `data` from position `i`.
fn rest_of(data: &[u8], i: usize) -> (r: &[u8])
    requires
        i <= data@.len(),
    ensures
        r@ == data@.skip(i as int),
{
    let r = vstd::slice::slice_subrange(data, i, data.len());
    assert(r@ =~= data@.skip(i as int));
    r
}




/// A key/value pair at position `i`: a type tag, a length-prefixed key, and a
/// value of that type. Gives the position after it, the key and the value.
pub open spec fn pair_code(d: Seq<u8>, i: nat) -> Result<(nat, Seq<u8>, Seq<u8>), RdbError> {
    if i >= d.len() {
        Err(RdbError::Truncated)
    } else {
        match string_code(d.skip(i + 1 as int)) {
            Err(e) => Err(e),
            Ok((n, key)) => match value_code(d, d[i as int], (i + 1 + n) as nat) {
                Err(e) => Err(e),
                Ok((j, value)) => Ok((j, key, value)),
            },
        }
    }
}

pub proof fn lemma_pair_bounded(d: Seq<u8>, i: nat)
    ensures
        pair_code(d, i) matches Ok((j, _, _)) ==> i < j <= d.len(),
{
    if i < d.len() {
        lemma_codes_bounded(d.skip(i + 1 as int));
        if let Ok((n, _)) = string_code(d.skip(i + 1 as int)) {
            lemma_value_bounded(d, d[i as int], (i + 1 + n) as nat);
        }
    }
}

/// A key/value pair without expiry, as keys and values of bytes.
pub type PairView = (Seq<u8>, Seq<u8>);

/// A key/value pair with its absolute expiry in milliseconds since the Unix
/// epoch.
pub type TimedView = (Seq<u8>, Seq<u8>, nat);

/// The position that a database selector at `i` moves to: past the selector
/// and its index byte, and past a resize hint with its two lengths if one
/// follows.
pub open spec fn selector_end(d: Seq<u8>, i: nat) -> Result<nat, RdbError> {
    let j: nat = if d.len() - i >= 2 { i + 2 } else { d.len() };
    if j < d.len() && d[j as int] == 0xFB {
        match length_code(d.skip(j + 1 as int)) {
            Err(e) => Err(e),
            Ok((n1, _)) => match length_code(d.skip(j + 1 + n1 as int)) {
                Err(e) => Err(e),
                Ok((n2, _)) => Ok((j + 1 + n1 + n2) as nat),
            },
        }
    } else {
        Ok(j)
    }
}

/// Scans the entries section from position `i`, adding what it finds to
/// `plain` and `timed`, up to the end marker 0xFF or the end of `d`.
pub open spec fn entries_from(d: Seq<u8>, i: nat, plain: Seq<PairView>, timed: Seq<TimedView>) -> Result<
    (Seq<PairView>, Seq<TimedView>),
    RdbError,
>
    decreases d.len() - i,
{
    if i >= d.len() || d[i as int] == 0xFF {
        Ok((plain, timed))
    } else if d[i as int] == 0xFE {
        match selector_end(d, i) {
            Err(e) => Err(e),
            Ok(j) => {
                proof {
                    lemma_codes_bounded(d.skip(i + 3 as int));
                    if let Ok((n1, _)) = length_code(d.skip(i + 3 as int)) {
                        lemma_codes_bounded(d.skip(i + 3 + n1 as int));
                    }
                }
                entries_from(d, j, plain, timed)
            },
        }
    } else if d[i as int] == 0xFD || d[i as int] == 0xFC {
        let width: nat = if d[i as int] == 0xFD { 4 } else { 8 };
        let expiry = if d[i as int] == 0xFD { le4(d, i + 1 as int) * 1000 } else { le8(d, i + 1 as int) };
        if d.len() < i + 1 + width {
            Err(RdbError::Truncated)
        } else {
            match pair_code(d, i + 1 + width) {
                Err(e) => Err(e),
                Ok((j, key, value)) => {
                    proof {
                        lemma_pair_bounded(d, i + 1 + width);
                    }
                    entries_from(d, j, plain, timed.push((key, value, expiry as nat)))
                },
            }
        }
    } else {
        match pair_code(d, i) {
            Err(e) => Err(e),
            Ok((j, key, value)) => {
                proof {
                    lemma_pair_bounded(d, i);
                }
                entries_from(d, j, plain.push((key, value)), timed)
            },
        }
    }
}

/// The text that `String::from_utf8_lossy` makes of the bytes `b`.
pub uninterp spec fn lossy_text(b: Seq<u8>) -> Seq<char>;

pub proof fn lemma_aux_bounded(d: Seq<u8>, i: nat, acc: Map<Seq<char>, AuxValueView>)
    ensures
        aux_from(d, i, acc) matches Ok((j, _)) ==> i <= j && (j <= d.len() || j == i),
    decreases d.len() - i,
{
    if i < d.len() && d[i as int] == 0xFA {
        lemma_codes_bounded(d.skip(i + 1 as int));
        if let Ok((j, name, value)) = aux_field_code(d, i + 1) {
            if let Ok((n, _)) = string_code(d.skip(i + 1 as int)) {
                lemma_codes_bounded(d.skip(i + 1 + n as int));
            }
            lemma_aux_bounded(d, j, acc.insert(name, value));
        }
    }
}

/// A `String` of the characters that stand one for one for the bytes of `b`.
fn latin1_string(b: &Vec<u8>) -> (r: String)
    ensures
        r@ == latin1(b@),
{
    let mut out = String::new();
    let mut i: usize = 0;
    while i < b.len()
        invariant
            i <= b@.len(),
            out@ == latin1(b@.take(i as int)),
        decreases b@.len() - i,
    {
        out.push(b[i] as char);
        i = i + 1;
        assert(latin1(b@.take(i as int)) =~= latin1(b@.take(i - 1 as int)).push(b@[i - 1] as char));
    }
    assert(b@.take(b@.len() as int) =~= b@);
    out
}

/// An auxiliary metadata value of a snapshot header.
#[derive(Debug, Clone)]
pub enum AuxValue {
    String(String),
    Integer(i64),
}

/// What an auxiliary value holds.
pub enum AuxValueView {
    Text(Seq<char>),
    Integer(int),
}

impl View for AuxValue {
    type V = AuxValueView;

    open spec fn view(&self) -> AuxValueView {
        match self {
            AuxValue::String(s) => AuxValueView::Text(s@),
            AuxValue::Integer(i) => AuxValueView::Integer(*i as int),
        }
    }
}

/// The characters that stand one for one for the bytes of `b`.
pub open spec fn latin1(b: Seq<u8>) -> Seq<char> {
    b.map_values(|x: u8| x as char)
}

/// The auxiliary field whose name starts at position `i` (just after its 0xFA
/// marker): the position after it, its name and its value. The name must be
/// UTF-8; the value is an integer code when its first byte is from 192 to 223,
/// and otherwise a length-prefixed string read one character per byte.
pub open spec fn aux_field_code(d: Seq<u8>, i: nat) -> Result<(nat, Seq<char>, AuxValueView), RdbError> {
    match string_code(d.skip(i as int)) {
        Err(e) => Err(e),
        Ok((n, name)) => if !valid_utf8(name) {
            Err(RdbError::InvalidUtf8Key)
        } else {
            let j = i + n;
            if j >= d.len() {
                Err(RdbError::Truncated)
            } else if 192 <= d[j as int] <= 223 {
                match int_code(d.skip(j as int)) {
                    Err(e) => Err(e),
                    Ok((m, v)) => Ok(((j + m) as nat, decode_utf8(name), AuxValueView::Integer(v))),
                }
            } else {
                match string_code(d.skip(j as int)) {
                    Err(e) => Err(e),
                    Ok((m, v)) => Ok(((j + m) as nat, decode_utf8(name), AuxValueView::Text(latin1(v)))),
                }
            }
        },
    }
}

/// Reads the auxiliary fields from position `i` into `acc` while the next byte
/// is the marker 0xFA; gives the position of the first other byte and the
/// fields, a later field replacing an earlier one of the same name.
pub open spec fn aux_from(d: Seq<u8>, i: nat, acc: Map<Seq<char>, AuxValueView>) -> Result<
    (nat, Map<Seq<char>, AuxValueView>),
    RdbError,
>
    decreases d.len() - i,
{
    if i < d.len() && d[i as int] == 0xFA {
        match aux_field_code(d, i + 1) {
            Err(e) => Err(e),
            Ok((j, name, value)) => {
                proof {
                    lemma_codes_bounded(d.skip(i + 1 as int));
                }
                aux_from(d, j, acc.insert(name, value))
            },
        }
    } else {
        Ok((i, acc))
    }
}

/// The magic bytes "REDIS" that open a snapshot.
pub open spec fn magic() -> Seq<u8> {
    seq![82u8, 69, 68, 73, 83]
}

/// Whether `b` is an ASCII decimal digit.
pub open spec fn is_digit(b: u8) -> bool {
    48 <= b <= 57
}

/// The snapshot's format version: after the magic, four bytes that are either
/// four decimal digits or a plus sign and three digits.
pub open spec fn version_code(d: Seq<u8>) -> Result<nat, RdbError> {
    if d.len() < 9 {
        Err(RdbError::Truncated)
    } else if d.subrange(0, 5) != magic() {
        Err(RdbError::BadMagic)
    } else if is_digit(d[5]) && is_digit(d[6]) && is_digit(d[7]) && is_digit(d[8]) {
        Ok(((d[5] - 48) * 1000 + (d[6] - 48) * 100 + (d[7] - 48) * 10 + (d[8] - 48)) as nat)
    } else if d[5] == 43 && is_digit(d[6]) && is_digit(d[7]) && is_digit(d[8]) {
        Ok(((d[6] - 48) * 100 + (d[7] - 48) * 10 + (d[8] - 48)) as nat)
    } else {
        Err(RdbError::BadVersion)
    }
}

/// Everything a snapshot holds: its version, its auxiliary fields, its
/// entries without expiry and its entries with one.
pub struct SnapshotView {
    pub version: nat,
    pub aux: Map<Seq<char>, AuxValueView>,
    pub entries: Seq<PairView>,
    pub expiry_entries: Seq<TimedView>,
}

/// The decoding of a whole snapshot: header, auxiliary fields from byte 9,
/// then the entries section.
pub open spec fn snapshot_code(d: Seq<u8>) -> Result<SnapshotView, RdbError> {
    match version_code(d) {
        Err(e) => Err(e),
        Ok(version) => match aux_from(d, 9, Map::empty()) {
            Err(e) => Err(e),
            Ok((i, aux)) => match entries_from(d.skip(i as int), 0, Seq::empty(), Seq::empty()) {
                Err(e) => Err(e),
                Ok((entries, expiry_entries)) => Ok(
                    SnapshotView { version, aux, entries, expiry_entries },
                ),
            },
        },
    }
}

/// The pairs of `v` as sequences of bytes.
pub open spec fn pairs_view(v: Seq<(Vec<u8>, Vec<u8>)>) -> Seq<PairView> {
    v.map_values(|p: (Vec<u8>, Vec<u8>)| (p.0@, p.1@))
}

/// The timed pairs of `v` as sequences of bytes and a time.
pub open spec fn timed_view(v: Seq<(Vec<u8>, Vec<u8>, u64)>) -> Seq<TimedView> {
    v.map_values(|p: (Vec<u8>, Vec<u8>, u64)| (p.0@, p.1@, p.2 as nat))
}

/// What the auxiliary-field map `m` holds.
pub uninterp spec fn aux_contents(m: DashMap<String, AuxValue>) -> Map<Seq<char>, AuxValueView>;

/// Relies on `DashMap::new`: a new map is empty.
#[verifier::external_body]
fn new_aux_map() -> (r: DashMap<String, AuxValue>)
    ensures
        aux_contents(r) =~= Map::empty(),
{
    DashMap::new()
}

/// Relies on `DashMap::insert`: afterwards the name maps to the value and the
/// other names are unchanged.
#[verifier::external_body]
fn aux_insert(m: &mut DashMap<String, AuxValue>, name: String, value: AuxValue)
    ensures
        aux_contents(*final(m)) == aux_contents(*old(m)).insert(name@, value@),
{
    m.insert(name, value);
}

/// Relies on `DashMap::get`: the value held under the name, if any.
#[verifier::external_body]
fn aux_get(m: &DashMap<String, AuxValue>, name: &str) -> (r: Option<AuxValue>)
    ensures
        r is Some <==> aux_contents(*m).contains_key(name@),
        r matches Some(v) ==> v@ == aux_contents(*m)[name@],
{
    m.get(name).map(|entry| entry.value().clone())
}

/// A decoder over the bytes of one snapshot, with what it decoded.
pub struct RDBParser {
    data: Vec<u8>,
    rdb_version: u32,
    aux_fields: DashMap<String, AuxValue>,
    entries: Vec<(Vec<u8>, Vec<u8>)>,
    expiry_entries: Vec<(Vec<u8>, Vec<u8>, u64)>,
}

impl RDBParser {
    /// The snapshot bytes.
    pub closed spec fn spec_data(&self) -> Seq<u8> {
        self.data@
    }

    /// The decoded version, 0 before a successful parse.
    pub closed spec fn spec_version(&self) -> nat {
        self.rdb_version as nat
    }

    /// The decoded auxiliary fields.
    pub closed spec fn spec_aux(&self) -> Map<Seq<char>, AuxValueView> {
        aux_contents(self.aux_fields)
    }

    /// The decoded entries without expiry.
    pub closed spec fn spec_entries(&self) -> Seq<PairView> {
        pairs_view(self.entries@)
    }

    /// The decoded entries with an expiry.
    pub closed spec fn spec_expiry_entries(&self) -> Seq<TimedView> {
        timed_view(self.expiry_entries@)
    }

    /// A decoder over `data` that has decoded nothing yet.
    pub fn new(data: Vec<u8>) -> (r: Self)
        ensures
            r.spec_data() == data@,
            r.spec_version() == 0,
            r.spec_aux() == Map::<Seq<char>, AuxValueView>::empty(),
            r.spec_entries() == Seq::<PairView>::empty(),
            r.spec_expiry_entries() == Seq::<TimedView>::empty(),
    {
        let r = RDBParser {
            data,
            rdb_version: 0,
            aux_fields: new_aux_map(),
            entries: Vec::new(),
            expiry_entries: Vec::new(),
        };
        assert(pairs_view(r.entries@) =~= Seq::<PairView>::empty());
        assert(timed_view(r.expiry_entries@) =~= Seq::<TimedView>::empty());
        r
    }

    /// Decodes the length code at the start of `data`.
    pub fn decode_length(&self, data: &[u8]) -> (r: Result<(usize, usize), RdbError>)
        ensures
            sized_length(r) == length_code(data@),
    {
        if data.len() == 0 {
            return Err(RdbError::Truncated);
        }
        let b0 = data[0];
        if b0 <= 63 {
            Ok((1, b0 as usize))
        } else if b0 <= 127 {
            if data.len() < 2 {
                return Err(RdbError::Truncated);
            }
            Ok((2, (b0 as usize - 64) * 256 + data[1] as usize))
        } else if b0 <= 191 {
            if data.len() < 4 {
                return Err(RdbError::Truncated);
            }
            Ok((
                4,
                (b0 as usize - 128) * 0x100_0000 + data[1] as usize * 0x1_0000 + data[2] as usize * 0x100
                    + data[3] as usize,
            ))
        } else if b0 <= 253 {
            Ok((1, b0 as usize - 192))
        } else if b0 == 254 {
            if data.len() < 5 {
                return Err(RdbError::Truncated);
            }
            Ok((
                5,
                data[1] as usize + data[2] as usize * 0x100 + data[3] as usize * 0x1_0000
                    + data[4] as usize * 0x100_0000,
            ))
        } else {
            Err(RdbError::InvalidLength)
        }
    }

    /// Decodes the integer code at the start of `data`.
    pub fn decode_integer(&self, data: &[u8]) -> (r: Result<(usize, i64), RdbError>)
        ensures
            sized_int(r) == int_code(data@),
    {
        if data.len() == 0 {
            return Err(RdbError::Truncated);
        }
        let b0 = data[0];
        if b0 == 0xC0 {
            if data.len() < 2 {
                return Err(RdbError::Truncated);
            }
            Ok((2, data[1] as i64))
        } else if b0 == 0xC1 {
            if data.len() < 3 {
                return Err(RdbError::Truncated);
            }
            let u: i64 = data[1] as i64 + data[2] as i64 * 0x100;
            Ok((3, if u >= 0x8000 { u - 0x1_0000 } else { u }))
        } else if b0 == 0xC2 {
            if data.len() < 5 {
                return Err(RdbError::Truncated);
            }
            let u = read_le4(data, 1) as i64;
            Ok((5, if u >= 0x8000_0000 { u - 0x1_0000_0000 } else { u }))
        } else if b0 == 0xC3 {
            if data.len() < 9 {
                return Err(RdbError::Truncated);
            }
            let u = read_le8(data, 1);
            if u >= 0x8000_0000_0000_0000 {
                let high: i64 = (u - 0x8000_0000_0000_0000) as i64;
                Ok((9, high - 0x7fff_ffff_ffff_ffff - 1))
            } else {
                Ok((9, u as i64))
            }
        } else if 192 <= b0 && b0 <= 223 {
            Ok((1, (b0 - 192) as i64))
        } else {
            Err(RdbError::InvalidInteger(b0))
        }
    }

    /// Decodes the length-prefixed byte string at the start of `data`: the bytes
    /// it occupies and its payload.
    pub fn decode_length_encoded_data(&self, data: &[u8]) -> (r: Result<(usize, Vec<u8>), RdbError>)
        ensures
            sized_bytes(r) == string_code(data@),
    {
        let (length_bytes, length) = match self.decode_length(data) {
            Ok(p) => p,
            Err(e) => return Err(e),
        };
        if data.len() - length_bytes < length {
            return Err(RdbError::Truncated);
        }
        let total = length_bytes + length;
        let mut payload: Vec<u8> = Vec::new();
        let mut k: usize = length_bytes;
        while k < total
            invariant
                length_bytes <= k <= total <= data@.len(),
                payload@ == data@.subrange(length_bytes as int, k as int),
            decreases total - k,
        {
            payload.push(data[k]);
            k = k + 1;
            assert(payload@ =~= data@.subrange(length_bytes as int, k as int));
        }
        Ok((total, payload))
    }

    /// Decodes one item of a collection value of type `tag` at position `i`.
    fn decode_element(&self, data: &[u8], i: usize, tag: u8) -> (r: Result<(usize, Vec<u8>), RdbError>)
        requires
            i <= data@.len(),
        ensures
            sized_bytes(r) == element_code(data@, i as nat, tag),
    {
        let len = data.len();
        let (n, mut first) = match self.decode_length_encoded_data(rest_of(data, i)) {
            Ok(p) => p,
            Err(e) => return Err(e),
        };
        proof {
            lemma_codes_bounded(data@.skip(i as int));
        }
        assert(i + n <= len);
        let j = i + n;
        if tag == 3 {
            let (m, score) = match self.decode_length(rest_of(data, j)) {
                Ok(p) => p,
                Err(e) => return Err(e),
            };
            proof {
                lemma_codes_bounded(data@.skip(j as int));
            }
            let ghost head = first@;
            first.push(COLON);
            let mut score_bytes = u64_bytes(score as u64);
            first.append(&mut score_bytes);
            assert(first@ =~= head + seq![COLON] + le_bytes8(score as nat));
            Ok((j + m, first))
        } else if tag == 4 {
            let (m, mut second) = match self.decode_length_encoded_data(rest_of(data, j)) {
                Ok(p) => p,
                Err(e) => return Err(e),
            };
            proof {
                lemma_codes_bounded(data@.skip(j as int));
            }
            let ghost head = first@;
            let ghost tail = second@;
            first.push(COLON);
            first.append(&mut second);
            assert(first@ =~= head + seq![COLON] + tail);
            Ok((j + m, first))
        } else {
            Ok((j, first))
        }
    }

    /// Decodes `count` items of a collection value of type `tag` from position
    /// `i`, joined by commas.
    fn decode_elements(&self, data: &[u8], i: usize, tag: u8, count: usize) -> (r: Result<
        (usize, Vec<u8>),
        RdbError,
    >)
        requires
            i <= data@.len(),
        ensures
            sized_bytes(r) == elements_code(data@, i as nat, tag, count as nat),
    {
        let mut pos = i;
        let mut acc: Vec<u8> = Vec::new();
        let mut k: usize = 0;
        assert(elements_code(data@, i as nat, tag, 0) == Ok::<(nat, Seq<u8>), RdbError>((i as nat, acc@)));
        while k < count
            invariant
                k <= count,
                i <= data@.len(),
                elements_code(data@, i as nat, tag, k as nat) == Ok::<(nat, Seq<u8>), RdbError>(
                    (pos as nat, acc@),
                ),
                pos <= data@.len(),
            decreases count - k,
        {
            proof {
                lemma_elements_bounded(data@, i as nat, tag, k as nat);
            }
            let (next, mut item) = match self.decode_element(data, pos, tag) {
                Ok(p) => p,
                Err(e) => {
                    proof {
                        lemma_elements_error_stays(data@, i as nat, tag, (k + 1) as nat, count as nat);
                    }
                    return Err(e);
                },
            };
            proof {
                lemma_element_bounded(data@, pos as nat, tag);
            }
            let ghost elements_item = item@;
            if k > 0 {
                let ghost before = acc@;
                acc.push(COMMA);
                acc.append(&mut item);
                assert(acc@ =~= before + seq![COMMA] + elements_item);
            } else {
                acc = item;
            }
            pos = next;
            k = k + 1;
        }
        Ok((pos, acc))
    }

    /// Decodes the value of type `tag` at `*index`, moving `*index` past it.
    pub fn decode_value(&self, data: &[u8], value_type: u8, index: &mut usize) -> (r: Result<Vec<u8>, RdbError>)
        requires
            *old(index) <= data@.len(),
        ensures
            match value_code(data@, value_type, *old(index) as nat) {
                Ok((j, v)) => r matches Ok(bytes) && bytes@ == v && *final(index) == j,
                Err(e) => r == Err::<Vec<u8>, RdbError>(e),
            },
    {
        let tag = value_type;
        let i = *index;
        let len = data.len();
        proof {
            lemma_codes_bounded(data@.skip(i as int));
        }
        if tag == 0 {
            let (n, v) = match self.decode_length_encoded_data(rest_of(data, i)) {
                Ok(p) => p,
                Err(e) => return Err(e),
            };
            assert(i + n <= len);
            *index = i + n;
            Ok(v)
        } else if 1 <= tag && tag <= 4 {
            let (n, count) = match self.decode_length(rest_of(data, i)) {
                Ok(p) => p,
                Err(e) => return Err(e),
            };
            assert(i + n <= len);
            let (j, v) = match self.decode_elements(data, i + n, tag, count) {
                Ok(p) => p,
                Err(e) => return Err(e),
            };
            *index = j;
            Ok(v)
        } else if 9 <= tag && tag <= 12 {
            let (n, v) = match self.decode_integer(rest_of(data, i)) {
                Ok(p) => p,
                Err(e) => return Err(e),
            };
            assert(i + n <= len);
            *index = i + n;
            Ok(i64_to_bytes(v))
        } else if tag == 55 || tag == 250 {
            if i < data.len() {
                let mut v: Vec<u8> = Vec::new();
                v.push(data[i]);
                *index = i + 1;
                assert(v@ =~= seq![data@[i as int]]);
                Ok(v)
            } else {
                Err(RdbError::Truncated)
            }
        } else {
            Err(RdbError::UnknownValueType(tag))
        }
    }

    /// Decodes the key/value pair at `*index`, moving `*index` past it.
    fn process_key_value_pair(&self, data: &[u8], index: &mut usize) -> (r: Result<
        (Vec<u8>, Vec<u8>),
        RdbError,
    >)
        requires
            *old(index) <= data@.len(),
        ensures
            match pair_code(data@, *old(index) as nat) {
                Ok((j, key, value)) => r matches Ok((k, v)) && k@ == key && v@ == value
                    && *final(index) == j,
                Err(e) => r matches Err(x) && x == e,
            },
    {
        let i = *index;
        let len = data.len();
        if i >= len {
            return Err(RdbError::Truncated);
        }
        let value_type = data[i];
        proof {
            lemma_codes_bounded(data@.skip(i + 1 as int));
        }
        let (n, key) = match self.decode_length_encoded_data(rest_of(data, i + 1)) {
            Ok(p) => p,
            Err(e) => return Err(e),
        };
        let mut pos = i + 1 + n;
        let value = match self.decode_value(data, value_type, &mut pos) {
            Ok(v) => v,
            Err(e) => return Err(e),
        };
        *index = pos;
        Ok((key, value))
    }

    /// Decodes the entries section that `data` starts with, up to the end
    /// marker 0xFF or the end of `data`: the entries without expiry and those
    /// with one, each in the order found.
    pub fn process_entries(&self, data: &[u8]) -> (r: Result<
        (Vec<(Vec<u8>, Vec<u8>)>, Vec<(Vec<u8>, Vec<u8>, u64)>),
        RdbError,
    >)
        ensures
            match entries_from(data@, 0, Seq::empty(), Seq::empty()) {
                Ok((plain, timed)) => r matches Ok((p, t)) && pairs_view(p@) == plain
                    && timed_view(t@) == timed,
                Err(e) => r matches Err(x) && x == e,
            },
    {
        let len = data.len();
        let mut plain: Vec<(Vec<u8>, Vec<u8>)> = Vec::new();
        let mut timed: Vec<(Vec<u8>, Vec<u8>, u64)> = Vec::new();
        let mut index: usize = 0;
        assert(pairs_view(plain@) =~= Seq::<PairView>::empty());
        assert(timed_view(timed@) =~= Seq::<TimedView>::empty());
        while index < len
            invariant
                len == data@.len(),
                index <= len,
                entries_from(data@, index as nat, pairs_view(plain@), timed_view(timed@))
                    == entries_from(data@, 0, Seq::empty(), Seq::empty()),
            decreases len - index,
        {
            let b = data[index];
            if b == 0xFF {
                return Ok((plain, timed));
            } else if b == 0xFE {
                let mut j: usize = if len - index >= 2 {
                    index + 2
                } else {
                    len
                };
                if j < len && data[j] == 0xFB {
                    proof {
                        lemma_codes_bounded(data@.skip(j + 1 as int));
                    }
                    let (n1, _) = match self.decode_length(rest_of(data, j + 1)) {
                        Ok(p) => p,
                        Err(e) => return Err(e),
                    };
                    proof {
                        lemma_codes_bounded(data@.skip(j + 1 + n1 as int));
                    }
                    let (n2, _) = match self.decode_length(rest_of(data, j + 1 + n1)) {
                        Ok(p) => p,
                        Err(e) => return Err(e),
                    };
                    j = j + 1 + n1 + n2;
                }
                index = j;
            } else if b == 0xFD || b == 0xFC {
                let width: usize = if b == 0xFD {
                    4
                } else {
                    8
                };
                if len - index < 1 + width {
                    return Err(RdbError::Truncated);
                }
                let expiry: u64 = if b == 0xFD {
                    read_le4(data, index + 1) * 1000
                } else {
                    read_le8(data, index + 1)
                };
                let mut pos = index + 1 + width;
                proof {
                    lemma_pair_bounded(data@, pos as nat);
                }
                let (key, value) = match self.process_key_value_pair(data, &mut pos) {
                    Ok(p) => p,
                    Err(e) => return Err(e),
                };
                let ghost before = timed_view(timed@);
                let ghost item = (key@, value@, expiry as nat);
                timed.push((key, value, expiry));
                assert(timed_view(timed@) =~= before.push(item));
                index = pos;
            } else {
                let mut pos = index;
                proof {
                    lemma_pair_bounded(data@, pos as nat);
                }
                let (key, value) = match self.process_key_value_pair(data, &mut pos) {
                    Ok(p) => p,
                    Err(e) => return Err(e),
                };
                let ghost before = pairs_view(plain@);
                let ghost item = (key@, value@);
                plain.push((key, value));
                assert(pairs_view(plain@) =~= before.push(item));
                index = pos;
            }
        }
        Ok((plain, timed))
    }

    /// Checks the magic "REDIS" at the start of `data` and reads the format
    /// version from the four bytes after it.
    pub fn parse_rdb_version(&self, data: &[u8]) -> (r: Result<u32, RdbError>)
        ensures
            match version_code(data@) {
                Ok(v) => r matches Ok(x) && x == v,
                Err(e) => r matches Err(x) && x == e,
            },
    {
        if data.len() < 9 {
            return Err(RdbError::Truncated);
        }
        if !(data[0] == 82 && data[1] == 69 && data[2] == 68 && data[3] == 73 && data[4] == 83) {
            assert(data@.subrange(0, 5) != magic()) by {
                if data@.subrange(0, 5) == magic() {
                    assert(data@.subrange(0, 5)[0] == data@[0]);
                    assert(data@.subrange(0, 5)[1] == data@[1]);
                    assert(data@.subrange(0, 5)[2] == data@[2]);
                    assert(data@.subrange(0, 5)[3] == data@[3]);
                    assert(data@.subrange(0, 5)[4] == data@[4]);
                }
            }
            return Err(RdbError::BadMagic);
        }
        assert(data@.subrange(0, 5) =~= magic());
        let d5 = data[5];
        let d6 = data[6];
        let d7 = data[7];
        let d8 = data[8];
        let tail_digits = 48 <= d6 && d6 <= 57 && 48 <= d7 && d7 <= 57 && 48 <= d8 && d8 <= 57;
        if tail_digits && 48 <= d5 && d5 <= 57 {
            Ok((d5 - 48) as u32 * 1000 + (d6 - 48) as u32 * 100 + (d7 - 48) as u32 * 10 + (d8
                - 48) as u32)
        } else if tail_digits && d5 == 43 {
            Ok((d6 - 48) as u32 * 100 + (d7 - 48) as u32 * 10 + (d8 - 48) as u32)
        } else {
            Err(RdbError::BadVersion)
        }
    }

    /// Reads the auxiliary fields that start at byte 9 of `data`: the fields
    /// and the position of the first byte after them.
    pub fn parse_auxiliary_fields(&self, data: &[u8]) -> (r: Result<
        (DashMap<String, AuxValue>, usize),
        RdbError,
    >)
        ensures
            match aux_from(data@, 9, Map::empty()) {
                Ok((i, fields)) => r matches Ok((m, j)) && aux_contents(m) == fields && j == i,
                Err(e) => r matches Err(x) && x == e,
            },
    {
        let len = data.len();
        let mut fields = new_aux_map();
        let mut index: usize = 9;
        while index < len && data[index] == 0xFA
            invariant
                len == data@.len(),
                9 <= index,
                index <= len || index == 9,
                aux_from(data@, index as nat, aux_contents(fields)) == aux_from(
                    data@,
                    9,
                    Map::empty(),
                ),
            decreases len - index,
        {
            let start = index + 1;
            proof {
                lemma_codes_bounded(data@.skip(start as int));
            }
            let (n, name) = match self.decode_length_encoded_data(rest_of(data, start)) {
                Ok(p) => p,
                Err(e) => return Err(e),
            };
            let key = match utf8_text(name.as_slice()) {
                None => return Err(RdbError::InvalidUtf8Key),
                Some(text) => {
                    proof {
                        encode_utf8_decode_utf8(text@);
                    }
                    text.to_owned()
                },
            };
            let j = start + n;
            if j >= len {
                return Err(RdbError::Truncated);
            }
            let b = data[j];
            proof {
                lemma_codes_bounded(data@.skip(j as int));
            }
            if 192 <= b && b <= 223 {
                let (m, v) = match self.decode_integer(rest_of(data, j)) {
                    Ok(p) => p,
                    Err(e) => return Err(e),
                };
                aux_insert(&mut fields, key, AuxValue::Integer(v));
                index = j + m;
            } else {
                let (m, v) = match self.decode_length_encoded_data(rest_of(data, j)) {
                    Ok(p) => p,
                    Err(e) => return Err(e),
                };
                aux_insert(&mut fields, key, AuxValue::String(latin1_string(&v)));
                index = j + m;
            }
        }
        Ok((fields, index))
    }

    /// Decodes the whole snapshot: header, auxiliary fields and entries. On
    /// success the decoder holds what was decoded; on failure it is left as
    /// it was, so that no partial result is ever taken for a whole one.
    pub fn parse(&mut self) -> (r: Result<(), RdbError>)
        ensures
            final(self).spec_data() == old(self).spec_data(),
            match snapshot_code(old(self).spec_data()) {
                Ok(snap) => {
                    &&& r is Ok
                    &&& final(self).spec_version() == snap.version
                    &&& final(self).spec_aux() == snap.aux
                    &&& final(self).spec_entries() == snap.entries
                    &&& final(self).spec_expiry_entries() == snap.expiry_entries
                },
                Err(e) => r matches Err(x) && x == e && *final(self) == *old(self),
            },
    {
        let version = match self.parse_rdb_version(self.data.as_slice()) {
            Ok(v) => v,
            Err(e) => return Err(e),
        };
        let (aux, index) = match self.parse_auxiliary_fields(self.data.as_slice()) {
            Ok(p) => p,
            Err(e) => return Err(e),
        };
        proof {
            lemma_aux_bounded(self.data@, 9, Map::empty());
        }
        let (entries, expiry_entries) = match self.process_entries(
            rest_of(self.data.as_slice(), index),
        ) {
            Ok(p) => p,
            Err(e) => return Err(e),
        };
        self.rdb_version = version;
        self.aux_fields = aux;
        self.entries = entries;
        self.expiry_entries = expiry_entries;
        Ok(())
    }

    /// The text of `value`: well-formed UTF-8 is decoded, anything else is
    /// replaced. Relies on `String::from_utf8_lossy`, which decodes well-formed
    /// UTF-8 unchanged.
    #[verifier::external_body]
    pub fn stringify(value: &[u8]) -> (r: String)
        ensures
            r@ == lossy_text(value@),
            valid_utf8(value@) ==> r@ == decode_utf8(value@),
    {
        String::from_utf8_lossy(value).into_owned()
    }

    /// The decoded format version.
    pub fn rdb_version(&self) -> (r: u32)
        ensures
            r == self.spec_version(),
    {
        self.rdb_version
    }

    /// The decoded entries without expiry, in file order.
    pub fn entries(&self) -> (r: &Vec<(Vec<u8>, Vec<u8>)>)
        ensures
            pairs_view(r@) == self.spec_entries(),
    {
        &self.entries
    }

    /// The decoded entries with an expiry (milliseconds since the Unix
    /// epoch), in file order.
    pub fn expiry_entries(&self) -> (r: &Vec<(Vec<u8>, Vec<u8>, u64)>)
        ensures
            timed_view(r@) == self.spec_expiry_entries(),
    {
        &self.expiry_entries
    }

    /// The decoded auxiliary field of that name, if any.
    pub fn aux_field(&self, name: &str) -> (r: Option<AuxValue>)
        ensures
            r is Some <==> self.spec_aux().contains_key(name@),
            r matches Some(v) ==> v@ == self.spec_aux()[name@],
    {
        aux_get(&self.aux_fields, name)
    }

    /// All decoded auxiliary fields.
    pub fn aux_fields(&self) -> (r: &DashMap<String, AuxValue>)
        ensures
            aux_contents(*r) == self.spec_aux(),
    {
        &self.aux_fields
    }
}

/// The boundaries of the length code: byte 63 is a one-byte length of 63;
/// byte 64 and any second byte form a two-byte length of that byte; byte 254
/// needs four more bytes, which it reads little-endian, and fails as
/// truncated without them; byte 255 always fails.
pub proof fn law_length_boundaries(rest: Seq<u8>, b1: u8)
    ensures
        length_code(seq![63u8] + rest) == Ok::<(nat, nat), RdbError>((1, 63)),
        length_code(seq![64u8, b1] + rest) == Ok::<(nat, nat), RdbError>((2, b1 as nat)),
        rest.len() < 4 ==> length_code(seq![254u8] + rest) == Err::<(nat, nat), RdbError>(
            RdbError::Truncated,
        ),
        rest.len() >= 4 ==> length_code(seq![254u8] + rest) == Ok::<(nat, nat), RdbError>(
            (5, le4(rest, 0)),
        ),
        length_code(seq![255u8] + rest) == Err::<(nat, nat), RdbError>(RdbError::InvalidLength),
{
    assert((seq![63u8] + rest)[0] == 63u8);
    assert((seq![64u8, b1] + rest)[0] == 64u8);
    assert((seq![64u8, b1] + rest)[1] == b1);
    assert((seq![255u8] + rest)[0] == 255u8);
    let s = seq![254u8] + rest;
    assert(s[0] == 254u8);
    if rest.len() >= 4 {
        assert(s[1] == rest[0] && s[2] == rest[1] && s[3] == rest[2] && s[4] == rest[3]);
    }
}

} // verus!
