//! Reading pre-packed file payloads.
//!
//! A pre-packed payload is a base64 text whose decoded bytes hold exactly
//! one MessagePack value of the shapes a JSON document can hold: nil,
//! booleans, integers, floats, strings, arrays, and maps whose keys are
//! strings. Binary and extension values are rejected, as is the reserved
//! tag. The ingestion pipeline needs two things from a payload: whether it
//! is well formed, and its key count — the count of distinct keys of the
//! map bound to the key "raw" (its last such entry, since a repeated key
//! overwrites its earlier binding) when the top-level value is a map with
//! such an entry, else the distinct key count of the top-level map, else
//! zero. The MessagePack structure is read by this module's own verified
//! code; only the base64 decoding is an outside call.
//!
//! Format reference: one value starts with a tag byte. Tags 0x00-0x7f and
//! 0xe0-0xff are one-byte integers; 0x80-0x8f, 0xde, 0xdf are maps;
//! 0x90-0x9f, 0xdc, 0xdd are arrays; 0xa0-0xbf, 0xd9-0xdb are strings;
//! 0xc0 nil; 0xc2/0xc3 booleans; 0xca/0xcb floats; 0xcc-0xd3 sized
//! integers; 0xc4-0xc9 and 0xd4-0xd8 are binary and extension values,
//! which this format refuses; 0xc1 is never valid. Length fields are
//! big-endian.

use vstd::prelude::*;
use base64::Engine;

verus! {

/// What base64 decoding (standard alphabet, canonical padding) of a text
/// yields: the bytes, or nothing when the text is not valid base64.
pub uninterp spec fn base64_decoded(s: Seq<char>) -> Option<Seq<u8>>;

/// Relies on the base64 crate's STANDARD engine: `decode` is a pure
/// function of the input text, succeeding exactly on canonical
/// standard-alphabet base64.
#[verifier::external_body]
pub fn decode_base64(s: &str) -> (r: Option<Vec<u8>>)
    ensures
        r is Some <==> base64_decoded(s@) is Some,
        r is Some ==> r.unwrap()@ == base64_decoded(s@).unwrap(),
{
    base64::engine::general_purpose::STANDARD.decode(s).ok()
}

/// A big-endian 16-bit length field.
pub open spec fn be16(b: Seq<u8>, pos: int) -> nat
    recommends
        0 <= pos,
        pos + 2 <= b.len(),
{
    (b[pos] as nat) * 0x100 + (b[pos + 1] as nat)
}

/// A big-endian 32-bit length field.
pub open spec fn be32(b: Seq<u8>, pos: int) -> nat
    recommends
        0 <= pos,
        pos + 4 <= b.len(),
{
    (b[pos] as nat) * 0x1000000 + (b[pos + 1] as nat) * 0x10000 + (b[pos + 2] as nat) * 0x100 + (b[
        pos + 3
    ] as nat)
}

/// The position just after the single MessagePack value starting at `pos`,
/// or `None` when no well-formed value of an accepted shape starts there.
pub open spec fn end_of_value(b: Seq<u8>, pos: int) -> Option<int>
    decreases b.len() - pos, 0int,
{
    if pos < 0 || pos >= b.len() {
        None
    } else {
        let tag = b[pos];
        if tag <= 0x7f {  // positive fixint
            Some(pos + 1)
        } else if tag <= 0x8f {  // fixmap
            end_of_entries(b, pos + 1, (tag & 0x0f) as nat)
        } else if tag <= 0x9f {  // fixarray
            end_of_values(b, pos + 1, (tag & 0x0f) as nat)
        } else if tag <= 0xbf {  // fixstr
            let l = (tag & 0x1f) as int;
            if pos + 1 + l <= b.len() {
                Some(pos + 1 + l)
            } else {
                None
            }
        } else if tag == 0xc0 || tag == 0xc2 || tag == 0xc3 {  // nil, booleans
            Some(pos + 1)
        } else if tag == 0xca {  // float 32
            if pos + 5 <= b.len() {
                Some(pos + 5)
            } else {
                None
            }
        } else if tag == 0xcb {  // float 64
            if pos + 9 <= b.len() {
                Some(pos + 9)
            } else {
                None
            }
        } else if tag == 0xcc || tag == 0xd0 {  // uint 8 / int 8
            if pos + 2 <= b.len() {
                Some(pos + 2)
            } else {
                None
            }
        } else if tag == 0xcd || tag == 0xd1 {  // uint 16 / int 16
            if pos + 3 <= b.len() {
                Some(pos + 3)
            } else {
                None
            }
        } else if tag == 0xce || tag == 0xd2 {  // uint 32 / int 32
            if pos + 5 <= b.len() {
                Some(pos + 5)
            } else {
                None
            }
        } else if tag == 0xcf || tag == 0xd3 {  // uint 64 / int 64
            if pos + 9 <= b.len() {
                Some(pos + 9)
            } else {
                None
            }
        } else if tag == 0xd9 {  // str 8
            if pos + 2 <= b.len() && pos + 2 + (b[pos + 1] as int) <= b.len() {
                Some(pos + 2 + (b[pos + 1] as int))
            } else {
                None
            }
        } else if tag == 0xda {  // str 16
            if pos + 3 <= b.len() && pos + 3 + be16(b, pos + 1) <= b.len() {
                Some(pos + 3 + be16(b, pos + 1) as int)
            } else {
                None
            }
        } else if tag == 0xdb {  // str 32
            if pos + 5 <= b.len() && pos + 5 + be32(b, pos + 1) <= b.len() {
                Some(pos + 5 + be32(b, pos + 1) as int)
            } else {
                None
            }
        } else if tag == 0xdc {  // array 16
            if pos + 3 <= b.len() {
                end_of_values(b, pos + 3, be16(b, pos + 1))
            } else {
                None
            }
        } else if tag == 0xdd {  // array 32
            if pos + 5 <= b.len() {
                end_of_values(b, pos + 5, be32(b, pos + 1))
            } else {
                None
            }
        } else if tag == 0xde {  // map 16
            if pos + 3 <= b.len() {
                end_of_entries(b, pos + 3, be16(b, pos + 1))
            } else {
                None
            }
        } else if tag == 0xdf {  // map 32
            if pos + 5 <= b.len() {
                end_of_entries(b, pos + 5, be32(b, pos + 1))
            } else {
                None
            }
        } else if tag >= 0xe0 {  // negative fixint
            Some(pos + 1)
        } else {  // 0xc1, binary (0xc4-0xc6) and extensions (0xc7-0xc9, 0xd4-0xd8)
            None
        }
    }
}

/// The position just after `n` consecutive MessagePack values starting at
/// `pos`, or `None` when any of them is malformed.
pub open spec fn end_of_values(b: Seq<u8>, pos: int, n: nat) -> Option<int>
    decreases b.len() - pos, n,
{
    if n == 0 {
        Some(pos)
    } else {
        match end_of_value(b, pos) {
            None => None,
            Some(p2) => if pos < p2 <= b.len() {
                end_of_values(b, p2, (n - 1) as nat)
            } else {
                None
            },
        }
    }
}

/// The position just after `n` consecutive map entries starting at `pos` —
/// each a string key followed by a value — or `None` when any entry is
/// malformed or keyed by anything but a string.
pub open spec fn end_of_entries(b: Seq<u8>, pos: int, n: nat) -> Option<int>
    decreases b.len() - pos, n,
{
    if n == 0 {
        Some(pos)
    } else {
        match str_header(b, pos) {
            None => None,
            Some((s, l)) => {
                let key_end = s + l;
                if pos < key_end <= b.len() {
                    match end_of_value(b, key_end) {
                        None => None,
                        Some(val_end) => if pos < val_end <= b.len() {
                            end_of_entries(b, val_end, (n - 1) as nat)
                        } else {
                            None
                        },
                    }
                } else {
                    None
                }
            },
        }
    }
}

/// The entry count and body position of a map value starting at `pos`, when
/// a map header starts there.
pub open spec fn map_header(b: Seq<u8>, pos: int) -> Option<(nat, int)> {
    if pos < 0 || pos >= b.len() {
        None
    } else {
        let tag = b[pos];
        if 0x80 <= tag <= 0x8f {
            Some((((tag & 0x0f) as nat), pos + 1))
        } else if tag == 0xde && pos + 3 <= b.len() {
            Some((be16(b, pos + 1), pos + 3))
        } else if tag == 0xdf && pos + 5 <= b.len() {
            Some((be32(b, pos + 1), pos + 5))
        } else {
            None
        }
    }
}

/// The content position and byte length of a string value starting at
/// `pos`, when a complete string starts there.
pub open spec fn str_header(b: Seq<u8>, pos: int) -> Option<(int, nat)> {
    if pos < 0 || pos >= b.len() {
        None
    } else {
        let tag = b[pos];
        if 0xa0 <= tag <= 0xbf {
            let l = (tag & 0x1f) as nat;
            if pos + 1 + l <= b.len() {
                Some((pos + 1, l))
            } else {
                None
            }
        } else if tag == 0xd9 {
            if pos + 2 <= b.len() && pos + 2 + (b[pos + 1] as int) <= b.len() {
                Some((pos + 2, b[pos + 1] as nat))
            } else {
                None
            }
        } else if tag == 0xda {
            if pos + 3 <= b.len() && pos + 3 + be16(b, pos + 1) <= b.len() {
                Some((pos + 3, be16(b, pos + 1)))
            } else {
                None
            }
        } else if tag == 0xdb {
            if pos + 5 <= b.len() && pos + 5 + be32(b, pos + 1) <= b.len() {
                Some((pos + 5, be32(b, pos + 1)))
            } else {
                None
            }
        } else {
            None
        }
    }
}

/// Whether the value starting at `pos` is the three-byte string "raw".
pub open spec fn is_raw_key(b: Seq<u8>, pos: int) -> bool {
    match str_header(b, pos) {
        Some((s, l)) => l == 3 && b[s] == 0x72 && b[s + 1] == 0x61 && b[s + 2] == 0x77,
        None => false,
    }
}

/// The value position of the last of `n` map entries from `pos` whose key
/// is "raw" — the binding a repeated key leaves in force.
pub open spec fn last_raw_value(b: Seq<u8>, pos: int, n: nat) -> Option<int>
    decreases n,
{
    if n == 0 {
        None
    } else {
        match end_of_value(b, pos) {
            None => None,
            Some(key_end) => match end_of_value(b, key_end) {
                None => None,
                Some(val_end) => match last_raw_value(b, val_end, (n - 1) as nat) {
                    Some(p) => Some(p),
                    None => if is_raw_key(b, pos) {
                        Some(key_end)
                    } else {
                        None
                    },
                },
            },
        }
    }
}

/// The wire spans (content position, byte length) of the keys of `n` map
/// entries starting at `pos`.
pub open spec fn entry_key_spans(b: Seq<u8>, pos: int, n: nat) -> Option<Seq<(int, nat)>>
    decreases n,
{
    if n == 0 {
        Some(Seq::empty())
    } else {
        match str_header(b, pos) {
            None => None,
            Some((s, l)) => match end_of_value(b, s + l) {
                None => None,
                Some(val_end) => match entry_key_spans(b, val_end, (n - 1) as nat) {
                    None => None,
                    Some(rest) => Some(seq![(s, l)] + rest),
                },
            },
        }
    }
}

/// The key texts the spans point at, as wire bytes.
pub open spec fn span_bytes(b: Seq<u8>, spans: Seq<(int, nat)>) -> Seq<Seq<u8>> {
    spans.map_values(|p: (int, nat)| b.subrange(p.0, p.0 + p.1))
}

/// How many distinct byte strings a sequence holds.
pub open spec fn distinct_count(keys: Seq<Seq<u8>>) -> nat
    decreases keys.len(),
{
    if keys.len() == 0 {
        0
    } else {
        distinct_count(keys.drop_last()) + (if keys.drop_last().contains(keys.last()) {
            0nat
        } else {
            1nat
        })
    }
}

/// The distinct key count of the map whose `n` entries start at `pos`.
pub open spec fn map_distinct_keys(b: Seq<u8>, pos: int, n: nat) -> Option<nat> {
    match entry_key_spans(b, pos, n) {
        None => None,
        Some(spans) => Some(distinct_count(span_bytes(b, spans))),
    }
}

/// The key count of a packed payload: the bytes must hold exactly one
/// accepted MessagePack value; the count is the distinct key count of the
/// map that the last "raw" entry of the top-level map binds, when there is
/// one, else the top-level map's distinct key count, else zero.
#[verifier::opaque]
pub open spec fn packed_key_count_of(b: Seq<u8>) -> Option<nat> {
    match end_of_value(b, 0) {
        None => None,
        Some(end) => if end != b.len() {
            None
        } else {
            match map_header(b, 0) {
                None => Some(0),
                Some((n, body)) => match last_raw_value(b, body, n) {
                    Some(vpos) => match map_header(b, vpos) {
                        Some((m, mbody)) => map_distinct_keys(b, mbody, m),
                        None => map_distinct_keys(b, body, n),
                    },
                    None => map_distinct_keys(b, body, n),
                },
            }
        },
    }
}

/// Read a big-endian 16-bit length field.
fn read_be16(b: &[u8], pos: usize) -> (r: u64)
    requires
        pos + 2 <= b@.len(),
    ensures
        r == be16(b@, pos as int),
{
    (b[pos] as u64) * 0x100 + (b[pos + 1] as u64)
}

/// Read a big-endian 32-bit length field.
fn read_be32(b: &[u8], pos: usize) -> (r: u64)
    requires
        pos + 4 <= b@.len(),
    ensures
        r == be32(b@, pos as int),
{
    (b[pos] as u64) * 0x1000000 + (b[pos + 1] as u64) * 0x10000 + (b[pos + 2] as u64) * 0x100 + (
    b[pos + 3] as u64)
}

/// Walk one MessagePack value; the position just after it.
fn end_of_value_at(b: &[u8], pos: usize) -> (r: Option<usize>)
    ensures
        r is None ==> end_of_value(b@, pos as int) is None,
        r is Some ==> end_of_value(b@, pos as int) == Some(r.unwrap() as int),
    decreases b@.len() - pos, 0int,
{
    if pos >= b.len() {
        return None;
    }
    let tag = b[pos];
    let avail = b.len() - pos;
    if tag <= 0x7f {
        Some(pos + 1)
    } else if tag <= 0x8f {
        end_of_entries_at(b, pos + 1, (tag & 0x0f) as u64)
    } else if tag <= 0x9f {
        end_of_values_at(b, pos + 1, (tag & 0x0f) as u64)
    } else if tag <= 0xbf {
        let l = (tag & 0x1f) as usize;
        if l <= avail - 1 {
            Some(pos + 1 + l)
        } else {
            None
        }
    } else if tag == 0xc0 || tag == 0xc2 || tag == 0xc3 {
        Some(pos + 1)
    } else if tag == 0xca {
        if avail >= 5 {
            Some(pos + 5)
        } else {
            None
        }
    } else if tag == 0xcb {
        if avail >= 9 {
            Some(pos + 9)
        } else {
            None
        }
    } else if tag == 0xcc || tag == 0xd0 {
        if avail >= 2 {
            Some(pos + 2)
        } else {
            None
        }
    } else if tag == 0xcd || tag == 0xd1 {
        if avail >= 3 {
            Some(pos + 3)
        } else {
            None
        }
    } else if tag == 0xce || tag == 0xd2 {
        if avail >= 5 {
            Some(pos + 5)
        } else {
            None
        }
    } else if tag == 0xcf || tag == 0xd3 {
        if avail >= 9 {
            Some(pos + 9)
        } else {
            None
        }
    } else if tag == 0xd9 {
        if avail >= 2 && (b[pos + 1] as usize) <= avail - 2 {
            Some(pos + 2 + (b[pos + 1] as usize))
        } else {
            None
        }
    } else if tag == 0xda {
        if avail >= 3 {
            let l = read_be16(b, pos + 1);
            if l <= (avail - 3) as u64 {
                Some(pos + 3 + (l as usize))
            } else {
                None
            }
        } else {
            None
        }
    } else if tag == 0xdb {
        if avail >= 5 {
            let l = read_be32(b, pos + 1);
            if l <= (avail - 5) as u64 {
                Some(pos + 5 + (l as usize))
            } else {
                None
            }
        } else {
            None
        }
    } else if tag == 0xdc {
        if avail >= 3 {
            let n = read_be16(b, pos + 1);
            end_of_values_at(b, pos + 3, n)
        } else {
            None
        }
    } else if tag == 0xdd {
        if avail >= 5 {
            let n = read_be32(b, pos + 1);
            end_of_values_at(b, pos + 5, n)
        } else {
            None
        }
    } else if tag == 0xde {
        if avail >= 3 {
            let n = read_be16(b, pos + 1);
            end_of_entries_at(b, pos + 3, n)
        } else {
            None
        }
    } else if tag == 0xdf {
        if avail >= 5 {
            let n = read_be32(b, pos + 1);
            end_of_entries_at(b, pos + 5, n)
        } else {
            None
        }
    } else if tag >= 0xe0 {
        Some(pos + 1)
    } else {
        None
    }
}

/// Walk `n` consecutive MessagePack values.
fn end_of_values_at(b: &[u8], pos: usize, n: u64) -> (r: Option<usize>)
    ensures
        r is None ==> end_of_values(b@, pos as int, n as nat) is None,
        r is Some ==> end_of_values(b@, pos as int, n as nat) == Some(r.unwrap() as int),
    decreases b@.len() - pos, n,
{
    if n == 0 {
        return Some(pos);
    }
    match end_of_value_at(b, pos) {
        None => None,
        Some(p2) => {
            if pos < p2 && p2 <= b.len() {
                end_of_values_at(b, p2, n - 1)
            } else {
                None
            }
        },
    }
}

/// Walk `n` consecutive string-keyed map entries.
fn end_of_entries_at(b: &[u8], pos: usize, n: u64) -> (r: Option<usize>)
    ensures
        r is None ==> end_of_entries(b@, pos as int, n as nat) is None,
        r is Some ==> end_of_entries(b@, pos as int, n as nat) == Some(r.unwrap() as int),
    decreases b@.len() - pos, n,
{
    if n == 0 {
        return Some(pos);
    }
    let blen = b.len();
    match str_header_at(b, pos) {
        None => None,
        Some((s, l)) => {
            let key_end = s + l;
            if pos < key_end && key_end <= blen {
                match end_of_value_at(b, key_end) {
                    None => None,
                    Some(val_end) => {
                        if pos < val_end && val_end <= b.len() {
                            end_of_entries_at(b, val_end, n - 1)
                        } else {
                            None
                        }
                    },
                }
            } else {
                None
            }
        },
    }
}

/// Read a map header.
fn map_header_at(b: &[u8], pos: usize) -> (r: Option<(u64, usize)>)
    ensures
        r is None ==> map_header(b@, pos as int) is None,
        r is Some ==> map_header(b@, pos as int) == Some(
            (r.unwrap().0 as nat, r.unwrap().1 as int),
        ),
{
    if pos >= b.len() {
        return None;
    }
    let tag = b[pos];
    let avail = b.len() - pos;
    if 0x80 <= tag && tag <= 0x8f {
        Some((((tag & 0x0f) as u64), pos + 1))
    } else if tag == 0xde && avail >= 3 {
        Some((read_be16(b, pos + 1), pos + 3))
    } else if tag == 0xdf && avail >= 5 {
        Some((read_be32(b, pos + 1), pos + 5))
    } else {
        None
    }
}

/// Read a string header.
fn str_header_at(b: &[u8], pos: usize) -> (r: Option<(usize, usize)>)
    ensures
        r is None ==> str_header(b@, pos as int) is None,
        r is Some ==> str_header(b@, pos as int) == Some(
            (r.unwrap().0 as int, r.unwrap().1 as nat),
        ),
        r is Some ==> r.unwrap().0 + r.unwrap().1 <= b@.len(),
{
    if pos >= b.len() {
        return None;
    }
    let tag = b[pos];
    let avail = b.len() - pos;
    if 0xa0 <= tag && tag <= 0xbf {
        let l = (tag & 0x1f) as usize;
        if l <= avail - 1 {
            Some((pos + 1, l))
        } else {
            None
        }
    } else if tag == 0xd9 {
        if avail >= 2 && (b[pos + 1] as usize) <= avail - 2 {
            Some((pos + 2, b[pos + 1] as usize))
        } else {
            None
        }
    } else if tag == 0xda {
        if avail >= 3 {
            let l = read_be16(b, pos + 1);
            if l <= (avail - 3) as u64 {
                Some((pos + 3, l as usize))
            } else {
                None
            }
        } else {
            None
        }
    } else if tag == 0xdb {
        if avail >= 5 {
            let l = read_be32(b, pos + 1);
            if l <= (avail - 5) as u64 {
                Some((pos + 5, l as usize))
            } else {
                None
            }
        } else {
            None
        }
    } else {
        None
    }
}

/// Whether the value starting at `pos` is the string "raw".
fn is_raw_key_at(b: &[u8], pos: usize) -> (r: bool)
    ensures
        r == is_raw_key(b@, pos as int),
{
    match str_header_at(b, pos) {
        None => false,
        Some((s, l)) => l == 3 && b[s] == 0x72 && b[s + 1] == 0x61 && b[s + 2] == 0x77,
    }
}

/// Find the value of the last "raw" entry among `n` map entries.
fn last_raw_value_at(b: &[u8], pos: usize, n: u64) -> (r: Option<usize>)
    ensures
        r is None ==> last_raw_value(b@, pos as int, n as nat) is None,
        r is Some ==> last_raw_value(b@, pos as int, n as nat) == Some(r.unwrap() as int),
    decreases n,
{
    if n == 0 {
        return None;
    }
    match end_of_value_at(b, pos) {
        None => None,
        Some(key_end) => match end_of_value_at(b, key_end) {
            None => None,
            Some(val_end) => match last_raw_value_at(b, val_end, n - 1) {
                Some(p) => Some(p),
                None => {
                    if is_raw_key_at(b, pos) {
                        Some(key_end)
                    } else {
                        None
                    }
                },
            },
        },
    }
}

/// The mathematical spans of an executable span list.
pub open spec fn spans_view(v: Seq<(usize, usize)>) -> Seq<(int, nat)> {
    v.map_values(|p: (usize, usize)| ((p.0 as int), (p.1 as nat)))
}

/// Collect the key spans of `n` map entries.
fn entry_key_spans_at(b: &[u8], pos: usize, n: u64) -> (r: Option<Vec<(usize, usize)>>)
    ensures
        r is None ==> entry_key_spans(b@, pos as int, n as nat) is None,
        r is Some ==> entry_key_spans(b@, pos as int, n as nat) == Some(spans_view(r.unwrap()@)),
        r is Some ==> forall|i: int|
            0 <= i < r.unwrap()@.len() ==> (#[trigger] r.unwrap()@[i]).0 + r.unwrap()@[i].1
                <= b@.len(),
    decreases n,
{
    if n == 0 {
        let v: Vec<(usize, usize)> = Vec::new();
        proof {
            assert(spans_view(v@) =~= Seq::<(int, nat)>::empty());
        }
        return Some(v);
    }
    let ghost blen = b@.len();
    proof {
        assert(blen == b.len());
    }
    match str_header_at(b, pos) {
        None => None,
        Some((s, l)) => match end_of_value_at(b, s + l) {
            None => None,
            Some(val_end) => match entry_key_spans_at(b, val_end, n - 1) {
                None => None,
                Some(rest) => {
                    let ghost rest0 = rest@;
                    let mut out = rest;
                    out.insert(0, (s, l));
                    proof {
                        assert(out@ =~= seq![(s, l)] + rest0);
                        assert(spans_view(out@) =~= seq![((s as int), (l as nat))] + spans_view(
                            rest0,
                        ));
                    }
                    Some(out)
                },
            },
        },
    }
}

/// Whether two wire spans hold the same bytes.
fn span_eq(b: &[u8], s1: usize, l1: usize, s2: usize, l2: usize) -> (r: bool)
    requires
        s1 + l1 <= b@.len(),
        s2 + l2 <= b@.len(),
    ensures
        r == (b@.subrange(s1 as int, s1 + l1) == b@.subrange(s2 as int, s2 + l2)),
{
    if l1 != l2 {
        proof {
            assert(b@.subrange(s1 as int, s1 + l1).len() == l1);
            assert(b@.subrange(s2 as int, s2 + l2).len() == l2);
        }
        return false;
    }
    proof {
        assert(b@.len() == b.len());
    }
    let mut k: usize = 0;
    while k < l1
        invariant
            l1 == l2,
            s1 + l1 <= b@.len(),
            s2 + l2 <= b@.len(),
            b@.len() <= usize::MAX,
            k <= l1,
            forall|m: int| 0 <= m < k ==> #[trigger] b@[s1 + m] == b@[s2 + m],
        decreases l1 - k,
    {
        if b[s1 + k] != b[s2 + k] {
            proof {
                assert(b@.subrange(s1 as int, s1 + l1)[k as int] == b@[s1 + k]);
                assert(b@.subrange(s2 as int, s2 + l2)[k as int] == b@[s2 + k]);
            }
            return false;
        }
        k += 1;
    }
    proof {
        assert forall|m: int| 0 <= m < l1 implies #[trigger] b@.subrange(s1 as int, s1 + l1)[m]
            == b@.subrange(s2 as int, s2 + l2)[m] by {
            assert(b@[s1 + m] == b@[s2 + m]);
        }
        assert(b@.subrange(s1 as int, s1 + l1) =~= b@.subrange(s2 as int, s2 + l2));
    }
    true
}

/// Count the distinct key texts among the spans.
fn distinct_count_at(b: &[u8], spans: &Vec<(usize, usize)>) -> (c: u64)
    requires
        forall|i: int| 0 <= i < spans@.len() ==> (#[trigger] spans@[i]).0 + spans@[i].1 <= b@.len(),
    ensures
        c as nat == distinct_count(span_bytes(b@, spans_view(spans@))),
{
    let ghost sb = span_bytes(b@, spans_view(spans@));
    let n = spans.len();
    let mut c: u64 = 0;
    proof {
        assert(sb.take(0) =~= Seq::<Seq<u8>>::empty());
    }
    let mut i: usize = 0;
    while i < n
        invariant
            n == spans@.len(),
            sb == span_bytes(b@, spans_view(spans@)),
            sb.len() == n,
            forall|m: int| 0 <= m < n ==> (#[trigger] spans@[m]).0 + spans@[m].1 <= b@.len(),
            i <= n,
            c as nat == distinct_count(sb.take(i as int)),
            c <= i,
        decreases n - i,
    {
        proof {
            assert(sb[i as int] == b@.subrange(
                spans@[i as int].0 as int,
                spans@[i as int].0 + spans@[i as int].1,
            ));
        }
        let mut found = false;
        let mut j: usize = 0;
        while j < i
            invariant
                i < n,
                n == spans@.len(),
                sb == span_bytes(b@, spans_view(spans@)),
                sb.len() == n,
                forall|m: int| 0 <= m < n ==> (#[trigger] spans@[m]).0 + spans@[m].1 <= b@.len(),
                j <= i,
                found ==> sb.take(i as int).contains(sb[i as int]),
                !found ==> forall|m: int| 0 <= m < j ==> sb[m] != sb[i as int],
            decreases i - j,
        {
            if !found {
                let s1 = spans[j].0;
                let l1 = spans[j].1;
                let s2 = spans[i].0;
                let l2 = spans[i].1;
                if span_eq(b, s1, l1, s2, l2) {
                    proof {
                        assert(sb[j as int] == b@.subrange(s1 as int, s1 + l1));
                        assert(sb[i as int] == b@.subrange(s2 as int, s2 + l2));
                        assert(sb.take(i as int)[j as int] == sb[i as int]);
                    }
                    found = true;
                }
            }
            j += 1;
        }
        proof {
            assert(sb.take(i + 1).drop_last() =~= sb.take(i as int));
            assert(sb.take(i + 1).last() == sb[i as int]);
            if !found {
                if sb.take(i as int).contains(sb[i as int]) {
                    let m = choose|m: int|
                        0 <= m < i && #[trigger] sb.take(i as int)[m] == sb[i as int];
                    assert(sb[m] == sb[i as int]);
                    assert(false);
                }
            }
        }
        if !found {
            c = c + 1;
        }
        i += 1;
    }
    proof {
        assert(sb.take(n as int) =~= sb);
    }
    c
}

/// Count the distinct keys of the map whose `n` entries start at `pos`.
fn map_distinct_keys_at(b: &[u8], pos: usize, n: u64) -> (r: Option<u64>)
    ensures
        r is None ==> map_distinct_keys(b@, pos as int, n as nat) is None,
        r is Some ==> map_distinct_keys(b@, pos as int, n as nat) == Some(r.unwrap() as nat),
{
    match entry_key_spans_at(b, pos, n) {
        None => None,
        Some(spans) => Some(distinct_count_at(b, &spans)),
    }
}

/// The key count of a packed payload, or `None` when the bytes are not
/// exactly one well-formed MessagePack value of an accepted shape.
pub fn packed_key_count(b: &[u8]) -> (r: Option<u64>)
    ensures
        r is None ==> packed_key_count_of(b@) is None,
        r is Some ==> packed_key_count_of(b@) == Some(r.unwrap() as nat),
{
    proof {
        reveal(packed_key_count_of);
    }
    match end_of_value_at(b, 0) {
        None => None,
        Some(end) => {
            if end != b.len() {
                return None;
            }
            match map_header_at(b, 0) {
                None => Some(0),
                Some((n, body)) => match last_raw_value_at(b, body, n) {
                    Some(vpos) => match map_header_at(b, vpos) {
                        Some((m, mbody)) => map_distinct_keys_at(b, mbody, m),
                        None => map_distinct_keys_at(b, body, n),
                    },
                    None => map_distinct_keys_at(b, body, n),
                },
            }
        },
    }
}

} // verus!
