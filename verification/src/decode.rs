//! The executable decoder: from a byte slice and a position to a `Value`.
//!
//! Every reader takes the byte slice and the position to read at, and
//! returns the value it read together with the position just past it. A
//! reader either succeeds, consuming exactly the bytes its result accounts
//! for, or fails without a result: no partial value is ever returned.

use crate::markers::spec_from_byte;
use crate::markers::Marker;
use crate::value::dedup;
use crate::value::norm;
use crate::value::norm_items;
use crate::value::norm_pairs;
use crate::value::pairs_view;
use crate::value::upsert;
use crate::value::values_view;
use crate::value::Value;
use crate::value::ValueV;
use crate::wire::be16;
use crate::wire::be32;
use crate::wire::be64;
use crate::wire::sdecode;
use crate::wire::sdecode_items;
use crate::wire::sdecode_props;
use crate::wire::sentinel_at;
use crate::wire::text_of;
use crate::wire::lemma_sdecode_len;
use crate::wire::lemma_sitems_len;
use crate::wire::lemma_sprops_len;
use vstd::prelude::*;
use vstd::slice::slice_subrange;
use vstd::slice::slice_to_vec;
use vstd::utf8::decode_utf8;
use vstd::utf8::valid_utf8;

verus! {

/// Why a decode failed. No recovery is attempted for any of these: the
/// first failure abandons the value under construction.
#[derive(Debug, Clone, Copy, PartialEq, Eq, Structural)]
pub enum DecodeError {
    /// The source ended before a fixed-width or length-prefixed read.
    Truncated,
    /// A text payload is not well-formed UTF-8.
    InvalidEncoding,
    /// A byte where a marker was expected matches no defined marker.
    BadMarker(u8),
    /// A recognized marker stands where the grammar forbids it.
    UnexpectedMarker(Marker),
}

/// Relies on `String::from_utf8`: it succeeds exactly on well-formed UTF-8
/// and yields the characters the bytes encode, as vstd's model of UTF-8
/// (`valid_utf8`, `decode_utf8`) states.
#[verifier::external_body]
fn bytes_to_string(bytes: Vec<u8>) -> (r: Option<String>)
    ensures
        r is Some <==> valid_utf8(bytes@),
        r matches Some(s) ==> s@ == decode_utf8(bytes@),
{
    match String::from_utf8(bytes) {
        Ok(s) => Some(s),
        Err(_) => None,
    }
}

/// One byte.
pub fn read_u8(bytes: &[u8], pos: usize) -> (r: Result<(u8, usize), DecodeError>)
    requires
        pos <= bytes@.len(),
    ensures
        r is Ok <==> pos < bytes@.len(),
        r matches Ok(t) ==> t.0 == bytes@[pos as int] && t.1 == pos + 1,
        r is Err ==> r == Err::<(u8, usize), DecodeError>(DecodeError::Truncated),
{
    if pos < bytes.len() {
        Ok((bytes[pos], pos + 1))
    } else {
        Err(DecodeError::Truncated)
    }
}

/// A big-endian two-byte unsigned quantity.
pub fn read_u16_be(bytes: &[u8], pos: usize) -> (r: Result<(u16, usize), DecodeError>)
    requires
        pos <= bytes@.len(),
    ensures
        r is Ok <==> pos + 2 <= bytes@.len(),
        r matches Ok(t) ==> t.0 == be16(bytes@, pos as int) && t.1 == pos + 2,
        r is Err ==> r == Err::<(u16, usize), DecodeError>(DecodeError::Truncated),
{
    if bytes.len() - pos >= 2 {
        let b0 = bytes[pos] as u16;
        let b1 = bytes[pos + 1] as u16;
        Ok((b0 * 0x100 + b1, pos + 2))
    } else {
        Err(DecodeError::Truncated)
    }
}

/// A big-endian four-byte unsigned quantity.
pub fn read_u32_be(bytes: &[u8], pos: usize) -> (r: Result<(u32, usize), DecodeError>)
    requires
        pos <= bytes@.len(),
    ensures
        r is Ok <==> pos + 4 <= bytes@.len(),
        r matches Ok(t) ==> t.0 == be32(bytes@, pos as int) && t.1 == pos + 4,
        r is Err ==> r == Err::<(u32, usize), DecodeError>(DecodeError::Truncated),
{
    if bytes.len() - pos >= 4 {
        let b0 = bytes[pos] as u32;
        let b1 = bytes[pos + 1] as u32;
        let b2 = bytes[pos + 2] as u32;
        let b3 = bytes[pos + 3] as u32;
        Ok((((b0 * 0x100 + b1) * 0x100 + b2) * 0x100 + b3, pos + 4))
    } else {
        Err(DecodeError::Truncated)
    }
}

/// A big-endian eight-byte quantity, kept as raw bits: the wire uses it for
/// floating-point payloads, which the library carries without interpreting.
pub fn read_u64_be(bytes: &[u8], pos: usize) -> (r: Result<(u64, usize), DecodeError>)
    requires
        pos <= bytes@.len(),
    ensures
        r is Ok <==> pos + 8 <= bytes@.len(),
        r matches Ok(t) ==> t.0 == be64(bytes@, pos as int) && t.1 == pos + 8,
        r is Err ==> r == Err::<(u64, usize), DecodeError>(DecodeError::Truncated),
{
    if bytes.len() - pos >= 8 {
        let b0 = bytes[pos] as u64;
        let b1 = bytes[pos + 1] as u64;
        let b2 = bytes[pos + 2] as u64;
        let b3 = bytes[pos + 3] as u64;
        let b4 = bytes[pos + 4] as u64;
        let b5 = bytes[pos + 5] as u64;
        let b6 = bytes[pos + 6] as u64;
        let b7 = bytes[pos + 7] as u64;
        Ok((
            ((((((b0 * 0x100 + b1) * 0x100 + b2) * 0x100 + b3) * 0x100 + b4) * 0x100 + b5) * 0x100
                + b6) * 0x100 + b7,
            pos + 8,
        ))
    } else {
        Err(DecodeError::Truncated)
    }
}

/// A big-endian two-byte signed quantity, in two's complement.
pub fn read_i16_be(bytes: &[u8], pos: usize) -> (r: Result<(i16, usize), DecodeError>)
    requires
        pos <= bytes@.len(),
    ensures
        r is Ok <==> pos + 2 <= bytes@.len(),
        r matches Ok(t) ==> t.0 == (if be16(bytes@, pos as int) < 0x8000 {
            be16(bytes@, pos as int)
        } else {
            be16(bytes@, pos as int) - 0x10000
        }) && t.1 == pos + 2,
        r is Err ==> r == Err::<(i16, usize), DecodeError>(DecodeError::Truncated),
{
    match read_u16_be(bytes, pos) {
        Ok((x, p)) => {
            proof {
                assert(x < 0x8000 ==> (#[verifier::truncate] (x as i16)) == x as int)
                    by (bit_vector);
                assert(x >= 0x8000 ==> (#[verifier::truncate] (x as i16)) == x as int - 0x10000)
                    by (bit_vector);
            }
            Ok((#[verifier::truncate] (x as i16), p))
        },
        Err(e) => Err(e),
    }
}

/// The marker that begins a value, via the marker table.
pub fn read_marker(bytes: &[u8], pos: usize) -> (r: Result<(Marker, usize), DecodeError>)
    requires
        pos <= bytes@.len(),
    ensures
        r is Ok <==> pos < bytes@.len() && spec_from_byte(bytes@[pos as int]) is Some,
        r matches Ok(t) ==> Some(t.0) == spec_from_byte(bytes@[pos as int]) && t.1 == pos + 1,
        pos == bytes@.len() ==> r == Err::<(Marker, usize), DecodeError>(DecodeError::Truncated),
        pos < bytes@.len() && spec_from_byte(bytes@[pos as int]) is None ==> r == Err::<
            (Marker, usize),
            DecodeError,
        >(DecodeError::BadMarker(bytes@[pos as int])),
{
    match read_u8(bytes, pos) {
        Ok((b, p)) => match Marker::from_byte(b) {
            Some(m) => Ok((m, p)),
            None => Err(DecodeError::BadMarker(b)),
        },
        Err(e) => Err(e),
    }
}

/// Exactly `size` bytes of UTF-8 text. A zero size yields the empty string
/// at once, consuming nothing.
pub fn read_string(bytes: &[u8], pos: usize, size: usize) -> (r: Result<
    (String, usize),
    DecodeError,
>)
    requires
        pos <= bytes@.len(),
    ensures
        r is Ok <==> pos + size <= bytes@.len() && text_of(
            bytes@.subrange(pos as int, pos + size),
        ) is Some,
        r matches Ok(t) ==> t.0@ == text_of(bytes@.subrange(pos as int, pos + size)).unwrap()
            && t.1 == pos + size,
        pos + size > bytes@.len() ==> r == Err::<(String, usize), DecodeError>(
            DecodeError::Truncated,
        ),
        pos + size <= bytes@.len() && text_of(bytes@.subrange(pos as int, pos + size)) is None
            ==> r == Err::<(String, usize), DecodeError>(DecodeError::InvalidEncoding),
{
    if size == 0 {
        proof {
            assert(bytes@.subrange(pos as int, pos as int) =~= Seq::<u8>::empty());
            assert(valid_utf8(Seq::<u8>::empty()));
            assert(decode_utf8(Seq::<u8>::empty()) =~= Seq::<char>::empty());
        }
        return Ok((String::new(), pos));
    }
    if bytes.len() - pos < size {
        return Err(DecodeError::Truncated);
    }
    let window = slice_subrange(bytes, pos, pos + size);
    let buf = slice_to_vec(window);
    match bytes_to_string(buf) {
        Some(s) => Ok((s, pos + size)),
        None => Err(DecodeError::InvalidEncoding),
    }
}

/// The payload of a date: the eight bits-of-a-float bytes of the
/// millisecond count, then the two-byte timezone offset, which the format
/// carries but the value does not use — it is read and discarded.
pub fn read_date(bytes: &[u8], pos: usize) -> (r: Result<(u64, usize), DecodeError>)
    requires
        pos <= bytes@.len(),
    ensures
        r is Ok <==> pos + 10 <= bytes@.len(),
        r matches Ok(t) ==> t.0 == be64(bytes@, pos as int) && t.1 == pos + 10,
        r is Err ==> r == Err::<(u64, usize), DecodeError>(DecodeError::Truncated),
{
    match read_u64_be(bytes, pos) {
        Ok((bits, p)) => match read_i16_be(bytes, p) {
            Ok((_tz, p2)) => Ok((bits, p2)),
            Err(e) => Err(e),
        },
        Err(e) => Err(e),
    }
}

} // verus!

verus! {

/// A property entry can be read at `pos`: a non-zero key length in bounds,
/// well-formed key text, and a decodable value after it.
pub open spec fn entry_decodes(b: Seq<u8>, pos: int) -> bool {
    let kl = be16(b, pos);
    &&& pos + 2 <= b.len()
    &&& kl != 0
    &&& pos + 2 + kl <= b.len()
    &&& text_of(b.subrange(pos + 2, pos + 2 + kl)) is Some
    &&& sdecode(b.skip(pos + 2 + kl)) is Some
}

/// Last write wins: a pair whose key is already present replaces that
/// pair's value in place; a new key goes to the end.
fn upsert_pair(props: &mut Vec<(String, Value)>, k: String, v: Value)
    ensures
        pairs_view(final(props)@) == upsert(pairs_view(old(props)@), k@, v@),
{
    let ghost orig = pairs_view(old(props)@);
    let mut i: usize = 0;
    while i < props.len()
        invariant
            i <= props@.len(),
            props@ == old(props)@,
            orig == pairs_view(old(props)@),
            forall|j: int| 0 <= j < i ==> props@[j].0@ != k@,
        decreases props@.len() - i,
    {
        if props[i].0 == k {
            proof {
                assert(orig.len() == props@.len());
                assert forall|j: int| 0 <= j < orig.len() implies orig[j] == (
                    props@[j].0@,
                    props@[j].1@,
                ) by {
                    assert(orig[j] == (old(props)@[j].0@, old(props)@[j].1@));
                }
                crate::value::lemma_key_index(orig, k@);
                assert(orig[i as int].0 == k@);
                assert(exists|j: int| 0 <= j < orig.len() && orig[j].0 == k@);
                assert(crate::value::has_key(orig, k@));
                assert(crate::value::key_index(orig, k@) == i);
            }
            props.set(i, (k, v));
            proof {
                assert(pairs_view(props@) =~= orig.update(i as int, (k@, v@)));
            }
            return ;
        }
        i += 1;
    }
    proof {
        assert(orig.len() == props@.len());
        assert forall|j: int| 0 <= j < orig.len() implies orig[j] == (
            props@[j].0@,
            props@[j].1@,
        ) by {
            assert(orig[j] == (old(props)@[j].0@, old(props)@[j].1@));
        }
        crate::value::lemma_key_index(orig, k@);
        assert(!crate::value::has_key(orig, k@));
    }
    props.push((k, v));
    proof {
        assert(pairs_view(props@) =~= orig.push((k@, v@)));
    }
}

/// One step of a property list: the sentinel, yielding nothing, or one
/// key–value pair. A zero key length followed by anything but the
/// object-end marker is malformed.
pub fn read_object_property(bytes: &[u8], pos: usize) -> (r: Result<
    (Option<(String, Value)>, usize),
    DecodeError,
>)
    requires
        pos <= bytes@.len(),
    ensures
        r is Ok <==> sentinel_at(bytes@, pos as int) || entry_decodes(bytes@, pos as int),
        (r matches Ok(t) && t.0 is None) <==> sentinel_at(bytes@, pos as int),
        r matches Ok(t) ==> (t.0 matches Some(kv) ==> {
            let kl = be16(bytes@, pos as int);
            let vstart = pos + 2 + kl;
            &&& entry_decodes(bytes@, pos as int)
            &&& text_of(bytes@.subrange(pos + 2, vstart)) == Some(kv.0@)
            &&& {
                let (w, d) = sdecode(bytes@.skip(vstart)).unwrap();
                kv.1@ == norm(w) && t.1 == vstart + d
            }
        }),
        r matches Ok(t) ==> (t.0 is None ==> t.1 == pos + 3),
        pos + 2 <= bytes@.len() && be16(bytes@, pos as int) == 0 && pos + 3 <= bytes@.len()
            && spec_from_byte(bytes@[pos + 2]) is None ==> r == Err::<
            (Option<(String, Value)>, usize),
            DecodeError,
        >(DecodeError::BadMarker(bytes@[pos + 2])),
        pos + 2 <= bytes@.len() && be16(bytes@, pos as int) == 0 && pos + 3 <= bytes@.len()
            && spec_from_byte(bytes@[pos + 2]) is Some && spec_from_byte(bytes@[pos + 2]) != Some(
            Marker::ObjectEnd,
        ) ==> r == Err::<(Option<(String, Value)>, usize), DecodeError>(
            DecodeError::UnexpectedMarker(spec_from_byte(bytes@[pos + 2]).unwrap()),
        ),
        pos + 2 > bytes@.len() || (be16(bytes@, pos as int) == 0 && pos + 3 > bytes@.len()) ==> r
            == Err::<(Option<(String, Value)>, usize), DecodeError>(DecodeError::Truncated),
    decreases bytes@.len() - pos, 1int,
{
    let (kl, p1) = match read_u16_be(bytes, pos) {
        Ok(t) => t,
        Err(e) => {
            return Err(e);
        },
    };
    if kl == 0 {
        let (m, p2) = match read_marker(bytes, p1) {
            Ok(t) => t,
            Err(e) => {
                return Err(e);
            },
        };
        match m {
            Marker::ObjectEnd => Ok((None, p2)),
            other => Err(DecodeError::UnexpectedMarker(other)),
        }
    } else {
        let (k, p2) = match read_string(bytes, p1, kl as usize) {
            Ok(t) => t,
            Err(e) => {
                return Err(e);
            },
        };
        let (v, p3) = match read_value(bytes, p2) {
            Ok(t) => t,
            Err(e) => {
                return Err(e);
            },
        };
        proof {
            lemma_sdecode_len(bytes@.skip(p2 as int));
        }
        Ok((Some((k, v)), p3))
    }
}

/// Property entries until the sentinel, collapsed to a unique-key list with
/// last write winning. Decoding stops exactly at the first zero-length key
/// followed by the object-end marker, however many entries came before.
pub fn read_while_some(bytes: &[u8], pos: usize) -> (r: Result<
    (Vec<(String, Value)>, usize),
    DecodeError,
>)
    requires
        pos <= bytes@.len(),
    ensures
        r is Ok <==> sdecode_props(bytes@.skip(pos as int)) is Some,
        r matches Ok(t) ==> {
            let (raw, d) = sdecode_props(bytes@.skip(pos as int)).unwrap();
            &&& pairs_view(t.0@) == dedup(norm_pairs(raw))
            &&& t.1 == pos + d
        },
    decreases bytes@.len() - pos, 2int,
{
    let mut cur: usize = pos;
    let mut props: Vec<(String, Value)> = Vec::new();
    let ghost mut raw_acc: Seq<(Seq<char>, ValueV)> = Seq::empty();
    proof {
        assert(pairs_view(props@) =~= Seq::<(Seq<char>, ValueV)>::empty());
        assert(norm_pairs(raw_acc) =~= Seq::<(Seq<char>, ValueV)>::empty());
    }
    loop
        invariant
            pos <= cur <= bytes@.len(),
            pairs_view(props@) == dedup(norm_pairs(raw_acc)),
            sdecode_props(bytes@.skip(pos as int)) is Some <==> sdecode_props(
                bytes@.skip(cur as int),
            ) is Some,
            sdecode_props(bytes@.skip(cur as int)) matches Some((rest, d)) ==> sdecode_props(
                bytes@.skip(pos as int),
            ) == Some((raw_acc + rest, cur - pos + d)),
        decreases bytes@.len() - cur,
    {
        let ghost s = bytes@.skip(cur as int);
        proof {
            assert forall|j: int| 0 <= j < s.len() implies s[j] == bytes@[cur + j] by {}
        }
        match read_object_property(bytes, cur) {
            Ok((None, p)) => {
                proof {
                    assert(be16(s, 0) == 0);
                    assert(s[2] == 0x09);
                    assert(sdecode_props(s) == Some((Seq::<(Seq<char>, ValueV)>::empty(), 3int)));
                    assert(raw_acc + Seq::<(Seq<char>, ValueV)>::empty() =~= raw_acc);
                }
                return Ok((props, p));
            },
            Ok((Some((k, v)), p)) => {
                let ghost kl = be16(bytes@, cur as int);
                let ghost vstart = cur + 2 + kl;
                let ghost (w, d) = sdecode(bytes@.skip(vstart)).unwrap();
                proof {
                    lemma_sdecode_len(bytes@.skip(vstart));
                    assert(be16(s, 0) == kl);
                    assert(s.subrange(2, 2 + kl) =~= bytes@.subrange(cur + 2, vstart));
                    assert(s.skip(2 + kl) =~= bytes@.skip(vstart));
                    assert(s.skip(2 + kl + d) =~= bytes@.skip(vstart + d));
                    assert(sdecode_props(s) == (match sdecode_props(s.skip(2 + kl + d)) {
                        Some((rest2, d2)) => Some::<(Seq<(Seq<char>, ValueV)>, int)>(
                            (seq![(k@, w)] + rest2, 2 + kl + d + d2),
                        ),
                        None => None::<(Seq<(Seq<char>, ValueV)>, int)>,
                    }));
                }
                let ghost raw_next = raw_acc.push((k@, w));
                proof {
                    assert(norm_pairs(raw_next) =~= norm_pairs(raw_acc).push((k@, norm(w))));
                    assert(raw_next.drop_last() =~= raw_acc);
                    assert(norm_pairs(raw_next).drop_last() =~= norm_pairs(raw_acc));
                    assert(norm_pairs(raw_next).last() == (k@, norm(w)));
                    assert(dedup(norm_pairs(raw_next)) == upsert(
                        dedup(norm_pairs(raw_acc)),
                        k@,
                        norm(w),
                    ));
                    match sdecode_props(bytes@.skip(vstart + d)) {
                        Some((rest2, d2)) => {
                            assert(raw_acc + (seq![(k@, w)] + rest2) =~= raw_next + rest2);
                        },
                        None => {},
                    }
                }
                upsert_pair(&mut props, k, v);
                proof {
                    raw_acc = raw_next;
                }
                cur = p;
            },
            Err(e) => {
                proof {
                    if sdecode_props(s) is Some {
                        lemma_sprops_len(s);
                        let kl = be16(s, 0);
                        assert(be16(bytes@, cur as int) == kl);
                        if kl == 0 {
                            assert(sentinel_at(bytes@, cur as int));
                        } else {
                            assert(s.subrange(2, 2 + kl) =~= bytes@.subrange(
                                cur + 2,
                                cur + 2 + kl,
                            ));
                            assert(s.skip(2 + kl) =~= bytes@.skip(cur + 2 + kl));
                            assert(entry_decodes(bytes@, cur as int));
                        }
                    }
                }
                return Err(e);
            },
        }
    }
}

/// A whole property list: the entries until the sentinel, as the mapping
/// they collapse to.
pub fn read_object(bytes: &[u8], pos: usize) -> (r: Result<
    (Vec<(String, Value)>, usize),
    DecodeError,
>)
    requires
        pos <= bytes@.len(),
    ensures
        r is Ok <==> sdecode_props(bytes@.skip(pos as int)) is Some,
        r matches Ok(t) ==> {
            let (raw, d) = sdecode_props(bytes@.skip(pos as int)).unwrap();
            &&& pairs_view(t.0@) == dedup(norm_pairs(raw))
            &&& t.1 == pos + d
        },
    decreases bytes@.len() - pos, 3int,
{
    read_while_some(bytes, pos)
}

/// Exactly `count` values, one after the other: the declared count is
/// authoritative, and a source that ends earlier fails with `Truncated`,
/// discarding everything read so far. A count of zero reads nothing.
pub fn read_array(bytes: &[u8], pos: usize, count: usize) -> (r: Result<
    (Vec<Value>, usize),
    DecodeError,
>)
    requires
        pos <= bytes@.len(),
    ensures
        r is Ok <==> sdecode_items(bytes@.skip(pos as int), count as int) is Some,
        r matches Ok(t) ==> {
            let (items, d) = sdecode_items(bytes@.skip(pos as int), count as int).unwrap();
            &&& values_view(t.0@) == norm_items(items)
            &&& t.0@.len() == items.len()
            &&& t.1 == pos + d
        },
    decreases bytes@.len() - pos, 1int,
{
    let mut cur: usize = pos;
    let mut items: Vec<Value> = Vec::new();
    let ghost mut raw_items: Seq<ValueV> = Seq::empty();
    let mut i: usize = 0;
    proof {
        assert(values_view(items@) =~= Seq::<ValueV>::empty());
        assert(norm_items(raw_items) =~= Seq::<ValueV>::empty());
    }
    while i < count
        invariant
            pos <= cur <= bytes@.len(),
            i <= count,
            items@.len() == i,
            raw_items.len() == i,
            values_view(items@) == norm_items(raw_items),
            sdecode_items(bytes@.skip(pos as int), count as int) is Some <==> sdecode_items(
                bytes@.skip(cur as int),
                count - i,
            ) is Some,
            sdecode_items(bytes@.skip(cur as int), count - i) matches Some((rest, d))
                ==> sdecode_items(bytes@.skip(pos as int), count as int) == Some(
                (raw_items + rest, cur - pos + d),
            ),
        decreases count - i,
    {
        let ghost s = bytes@.skip(cur as int);
        match read_value(bytes, cur) {
            Ok((v, p)) => {
                let ghost (w, d) = sdecode(s).unwrap();
                proof {
                    lemma_sdecode_len(s);
                    assert(s.skip(d) =~= bytes@.skip(cur + d));
                    assert(sdecode_items(s, count - i) == (match sdecode_items(
                        s.skip(d),
                        count - i - 1,
                    ) {
                        Some((rest2, d2)) => Some::<(Seq<ValueV>, int)>(
                            (seq![w] + rest2, d + d2),
                        ),
                        None => None::<(Seq<ValueV>, int)>,
                    }));
                }
                let ghost raw_next = raw_items.push(w);
                proof {
                    assert(norm_items(raw_next) =~= norm_items(raw_items).push(norm(w)));
                    assert(values_view(items@.push(v)) =~= values_view(items@).push(v@));
                    match sdecode_items(bytes@.skip(cur + d), count - i - 1) {
                        Some((rest2, d2)) => {
                            assert(raw_items + (seq![w] + rest2) =~= raw_next + rest2);
                        },
                        None => {},
                    }
                }
                items.push(v);
                proof {
                    raw_items = raw_next;
                }
                cur = p;
                i += 1;
            },
            Err(e) => {
                return Err(e);
            },
        }
    }
    proof {
        assert(sdecode_items(bytes@.skip(cur as int), 0) == Some((Seq::<ValueV>::empty(), 0int)));
        assert(raw_items + Seq::<ValueV>::empty() =~= raw_items);
    }
    Ok((items, cur))
}

/// One value: a marker byte, then the payload the marker calls for,
/// recursing into nested values as deep as the stream nests them. The
/// result is the byte window's value tree with every property list
/// collapsed to unique keys.
#[verifier::rlimit(60)]
pub fn read_value(bytes: &[u8], pos: usize) -> (r: Result<(Value, usize), DecodeError>)
    requires
        pos <= bytes@.len(),
    ensures
        r is Ok <==> sdecode(bytes@.skip(pos as int)) is Some,
        r matches Ok(t) ==> {
            let (w, d) = sdecode(bytes@.skip(pos as int)).unwrap();
            &&& t.0@ == norm(w)
            &&& crate::value::wf(t.0@)
            &&& t.1 == pos + d
        },
        pos == bytes@.len() ==> r == Err::<(Value, usize), DecodeError>(DecodeError::Truncated),
        pos < bytes@.len() && spec_from_byte(bytes@[pos as int]) is None ==> r == Err::<
            (Value, usize),
            DecodeError,
        >(DecodeError::BadMarker(bytes@[pos as int])),
        pos < bytes@.len() && (bytes@[pos as int] == 0x09 || bytes@[pos as int] == 0x11) ==> r
            == Err::<(Value, usize), DecodeError>(
            DecodeError::UnexpectedMarker(spec_from_byte(bytes@[pos as int]).unwrap()),
        ),
    decreases bytes@.len() - pos, 0int,
{
    let ghost s = bytes@.skip(pos as int);
    proof {
        assert forall|j: int| 0 <= j < s.len() implies s[j] == bytes@[pos + j] by {}
    }
    let (m, p1) = match read_marker(bytes, pos) {
        Ok(t) => t,
        Err(e) => {
            return Err(e);
        },
    };
    let r = match m {
        Marker::Null => Ok((Value::Null, p1)),
        Marker::Undefined => Ok((Value::Undefined, p1)),
        Marker::Unsupported => Ok((Value::Unsupported, p1)),
        Marker::MovieClip => Ok((Value::Unsupported, p1)),
        Marker::RecordSet => Ok((Value::Unsupported, p1)),
        Marker::Number => {
            match read_u64_be(bytes, p1) {
                Ok((bits, p2)) => Ok((Value::Number(bits), p2)),
                Err(e) => Err(e),
            }
        },
        Marker::Boolean => {
            match read_u8(bytes, p1) {
                Ok((x, p2)) => Ok((Value::Boolean(x != 0), p2)),
                Err(e) => Err(e),
            }
        },
        Marker::Reference => {
            match read_u16_be(bytes, p1) {
                Ok((ix, p2)) => Ok((Value::Reference(ix), p2)),
                Err(e) => Err(e),
            }
        },
        Marker::Date => {
            match read_date(bytes, p1) {
                Ok((bits, p2)) => Ok((Value::Date(bits), p2)),
                Err(e) => Err(e),
            }
        },
        Marker::String => {
            let (tl, p2) = match read_u16_be(bytes, p1) {
                Ok(t) => t,
                Err(e) => {
                    return Err(e);
                },
            };
            match read_string(bytes, p2, tl as usize) {
                Ok((txt, p3)) => {
                    proof {
                        assert(s.subrange(3, 3 + be16(s, 1)) =~= bytes@.subrange(
                            p2 as int,
                            p2 + tl,
                        ));
                    }
                    Ok((Value::String(txt), p3))
                },
                Err(e) => {
                    proof {
                        if p2 + tl <= bytes@.len() {
                            assert(s.subrange(3, 3 + be16(s, 1)) =~= bytes@.subrange(
                                p2 as int,
                                p2 + tl,
                            ));
                        }
                    }
                    Err(e)
                },
            }
        },
        Marker::LongString => {
            let (tl, p2) = match read_u32_be(bytes, p1) {
                Ok(t) => t,
                Err(e) => {
                    return Err(e);
                },
            };
            match read_string(bytes, p2, tl as usize) {
                Ok((txt, p3)) => {
                    proof {
                        assert(s.subrange(5, 5 + be32(s, 1)) =~= bytes@.subrange(
                            p2 as int,
                            p2 + tl,
                        ));
                    }
                    Ok((Value::String(txt), p3))
                },
                Err(e) => {
                    proof {
                        if p2 + tl <= bytes@.len() {
                            assert(s.subrange(5, 5 + be32(s, 1)) =~= bytes@.subrange(
                                p2 as int,
                                p2 + tl,
                            ));
                        }
                    }
                    Err(e)
                },
            }
        },
        Marker::XmlDocument => {
            let (tl, p2) = match read_u32_be(bytes, p1) {
                Ok(t) => t,
                Err(e) => {
                    return Err(e);
                },
            };
            match read_string(bytes, p2, tl as usize) {
                Ok((txt, p3)) => {
                    proof {
                        assert(s.subrange(5, 5 + be32(s, 1)) =~= bytes@.subrange(
                            p2 as int,
                            p2 + tl,
                        ));
                    }
                    Ok((Value::XmlDocument(txt), p3))
                },
                Err(e) => {
                    proof {
                        if p2 + tl <= bytes@.len() {
                            assert(s.subrange(5, 5 + be32(s, 1)) =~= bytes@.subrange(
                                p2 as int,
                                p2 + tl,
                            ));
                        }
                    }
                    Err(e)
                },
            }
        },
        Marker::Object => {
            proof {
                assert(s.skip(1) =~= bytes@.skip(p1 as int));
            }
            match read_object(bytes, p1) {
                Ok((props, p2)) => Ok((Value::Object(props), p2)),
                Err(e) => Err(e),
            }
        },
        Marker::ECMAArray => {
            let (_count, p2) = match read_u32_be(bytes, p1) {
                Ok(t) => t,
                Err(e) => {
                    return Err(e);
                },
            };
            proof {
                assert(s.skip(5) =~= bytes@.skip(p2 as int));
            }
            match read_object(bytes, p2) {
                Ok((props, p3)) => Ok((Value::ECMAArray(props), p3)),
                Err(e) => Err(e),
            }
        },
        Marker::StrictArray => {
            let (count, p2) = match read_u32_be(bytes, p1) {
                Ok(t) => t,
                Err(e) => {
                    return Err(e);
                },
            };
            proof {
                assert(s.skip(5) =~= bytes@.skip(p2 as int));
            }
            match read_array(bytes, p2, count as usize) {
                Ok((items, p3)) => {
                    proof {
                        lemma_sitems_len(bytes@.skip(p2 as int), count as int);
                    }
                    Ok((Value::Array(items), p3))
                },
                Err(e) => Err(e),
            }
        },
        Marker::TypedObject => {
            let (nl, p2) = match read_u16_be(bytes, p1) {
                Ok(t) => t,
                Err(e) => {
                    return Err(e);
                },
            };
            match read_string(bytes, p2, nl as usize) {
                Ok((name, p3)) => {
                    proof {
                        assert(s.subrange(3, 3 + be16(s, 1)) =~= bytes@.subrange(
                            p2 as int,
                            p2 + nl,
                        ));
                        assert(s.skip(3 + be16(s, 1)) =~= bytes@.skip(p3 as int));
                    }
                    match read_object(bytes, p3) {
                        Ok((props, p4)) => Ok((Value::TypedObject(name, props), p4)),
                        Err(e) => Err(e),
                    }
                },
                Err(e) => {
                    proof {
                        if p2 + nl <= bytes@.len() {
                            assert(s.subrange(3, 3 + be16(s, 1)) =~= bytes@.subrange(
                                p2 as int,
                                p2 + nl,
                            ));
                        }
                    }
                    Err(e)
                },
            }
        },
        Marker::ObjectEnd => Err(DecodeError::UnexpectedMarker(m)),
        Marker::AVMPlusObject => Err(DecodeError::UnexpectedMarker(m)),
    };
    proof {
        if r is Ok {
            crate::value::lemma_norm_wf(sdecode(s).unwrap().0);
        }
    }
    r
}

} // verus!
