//! The wire grammar, as a mathematical decoder.
//!
//! `sdecode(b)` is what a reader positioned at the start of `b` makes of it:
//! the raw value tree the bytes spell out and the count of bytes consumed,
//! or nothing if the bytes are malformed or truncated. "Raw" means property
//! lists appear pair by pair as the wire carries them, repeated keys
//! included; the executable decoder's result is `norm` of the raw tree.
//! The function tolerates trailing bytes past the consumed count and never
//! looks at them.

use crate::value::ValueV;
use vstd::prelude::*;
use vstd::utf8::decode_utf8;
use vstd::utf8::valid_utf8;

verus! {

/// A big-endian two-byte quantity, read at `off`.
pub open spec fn be16(b: Seq<u8>, off: int) -> int {
    b[off] * 0x100 + b[off + 1]
}

/// A big-endian four-byte quantity, read at `off`.
pub open spec fn be32(b: Seq<u8>, off: int) -> int {
    ((b[off] * 0x100 + b[off + 1]) * 0x100 + b[off + 2]) * 0x100 + b[off + 3]
}

/// A big-endian eight-byte quantity, read at `off`.
pub open spec fn be64(b: Seq<u8>, off: int) -> int {
    ((((((b[off] * 0x100 + b[off + 1]) * 0x100 + b[off + 2]) * 0x100 + b[off + 3]) * 0x100 + b[off
        + 4]) * 0x100 + b[off + 5]) * 0x100 + b[off + 6]) * 0x100 + b[off + 7]
}

/// The text a length-delimited window carries: the decoded characters if the
/// bytes are well-formed UTF-8, nothing otherwise.
pub open spec fn text_of(w: Seq<u8>) -> Option<Seq<char>> {
    if valid_utf8(w) {
        Some(decode_utf8(w))
    } else {
        None
    }
}

/// The end-of-properties pattern: a zero key-length prefix followed by the
/// object-end marker.
pub open spec fn sentinel_at(b: Seq<u8>, pos: int) -> bool {
    &&& 0 <= pos
    &&& pos + 3 <= b.len()
    &&& b[pos] == 0x00
    &&& b[pos + 1] == 0x00
    &&& b[pos + 2] == 0x09
}

/// One value, read from the start of `b`: the raw tree and the bytes
/// consumed. The first byte picks the shape; a length prefix never reaches
/// past the bytes that are actually there.
pub open spec fn sdecode(b: Seq<u8>) -> Option<(ValueV, int)>
    decreases b.len(), 0int, 0int,
{
    if b.len() < 1 {
        None
    } else {
        let m = b[0];
        if m == 0x00 {
            if b.len() >= 9 {
                Some((ValueV::Number(be64(b, 1) as u64), 9))
            } else {
                None
            }
        } else if m == 0x01 {
            if b.len() >= 2 {
                Some((ValueV::Boolean(b[1] != 0), 2))
            } else {
                None
            }
        } else if m == 0x02 {
            if b.len() >= 3 {
                let tl = be16(b, 1);
                if 3 + tl <= b.len() {
                    match text_of(b.subrange(3, 3 + tl)) {
                        Some(s) => Some((ValueV::String(s), 3 + tl)),
                        None => None,
                    }
                } else {
                    None
                }
            } else {
                None
            }
        } else if m == 0x03 {
            match sdecode_props(b.skip(1)) {
                Some((raw, d)) => Some((ValueV::Object(raw), 1 + d)),
                None => None,
            }
        } else if m == 0x04 || m == 0x0D || m == 0x0E {
            Some((ValueV::Unsupported, 1))
        } else if m == 0x05 {
            Some((ValueV::Null, 1))
        } else if m == 0x06 {
            Some((ValueV::Undefined, 1))
        } else if m == 0x07 {
            if b.len() >= 3 {
                Some((ValueV::Reference(be16(b, 1) as u16), 3))
            } else {
                None
            }
        } else if m == 0x08 {
            // The four count bytes are read and ignored: only the sentinel
            // ends an associative array's property list.
            if b.len() >= 5 {
                match sdecode_props(b.skip(5)) {
                    Some((raw, d)) => Some((ValueV::ECMAArray(raw), 5 + d)),
                    None => None,
                }
            } else {
                None
            }
        } else if m == 0x0A {
            // The count of a strict array is authoritative: exactly that
            // many elements follow, with no sentinel.
            if b.len() >= 5 {
                match sdecode_items(b.skip(5), be32(b, 1)) {
                    Some((items, d)) => Some((ValueV::Array(items), 5 + d)),
                    None => None,
                }
            } else {
                None
            }
        } else if m == 0x0B {
            if b.len() >= 11 {
                Some((ValueV::Date(be64(b, 1) as u64), 11))
            } else {
                None
            }
        } else if m == 0x0C {
            if b.len() >= 5 {
                let tl = be32(b, 1);
                if 5 + tl <= b.len() {
                    match text_of(b.subrange(5, 5 + tl)) {
                        Some(s) => Some((ValueV::String(s), 5 + tl)),
                        None => None,
                    }
                } else {
                    None
                }
            } else {
                None
            }
        } else if m == 0x0F {
            if b.len() >= 5 {
                let tl = be32(b, 1);
                if 5 + tl <= b.len() {
                    match text_of(b.subrange(5, 5 + tl)) {
                        Some(s) => Some((ValueV::XmlDocument(s), 5 + tl)),
                        None => None,
                    }
                } else {
                    None
                }
            } else {
                None
            }
        } else if m == 0x10 {
            if b.len() >= 3 {
                let nl = be16(b, 1);
                if 3 + nl <= b.len() {
                    match text_of(b.subrange(3, 3 + nl)) {
                        Some(name) => match sdecode_props(b.skip(3 + nl)) {
                            Some((raw, d)) => Some((ValueV::TypedObject(name, raw), 3 + nl + d)),
                            None => None,
                        },
                        None => None,
                    }
                } else {
                    None
                }
            } else {
                None
            }
        } else {
            // 0x09 and 0x11 are recognized but never begin a value; bytes
            // past 0x11 are undefined.
            None
        }
    }
}

/// Exactly `count` values back to back, read from the start of `b`.
pub open spec fn sdecode_items(b: Seq<u8>, count: int) -> Option<(Seq<ValueV>, int)>
    decreases b.len(), 1int, count,
{
    if count <= 0 {
        Some((Seq::empty(), 0))
    } else {
        match sdecode(b) {
            Some((v, d)) => if 1 <= d <= b.len() {
                match sdecode_items(b.skip(d), count - 1) {
                    Some((rest, drest)) => Some((seq![v] + rest, d + drest)),
                    None => None,
                }
            } else {
                None
            },
            None => None,
        }
    }
}

/// A property list, read from the start of `b`: pairs of a key behind a
/// non-zero two-byte length prefix and a value, until a zero key length;
/// the zero length must be followed by the object-end marker.
pub open spec fn sdecode_props(b: Seq<u8>) -> Option<(Seq<(Seq<char>, ValueV)>, int)>
    decreases b.len(), 1int, 0int,
{
    if b.len() < 2 {
        None
    } else {
        let kl = be16(b, 0);
        if kl == 0 {
            if b.len() >= 3 && b[2] == 0x09 {
                Some((Seq::empty(), 3))
            } else {
                None
            }
        } else {
            if 2 + kl <= b.len() {
                match text_of(b.subrange(2, 2 + kl)) {
                    Some(k) => match sdecode(b.skip(2 + kl)) {
                        Some((v, d)) => if 1 <= d && 2 + kl + d <= b.len() {
                            match sdecode_props(b.skip(2 + kl + d)) {
                                Some((rest, drest)) => Some(
                                    (seq![(k, v)] + rest, 2 + kl + d + drest),
                                ),
                                None => None,
                            }
                        } else {
                            None
                        },
                        None => None,
                    },
                    None => None,
                }
            } else {
                None
            }
        }
    }
}

/// A successful read consumes at least one byte and never more than there
/// are.
pub proof fn lemma_sdecode_len(b: Seq<u8>)
    ensures
        sdecode(b) matches Some((v, d)) ==> 1 <= d <= b.len(),
    decreases b.len(), 0int, 0int,
{
    if b.len() >= 1 {
        let m = b[0];
        if m == 0x03 {
            lemma_sprops_len(b.skip(1));
        } else if m == 0x08 {
            if b.len() >= 5 {
                lemma_sprops_len(b.skip(5));
            }
        } else if m == 0x0A {
            if b.len() >= 5 {
                lemma_sitems_len(b.skip(5), be32(b, 1));
            }
        } else if m == 0x10 {
            if b.len() >= 3 && 3 + be16(b, 1) <= b.len() {
                lemma_sprops_len(b.skip(3 + be16(b, 1)));
            }
        }
    }
}

/// A list read consumes one element's bytes per element and yields exactly
/// the count asked for.
pub proof fn lemma_sitems_len(b: Seq<u8>, count: int)
    ensures
        sdecode_items(b, count) matches Some((items, d)) ==> 0 <= d <= b.len() && items.len() == (
        if count <= 0 {
            0int
        } else {
            count
        }),
    decreases b.len(), 1int, count,
{
    if count > 0 {
        match sdecode(b) {
            Some((v, d)) => {
                if 1 <= d <= b.len() {
                    lemma_sitems_len(b.skip(d), count - 1);
                }
            },
            None => {},
        }
    }
}

/// A property-list read consumes at least the three sentinel bytes.
pub proof fn lemma_sprops_len(b: Seq<u8>)
    ensures
        sdecode_props(b) matches Some((raw, d)) ==> 3 <= d <= b.len(),
    decreases b.len(), 1int, 0int,
{
    if b.len() >= 2 {
        let kl = be16(b, 0);
        if kl != 0 && 2 + kl <= b.len() {
            match sdecode(b.skip(2 + kl)) {
                Some((v, d)) => {
                    if 1 <= d && 2 + kl + d <= b.len() {
                        lemma_sprops_len(b.skip(2 + kl + d));
                    }
                },
                None => {},
            }
        }
    }
}

/// A read looks only at the bytes it consumes: it carries over unchanged to
/// any byte sequence that agrees on them, however that sequence goes on.
pub proof fn lemma_sdecode_extend(b: Seq<u8>, c: Seq<u8>)
    requires
        sdecode(b) is Some,
        sdecode(b).unwrap().1 <= c.len(),
        c.subrange(0, sdecode(b).unwrap().1) == b.subrange(0, sdecode(b).unwrap().1),
    ensures
        sdecode(c) == sdecode(b),
    decreases b.len(), 0int, 0int,
{
    let n = sdecode(b).unwrap().1;
    lemma_sdecode_len(b);
    assert forall|k: int| 0 <= k < n implies c[k] == b[k] by {
        assert(b.subrange(0, n)[k] == b[k]);
        assert(c.subrange(0, n)[k] == c[k]);
    }
    let m = b[0];
    if m == 0x02 {
        let tl = be16(b, 1);
        assert(c.subrange(3, 3 + tl) =~= b.subrange(3, 3 + tl));
    } else if m == 0x0C || m == 0x0F {
        let tl = be32(b, 1);
        assert(c.subrange(5, 5 + tl) =~= b.subrange(5, 5 + tl));
    } else if m == 0x03 {
        let d = sdecode_props(b.skip(1)).unwrap().1;
        lemma_sprops_len(b.skip(1));
        assert(c.skip(1).subrange(0, d) =~= b.skip(1).subrange(0, d));
        lemma_sprops_extend(b.skip(1), c.skip(1));
    } else if m == 0x08 {
        let d = sdecode_props(b.skip(5)).unwrap().1;
        lemma_sprops_len(b.skip(5));
        assert(c.skip(5).subrange(0, d) =~= b.skip(5).subrange(0, d));
        lemma_sprops_extend(b.skip(5), c.skip(5));
    } else if m == 0x0A {
        let d = sdecode_items(b.skip(5), be32(b, 1)).unwrap().1;
        lemma_sitems_len(b.skip(5), be32(b, 1));
        assert(c.skip(5).subrange(0, d) =~= b.skip(5).subrange(0, d));
        lemma_sitems_extend(b.skip(5), c.skip(5), be32(b, 1));
    } else if m == 0x10 {
        let nl = be16(b, 1);
        let d = sdecode_props(b.skip(3 + nl)).unwrap().1;
        lemma_sprops_len(b.skip(3 + nl));
        assert(c.subrange(3, 3 + nl) =~= b.subrange(3, 3 + nl));
        assert(c.skip(3 + nl).subrange(0, d) =~= b.skip(3 + nl).subrange(0, d));
        lemma_sprops_extend(b.skip(3 + nl), c.skip(3 + nl));
    }
}

/// As [`lemma_sdecode_extend`], for a fixed count of elements.
pub proof fn lemma_sitems_extend(b: Seq<u8>, c: Seq<u8>, count: int)
    requires
        sdecode_items(b, count) is Some,
        sdecode_items(b, count).unwrap().1 <= c.len(),
        c.subrange(0, sdecode_items(b, count).unwrap().1) == b.subrange(
            0,
            sdecode_items(b, count).unwrap().1,
        ),
    ensures
        sdecode_items(c, count) == sdecode_items(b, count),
    decreases b.len(), 1int, count,
{
    let n = sdecode_items(b, count).unwrap().1;
    lemma_sitems_len(b, count);
    assert forall|k: int| 0 <= k < n implies c[k] == b[k] by {
        assert(b.subrange(0, n)[k] == b[k]);
        assert(c.subrange(0, n)[k] == c[k]);
    }
    if count > 0 {
        let (v0, d0) = sdecode(b).unwrap();
        lemma_sdecode_len(b);
        lemma_sitems_len(b.skip(d0), count - 1);
        assert(c.subrange(0, d0) =~= b.subrange(0, d0));
        lemma_sdecode_extend(b, c);
        assert(c.skip(d0).subrange(0, n - d0) =~= b.skip(d0).subrange(0, n - d0));
        lemma_sitems_extend(b.skip(d0), c.skip(d0), count - 1);
    }
}

/// As [`lemma_sdecode_extend`], for a property list.
pub proof fn lemma_sprops_extend(b: Seq<u8>, c: Seq<u8>)
    requires
        sdecode_props(b) is Some,
        sdecode_props(b).unwrap().1 <= c.len(),
        c.subrange(0, sdecode_props(b).unwrap().1) == b.subrange(
            0,
            sdecode_props(b).unwrap().1,
        ),
    ensures
        sdecode_props(c) == sdecode_props(b),
    decreases b.len(), 1int, 0int,
{
    let n = sdecode_props(b).unwrap().1;
    lemma_sprops_len(b);
    assert forall|k: int| 0 <= k < n implies c[k] == b[k] by {
        assert(b.subrange(0, n)[k] == b[k]);
        assert(c.subrange(0, n)[k] == c[k]);
    }
    let kl = be16(b, 0);
    if kl != 0 {
        let (v0, d0) = sdecode(b.skip(2 + kl)).unwrap();
        lemma_sdecode_len(b.skip(2 + kl));
        lemma_sprops_len(b.skip(2 + kl + d0));
        assert(c.subrange(2, 2 + kl) =~= b.subrange(2, 2 + kl));
        assert(c.skip(2 + kl).subrange(0, d0) =~= b.skip(2 + kl).subrange(0, d0));
        lemma_sdecode_extend(b.skip(2 + kl), c.skip(2 + kl));
        assert(c.skip(2 + kl + d0).subrange(0, n - 2 - kl - d0) =~= b.skip(
            2 + kl + d0,
        ).subrange(0, n - 2 - kl - d0));
        lemma_sprops_extend(b.skip(2 + kl + d0), c.skip(2 + kl + d0));
    }
}

} // verus!
