//! The executable encoder: it emits, for every value the decoder can
//! produce, bytes that the decoder reads back to that value.
//!
//! Each writer appends to the output buffer and promises that the appended
//! window reads back as what it wrote; an unencodable value (text too long
//! for its length prefix, an empty property key, a list too long for the
//! count field) is refused before anything of it matters.

use crate::value::encodable;
use crate::value::pairs_view;
use crate::value::values_view;
use crate::value::Value;
use crate::value::ValueV;
use crate::wire::be16;
use crate::wire::be32;
use crate::wire::be64;
use crate::wire::lemma_sdecode_extend;
use crate::wire::sdecode;
use crate::wire::sdecode_items;
use crate::wire::sdecode_props;
use vstd::prelude::*;
use vstd::string::StrSliceExecFns;
use vstd::string::StringSliceAdditionalSpecFns;
use vstd::utf8::encode_utf8;
use vstd::utf8::encode_utf8_decode_utf8;
use vstd::utf8::encode_utf8_valid_utf8;

verus! {

/// Every entry from `i` on can be encoded: its key fits a non-zero two-byte
/// length prefix and its value is encodable.
pub open spec fn props_encodable_from(pv: Seq<(Seq<char>, ValueV)>, i: int) -> bool {
    forall|j: int|
        #![trigger pv[j]]
        i <= j < pv.len() ==> {
            &&& 0 < encode_utf8(pv[j].0).len() <= 0xFFFF
            &&& encodable(pv[j].1)
        }
}

/// Every element from `i` on is encodable.
pub open spec fn items_encodable_from(iv: Seq<ValueV>, i: int) -> bool {
    forall|j: int| #![trigger iv[j]] i <= j < iv.len() ==> encodable(iv[j])
}

fn push_u16_be(out: &mut Vec<u8>, x: u16)
    ensures
        final(out)@.len() == old(out)@.len() + 2,
        final(out)@.subrange(0, old(out)@.len() as int) == old(out)@,
        forall|k: int|
            #![trigger final(out)@[k]]
            0 <= k < old(out)@.len() ==> final(out)@[k] == old(out)@[k],
        be16(final(out)@, old(out)@.len() as int) == x,
{
    let hi = (x / 0x100) as u8;
    let lo = (x % 0x100) as u8;
    out.push(hi);
    out.push(lo);
    proof {
        assert(out@.subrange(0, out@.len() - 2) =~= old(out)@);
    }
}

fn push_u32_be(out: &mut Vec<u8>, x: u32)
    ensures
        final(out)@.len() == old(out)@.len() + 4,
        final(out)@.subrange(0, old(out)@.len() as int) == old(out)@,
        forall|k: int|
            #![trigger final(out)@[k]]
            0 <= k < old(out)@.len() ==> final(out)@[k] == old(out)@[k],
        be32(final(out)@, old(out)@.len() as int) == x,
{
    let b3 = (x % 0x100) as u8;
    let q1 = x / 0x100;
    let b2 = (q1 % 0x100) as u8;
    let q2 = q1 / 0x100;
    let b1 = (q2 % 0x100) as u8;
    let b0 = (q2 / 0x100) as u8;
    out.push(b0);
    out.push(b1);
    out.push(b2);
    out.push(b3);
    proof {
        assert(out@.subrange(0, out@.len() - 4) =~= old(out)@);
    }
}

fn push_u64_be(out: &mut Vec<u8>, x: u64)
    ensures
        final(out)@.len() == old(out)@.len() + 8,
        final(out)@.subrange(0, old(out)@.len() as int) == old(out)@,
        forall|k: int|
            #![trigger final(out)@[k]]
            0 <= k < old(out)@.len() ==> final(out)@[k] == old(out)@[k],
        be64(final(out)@, old(out)@.len() as int) == x,
{
    let b7 = (x % 0x100) as u8;
    let q1 = x / 0x100;
    let b6 = (q1 % 0x100) as u8;
    let q2 = q1 / 0x100;
    let b5 = (q2 % 0x100) as u8;
    let q3 = q2 / 0x100;
    let b4 = (q3 % 0x100) as u8;
    let q4 = q3 / 0x100;
    let b3 = (q4 % 0x100) as u8;
    let q5 = q4 / 0x100;
    let b2 = (q5 % 0x100) as u8;
    let q6 = q5 / 0x100;
    let b1 = (q6 % 0x100) as u8;
    let b0 = (q6 / 0x100) as u8;
    out.push(b0);
    out.push(b1);
    out.push(b2);
    out.push(b3);
    out.push(b4);
    out.push(b5);
    out.push(b6);
    out.push(b7);
    proof {
        assert(out@.subrange(0, out@.len() - 8) =~= old(out)@);
    }
}


proof fn lemma_props_encodable_from_zero(pv: Seq<(Seq<char>, ValueV)>)
    ensures
        props_encodable_from(pv, 0) <==> crate::value::props_encodable(pv),
{
}

proof fn lemma_items_encodable_from_zero(iv: Seq<ValueV>)
    ensures
        items_encodable_from(iv, 0) <==> (forall|i: int|
            #![trigger iv[i]]
            0 <= i < iv.len() ==> encodable(iv[i])),
{
}

fn write_number_into(bits: u64, out: &mut Vec<u8>) -> (ok: bool)
    ensures
        ok,
        ok ==> {
            let delta = final(out)@.skip(old(out)@.len() as int);
            &&& final(out)@.len() > old(out)@.len()
            &&& final(out)@.subrange(0, old(out)@.len() as int) == old(out)@
            &&& (forall|k: int|
                #![trigger final(out)@[k]]
                0 <= k < old(out)@.len() ==> final(out)@[k] == old(out)@[k])
            &&& sdecode(delta) == Some((ValueV::Number(bits), delta.len() as int))
        },
{
    let ghost start = out@.len() as int;
    out.push(0x00);
    push_u64_be(out, bits);
    proof {
        let delta = out@.skip(start);
        assert(out@.subrange(0, start) =~= old(out)@);
        assert forall|j: int| 0 <= j < delta.len() implies delta[j] == out@[start + j] by {}
        assert(delta[0] == 0x00);
        assert(be64(delta, 1) == be64(out@, start + 1));
        assert(be64(delta, 1) == bits);
    }
    true
}

fn write_reference_into(ix: u16, out: &mut Vec<u8>) -> (ok: bool)
    ensures
        ok,
        ok ==> {
            let delta = final(out)@.skip(old(out)@.len() as int);
            &&& final(out)@.len() > old(out)@.len()
            &&& final(out)@.subrange(0, old(out)@.len() as int) == old(out)@
            &&& (forall|k: int|
                #![trigger final(out)@[k]]
                0 <= k < old(out)@.len() ==> final(out)@[k] == old(out)@[k])
            &&& sdecode(delta) == Some((ValueV::Reference(ix), delta.len() as int))
        },
{
    let ghost start = out@.len() as int;
    out.push(0x07);
    push_u16_be(out, ix);
    proof {
        let delta = out@.skip(start);
        assert(out@.subrange(0, start) =~= old(out)@);
        assert forall|j: int| 0 <= j < delta.len() implies delta[j] == out@[start + j] by {}
        assert(delta[0] == 0x07);
        assert(be16(delta, 1) == be16(out@, start + 1));
    }
    true
}

fn write_date_into(bits: u64, out: &mut Vec<u8>) -> (ok: bool)
    ensures
        ok,
        ok ==> {
            let delta = final(out)@.skip(old(out)@.len() as int);
            &&& final(out)@.len() > old(out)@.len()
            &&& final(out)@.subrange(0, old(out)@.len() as int) == old(out)@
            &&& (forall|k: int|
                #![trigger final(out)@[k]]
                0 <= k < old(out)@.len() ==> final(out)@[k] == old(out)@[k])
            &&& sdecode(delta) == Some((ValueV::Date(bits), delta.len() as int))
        },
{
    let ghost start = out@.len() as int;
    out.push(0x0B);
    push_u64_be(out, bits);
    // The timezone offset is format legacy; the value does not carry one,
    // so a zero offset goes out.
    out.push(0x00);
    out.push(0x00);
    proof {
        let delta = out@.skip(start);
        assert(out@.subrange(0, start) =~= old(out)@);
        assert forall|j: int| 0 <= j < delta.len() implies delta[j] == out@[start + j] by {}
        assert(delta[0] == 0x0B);
        assert(be64(delta, 1) == be64(out@, start + 1));
        assert(be64(delta, 1) == bits);
    }
    true
}

fn write_text_into(s: &String, xml: bool, out: &mut Vec<u8>) -> (ok: bool)
    ensures
        ok <==> encode_utf8(s@).len() <= 0xFFFF_FFFF,
        ok ==> {
            let delta = final(out)@.skip(old(out)@.len() as int);
            &&& final(out)@.len() > old(out)@.len()
            &&& final(out)@.subrange(0, old(out)@.len() as int) == old(out)@
            &&& (forall|k: int|
                #![trigger final(out)@[k]]
                0 <= k < old(out)@.len() ==> final(out)@[k] == old(out)@[k])
            &&& sdecode(delta) == Some(
                (
                    if xml {
                        ValueV::XmlDocument(s@)
                    } else {
                        ValueV::String(s@)
                    },
                    delta.len() as int,
                ),
            )
        },
{
    let ghost start = out@.len() as int;
    let mut bv = s.as_str().as_bytes_vec();
    proof {
        encode_utf8_valid_utf8(s@);
        encode_utf8_decode_utf8(s@);
    }
    if !xml && bv.len() <= 0xFFFF {
        let tl = bv.len() as u16;
        out.push(0x02);
        push_u16_be(out, tl);
        out.append(&mut bv);
        proof {
            let delta = out@.skip(start);
            assert(out@.subrange(0, start) =~= old(out)@);
            assert forall|j: int| 0 <= j < delta.len() implies delta[j] == out@[start + j] by {}
            assert(delta[0] == 0x02);
            assert(be16(delta, 1) == be16(out@, start + 1));
            assert(delta.subrange(3, 3 + be16(delta, 1)) =~= encode_utf8(s@));
        }
        true
    } else {
        if bv.len() > 0xFFFF_FFFF {
            return false;
        }
        let tl = bv.len() as u32;
        let marker: u8 = if xml {
            0x0F
        } else {
            0x0C
        };
        out.push(marker);
        push_u32_be(out, tl);
        out.append(&mut bv);
        proof {
            let delta = out@.skip(start);
            assert(out@.subrange(0, start) =~= old(out)@);
            assert forall|j: int| 0 <= j < delta.len() implies delta[j] == out@[start + j] by {}
            assert(delta[0] == marker);
            assert(be32(delta, 1) == be32(out@, start + 1));
            assert(delta.subrange(5, 5 + be32(delta, 1)) =~= encode_utf8(s@));
        }
        true
    }
}

/// One value: the marker the shape calls for, then its payload. Yields

/// `false`, leaving callers to discard the buffer, when the value has no
/// encoding.
#[verifier::rlimit(100)]
fn write_value_into(v: &Value, out: &mut Vec<u8>) -> (ok: bool)
    ensures
        ok <==> encodable(v@),
        ok ==> {
            let delta = final(out)@.skip(old(out)@.len() as int);
            &&& final(out)@.len() > old(out)@.len()
            &&& final(out)@.subrange(0, old(out)@.len() as int) == old(out)@
            &&& (forall|k: int|
                #![trigger final(out)@[k]]
                0 <= k < old(out)@.len() ==> final(out)@[k] == old(out)@[k])
            &&& sdecode(delta) == Some((v@, delta.len() as int))
        },
    decreases v, 0int,
{
    let ghost start = out@.len() as int;
    match v {
        Value::Null => {
            out.push(0x05);
            proof {
                assert(out@.subrange(0, start) =~= old(out)@);
                assert(out@.skip(start) =~= seq![0x05u8]);
            }
            true
        },
        Value::Undefined => {
            out.push(0x06);
            proof {
                assert(out@.subrange(0, start) =~= old(out)@);
                assert(out@.skip(start) =~= seq![0x06u8]);
            }
            true
        },
        Value::Unsupported => {
            out.push(0x0D);
            proof {
                assert(out@.subrange(0, start) =~= old(out)@);
                assert(out@.skip(start) =~= seq![0x0Du8]);
            }
            true
        },
        Value::Boolean(x) => {
            out.push(0x01);
            out.push(if *x {
                1
            } else {
                0
            });
            proof {
                assert(out@.subrange(0, start) =~= old(out)@);
                assert(out@.skip(start) =~= seq![0x01u8, if v@->Boolean_0 {
                    1u8
                } else {
                    0u8
                }]);
            }
            true
        },
        Value::Number(bits) => write_number_into(*bits, out),
        Value::Reference(ix) => write_reference_into(*ix, out),
        Value::Date(bits) => write_date_into(*bits, out),
        Value::String(s) => write_text_into(s, false, out),
        Value::XmlDocument(s) => write_text_into(s, true, out),
        Value::Object(props) => {
            proof {
                lemma_props_encodable_from_zero(pairs_view(props@));
            }
            out.push(0x03);
            let ghost mid = out@.len() as int;
            if write_props_from(props, 0, out) {
                proof {
                    let delta = out@.skip(start);
                    assert(out@.subrange(0, start) =~= old(out)@);
                    assert(out@.subrange(0, mid).subrange(0, start) =~= old(out)@);
                    assert(delta[0] == 0x03);
                    assert(delta.skip(1) =~= out@.skip(mid));
                    assert(pairs_view(props@).skip(0) =~= pairs_view(props@));
                }
                true
            } else {
                false
            }
        },
        Value::ECMAArray(props) => {
            proof {
                lemma_props_encodable_from_zero(pairs_view(props@));
            }
            if props.len() <= 0xFFFF_FFFF {
                out.push(0x08);
                push_u32_be(out, props.len() as u32);
                let ghost mid = out@.len() as int;
                if write_props_from(props, 0, out) {
                    proof {
                        let delta = out@.skip(start);
                        assert(out@.subrange(0, start) =~= old(out)@);
                        assert(delta[0] == 0x08);
                        assert(delta.skip(5) =~= out@.skip(mid));
                        assert(pairs_view(props@).skip(0) =~= pairs_view(props@));
                    }
                    true
                } else {
                    false
                }
            } else {
                false
            }
        },
        Value::TypedObject(name, props) => {
            proof {
                lemma_props_encodable_from_zero(pairs_view(props@));
            }
            let mut nb = name.as_str().as_bytes_vec();
            proof {
                encode_utf8_valid_utf8(name@);
                encode_utf8_decode_utf8(name@);
            }
            if nb.len() <= 0xFFFF {
                let nl = nb.len() as u16;
                out.push(0x10);
                push_u16_be(out, nl);
                out.append(&mut nb);
                let ghost mid = out@.len() as int;
                if write_props_from(props, 0, out) {
                    proof {
                        lemma_props_encodable_from_zero(pairs_view(props@));
                        let delta = out@.skip(start);
                        assert(out@.subrange(0, start) =~= old(out)@);
                        assert forall|j: int| 0 <= j < delta.len() implies delta[j] == out@[start
                            + j] by {}
                        assert(delta[0] == 0x10);
                        assert(be16(delta, 1) == be16(out@, start + 1));
                        assert(delta.subrange(3, 3 + be16(delta, 1)) =~= encode_utf8(name@));
                        assert(delta.skip(3 + be16(delta, 1)) =~= out@.skip(mid));
                        assert(pairs_view(props@).skip(0) =~= pairs_view(props@));
                    }
                    true
                } else {
                    false
                }
            } else {
                false
            }
        },
        Value::Array(items) => {
            proof {
                lemma_items_encodable_from_zero(values_view(items@));
            }
            if items.len() <= 0xFFFF_FFFF {
                out.push(0x0A);
                push_u32_be(out, items.len() as u32);
                let ghost mid = out@.len() as int;
                if write_items_from(items, 0, out) {
                    proof {
                        let delta = out@.skip(start);
                        assert(out@.subrange(0, start) =~= old(out)@);
                        assert(delta[0] == 0x0A);
                        assert(be32(delta, 1) == be32(out@, start + 1));
                        assert(delta.skip(5) =~= out@.skip(mid));
                        assert(values_view(items@).skip(0) =~= values_view(items@));
                    }
                    true
                } else {
                    false
                }
            } else {
                false
            }
        },
    }
}

/// The entries of a property list from `i` on, then the sentinel.
#[verifier::rlimit(100)]
fn write_props_from(props: &Vec<(String, Value)>, i: usize, out: &mut Vec<u8>) -> (ok: bool)
    requires
        i <= props@.len(),
    ensures
        ok <==> props_encodable_from(pairs_view(props@), i as int),
        ok ==> {
            let delta = final(out)@.skip(old(out)@.len() as int);
            &&& final(out)@.len() > old(out)@.len()
            &&& final(out)@.subrange(0, old(out)@.len() as int) == old(out)@
            &&& (forall|k: int|
                #![trigger final(out)@[k]]
                0 <= k < old(out)@.len() ==> final(out)@[k] == old(out)@[k])
            &&& sdecode_props(delta) == Some(
                (pairs_view(props@).skip(i as int), delta.len() as int),
            )
        },
    decreases props, props@.len() - i,
{
    let ghost start = out@.len() as int;
    let ghost pv = pairs_view(props@);
    proof {
        assert forall|j: int| 0 <= j < pv.len() implies pv[j] == (
            props@[j].0@,
            props@[j].1@,
        ) by {}
    }
    if i == props.len() {
        out.push(0x00);
        out.push(0x00);
        out.push(0x09);
        proof {
            assert(out@.subrange(0, start) =~= old(out)@);
            assert(out@.skip(start) =~= seq![0x00u8, 0x00u8, 0x09u8]);
            assert(pv.skip(i as int) =~= Seq::<(Seq<char>, ValueV)>::empty());
        }
        return true;
    }
    let mut kb = props[i].0.as_str().as_bytes_vec();
    proof {
        encode_utf8_valid_utf8(props@[i as int].0@);
        encode_utf8_decode_utf8(props@[i as int].0@);
    }
    if kb.len() == 0 || kb.len() > 0xFFFF {
        proof {
            assert(pv[i as int].0 == props@[i as int].0@);
            assert(!(0 < encode_utf8(pv[i as int].0).len() <= 0xFFFF));
        }
        return false;
    }
    let kl = kb.len() as u16;
    push_u16_be(out, kl);
    out.append(&mut kb);
    let ghost vstart = out@.len() as int;
    if !write_value_into(&props[i].1, out) {
        proof {
            assert(pv[i as int].1 == props@[i as int].1@);
            assert(!encodable(pv[i as int].1));
        }
        return false;
    }
    let ghost vend = out@.len() as int;
    let ghost vdelta = out@.skip(vstart);
    if !write_props_from(props, i + 1, out) {
        return false;
    }
    proof {
        let delta = out@.skip(start);
        assert(out@.subrange(0, vend).subrange(0, vstart) =~= out@.subrange(0, vstart));
        assert(out@.subrange(0, vstart).subrange(0, start) =~= old(out)@);
        assert(out@.subrange(0, start) =~= old(out)@);
        assert forall|j: int| 0 <= j < delta.len() implies delta[j] == out@[start + j] by {}
        assert(be16(delta, 0) == be16(out@, start));
        assert(delta.subrange(2, 2 + kl as int) =~= encode_utf8(props@[i as int].0@));
        // the value window, extended by what follows it, reads the same
        let d0 = vend - vstart;
        assert(delta.skip(2 + kl as int).subrange(0, d0) =~= vdelta.subrange(0, d0));
        assert(vdelta.subrange(0, d0) =~= vdelta);
        lemma_sdecode_extend(vdelta, delta.skip(2 + kl as int));
        assert(delta.skip(2 + kl as int + d0) =~= out@.skip(vend));
        assert(seq![(pv[i as int].0, pv[i as int].1)] + pv.skip(i + 1) =~= pv.skip(i as int));
        assert(sdecode_props(delta) == Some((pv.skip(i as int), delta.len() as int)));
    }
    true
}

/// The elements of a strict array from `i` on, back to back.
#[verifier::rlimit(100)]
fn write_items_from(items: &Vec<Value>, i: usize, out: &mut Vec<u8>) -> (ok: bool)
    requires
        i <= items@.len(),
    ensures
        ok <==> items_encodable_from(values_view(items@), i as int),
        ok ==> {
            let delta = final(out)@.skip(old(out)@.len() as int);
            &&& final(out)@.len() >= old(out)@.len()
            &&& final(out)@.subrange(0, old(out)@.len() as int) == old(out)@
            &&& (forall|k: int|
                #![trigger final(out)@[k]]
                0 <= k < old(out)@.len() ==> final(out)@[k] == old(out)@[k])
            &&& sdecode_items(delta, items@.len() - i) == Some(
                (values_view(items@).skip(i as int), delta.len() as int),
            )
        },
    decreases items, items@.len() - i,
{
    let ghost start = out@.len() as int;
    let ghost iv = values_view(items@);
    proof {
        assert forall|j: int| 0 <= j < iv.len() implies iv[j] == items@[j]@ by {}
    }
    if i == items.len() {
        proof {
            assert(out@.skip(start) =~= Seq::<u8>::empty());
            assert(iv.skip(i as int) =~= Seq::<ValueV>::empty());
        }
        return true;
    }
    if !write_value_into(&items[i], out) {
        proof {
            assert(iv[i as int] == items@[i as int]@);
            assert(!encodable(iv[i as int]));
        }
        return false;
    }
    let ghost vend = out@.len() as int;
    let ghost vdelta = out@.skip(start);
    if !write_items_from(items, i + 1, out) {
        return false;
    }
    proof {
        let delta = out@.skip(start);
        assert(out@.subrange(0, vend).subrange(0, start) =~= out@.subrange(0, start));
        assert(out@.subrange(0, start) =~= old(out)@);
        let d0 = vend - start;
        assert(delta.subrange(0, d0) =~= vdelta.subrange(0, d0));
        assert(vdelta.subrange(0, d0) =~= vdelta);
        lemma_sdecode_extend(vdelta, delta);
        assert(delta.skip(d0) =~= out@.skip(vend));
        assert(seq![iv[i as int]] + iv.skip(i + 1) =~= iv.skip(i as int));
        assert(sdecode_items(delta, items@.len() - i) == Some(
            (iv.skip(i as int), delta.len() as int),
        ));
    }
    true
}

/// The encoder: bytes that the decoder reads back to exactly this value
/// tree, or nothing if some part of the value does not fit the format's
/// length and count prefixes.
pub fn write_value(v: &Value) -> (r: Option<Vec<u8>>)
    ensures
        r is Some <==> encodable(v@),
        r matches Some(out) ==> sdecode(out@) == Some((v@, out@.len() as int)),
{
    let mut out: Vec<u8> = Vec::new();
    if write_value_into(v, &mut out) {
        proof {
            assert(out@.skip(0) =~= out@);
        }
        Some(out)
    } else {
        None
    }
}

} // verus!
