//! The marker table: the closed set of type bytes that may begin a value.

use vstd::prelude::*;

verus! {

/// One variant per recognized type byte. The mapping between bytes and
/// variants is a total bijection over the defined byte set (`0x00`–`0x11`)
/// and undefined for every other byte.
#[derive(Debug, Clone, Copy, PartialEq, Eq, Structural)]
pub enum Marker {
    Number,
    Boolean,
    String,
    Object,
    /// Reserved for future use; decodes to the unsupported placeholder.
    MovieClip,
    Null,
    Undefined,
    Reference,
    ECMAArray,
    ObjectEnd,
    StrictArray,
    Date,
    LongString,
    Unsupported,
    /// Reserved for future use; decodes to the unsupported placeholder.
    RecordSet,
    XmlDocument,
    TypedObject,
    /// Format-switch sentinel; never valid where a value is expected.
    AVMPlusObject,
}

/// The byte that encodes a marker.
pub open spec fn spec_to_byte(m: Marker) -> u8 {
    match m {
        Marker::Number => 0x00,
        Marker::Boolean => 0x01,
        Marker::String => 0x02,
        Marker::Object => 0x03,
        Marker::MovieClip => 0x04,
        Marker::Null => 0x05,
        Marker::Undefined => 0x06,
        Marker::Reference => 0x07,
        Marker::ECMAArray => 0x08,
        Marker::ObjectEnd => 0x09,
        Marker::StrictArray => 0x0A,
        Marker::Date => 0x0B,
        Marker::LongString => 0x0C,
        Marker::Unsupported => 0x0D,
        Marker::RecordSet => 0x0E,
        Marker::XmlDocument => 0x0F,
        Marker::TypedObject => 0x10,
        Marker::AVMPlusObject => 0x11,
    }
}

/// The marker a byte encodes, if any.
pub open spec fn spec_from_byte(n: u8) -> Option<Marker> {
    if n <= 0x11 {
        Some(
            match n {
                0x00 => Marker::Number,
                0x01 => Marker::Boolean,
                0x02 => Marker::String,
                0x03 => Marker::Object,
                0x04 => Marker::MovieClip,
                0x05 => Marker::Null,
                0x06 => Marker::Undefined,
                0x07 => Marker::Reference,
                0x08 => Marker::ECMAArray,
                0x09 => Marker::ObjectEnd,
                0x0A => Marker::StrictArray,
                0x0B => Marker::Date,
                0x0C => Marker::LongString,
                0x0D => Marker::Unsupported,
                0x0E => Marker::RecordSet,
                0x0F => Marker::XmlDocument,
                0x10 => Marker::TypedObject,
                _ => Marker::AVMPlusObject,
            },
        )
    } else {
        None
    }
}

impl Marker {
    /// Total on the defined byte set: a marker for bytes `0x00`–`0x11`,
    /// nothing for the other 238 byte values.
    pub fn from_byte(n: u8) -> (r: Option<Marker>)
        ensures
            r == spec_from_byte(n),
    {
        match n {
            0x00 => Some(Marker::Number),
            0x01 => Some(Marker::Boolean),
            0x02 => Some(Marker::String),
            0x03 => Some(Marker::Object),
            0x04 => Some(Marker::MovieClip),
            0x05 => Some(Marker::Null),
            0x06 => Some(Marker::Undefined),
            0x07 => Some(Marker::Reference),
            0x08 => Some(Marker::ECMAArray),
            0x09 => Some(Marker::ObjectEnd),
            0x0A => Some(Marker::StrictArray),
            0x0B => Some(Marker::Date),
            0x0C => Some(Marker::LongString),
            0x0D => Some(Marker::Unsupported),
            0x0E => Some(Marker::RecordSet),
            0x0F => Some(Marker::XmlDocument),
            0x10 => Some(Marker::TypedObject),
            0x11 => Some(Marker::AVMPlusObject),
            _ => None,
        }
    }

    /// The inverse of [`Marker::from_byte`]; always succeeds.
    pub fn to_byte(self) -> (r: u8)
        ensures
            r == spec_to_byte(self),
            spec_from_byte(r) == Some(self),
    {
        match self {
            Marker::Number => 0x00,
            Marker::Boolean => 0x01,
            Marker::String => 0x02,
            Marker::Object => 0x03,
            Marker::MovieClip => 0x04,
            Marker::Null => 0x05,
            Marker::Undefined => 0x06,
            Marker::Reference => 0x07,
            Marker::ECMAArray => 0x08,
            Marker::ObjectEnd => 0x09,
            Marker::StrictArray => 0x0A,
            Marker::Date => 0x0B,
            Marker::LongString => 0x0C,
            Marker::Unsupported => 0x0D,
            Marker::RecordSet => 0x0E,
            Marker::XmlDocument => 0x0F,
            Marker::TypedObject => 0x10,
            Marker::AVMPlusObject => 0x11,
        }
    }
}

/// The byte-to-marker mapping inverts the marker-to-byte mapping: the two
/// are a bijection between the eighteen variants and the bytes they encode.
pub proof fn lemma_marker_bijection()
    ensures
        forall|m: Marker| spec_from_byte(spec_to_byte(m)) == Some(m),
        forall|n: u8| spec_from_byte(n) is Some ==> spec_to_byte(spec_from_byte(n).unwrap()) == n,
{
}

} // verus!
