//! The stored form of a run: `[position, length]`, `[position, length,
//! confidence]`, or a record with the fields `position`, `length` and an
//! optional `confidence`. A confidence left out is full confidence.
use crate::pixel_range::{lemma_range_ext, PixelRange};
use crate::bytes::same_bytes;
use vstd::prelude::*;
use vstd::string::StringSliceAdditionalSpecFns;

verus! {

/// A field of the record form of a run.
#[derive(Debug, Clone, Copy, PartialEq, Eq)]
pub enum RangeField {
    Position,
    Length,
    Confidence,
}

/// Why a stored run is refused.
#[derive(Debug, Clone, Copy, PartialEq, Eq)]
pub enum RangeFormatError {
    /// The length is 0.
    ZeroLength,
    /// The record names this field twice.
    DuplicateField(RangeField),
    /// The record names a field that runs do not have.
    UnknownField,
    /// The record lacks this field.
    MissingField(RangeField),
}

/// The stored form of a run: its position, its length, and its confidence
/// unless that is full.
pub open spec fn encoding(r: PixelRange) -> (u32, u16, Option<u8>) {
    (r.span().0, (r.span().1 - r.span().0) as u16, if r.conf() == 255 { None::<u8> } else { Some(r.conf()) })
}

/// `x` is the run stored as `(position, length, confidence)`.
pub open spec fn decodes_to(position: u32, length: u16, confidence: Option<u8>, x: PixelRange) -> bool {
    &&& length != 0
    &&& x.wf()
    &&& x.span() == (position, (position + length) as u32)
    &&& x.conf() == match confidence {
        Some(c) => c,
        None => 255u8,
    }
}

/// The stored form of `r`: its position, its length, and its confidence
/// unless that is full.
pub fn encode_range(r: &PixelRange) -> (e: (u32, u16, Option<u8>))
    requires
        r.wf(),
    ensures
        e == encoding(*r),
{
    let c = r.confidence();
    (r.start(), r.length(), if c == 255 { None } else { Some(c) })
}

/// The run stored as `[position, length]` (no confidence: full confidence) or
/// `[position, length, confidence]`. A zero length is refused; the run must
/// end inside `u32`.
pub fn decode_range(position: u32, length: u16, confidence: Option<u8>) -> (r: Result<PixelRange, RangeFormatError>)
    requires
        position + length <= u32::MAX,
    ensures
        r is Err <==> length == 0,
        r matches Err(e) ==> e == RangeFormatError::ZeroLength,
        r matches Ok(x) ==> decodes_to(position, length, confidence, x),
{
    if length == 0 {
        return Err(RangeFormatError::ZeroLength);
    }
    let c = match confidence {
        Some(c) => c,
        None => 255,
    };
    Ok(PixelRange::new(position, length, c))
}

/// The field a key of the record form names, if any.
pub fn field_of_key(key: &str) -> (f: Option<RangeField>)
    ensures
        f == Some(RangeField::Position) <==> key.spec_bytes() == "position".spec_bytes(),
        f == Some(RangeField::Length) <==> key.spec_bytes() == "length".spec_bytes(),
        f == Some(RangeField::Confidence) <==> key.spec_bytes() == "confidence".spec_bytes(),
{
    proof {
        broadcast use vstd::string::is_ascii_spec_bytes;
        reveal_strlit("position");
        reveal_strlit("length");
        reveal_strlit("confidence");
        assert(vstd::string::is_ascii("position"));
        assert(vstd::string::is_ascii("length"));
        assert(vstd::string::is_ascii("confidence"));
        assert("position".spec_bytes().len() == 8);
        assert("length".spec_bytes().len() == 6);
        assert("confidence".spec_bytes().len() == 10);
    }
    let k = key.as_bytes();
    if same_bytes(k, "position".as_bytes()) {
        Some(RangeField::Position)
    } else if same_bytes(k, "length".as_bytes()) {
        Some(RangeField::Length)
    } else if same_bytes(k, "confidence".as_bytes()) {
        Some(RangeField::Confidence)
    } else {
        None
    }
}

/// The fields of the record form read so far.
#[derive(Debug, Clone, Copy, PartialEq, Eq)]
pub struct RangeFields {
    pub position: Option<u32>,
    pub length: Option<u16>,
    pub confidence: Option<u8>,
}

impl RangeFields {
    /// The field has been read already.
    pub open spec fn has(&self, field: RangeField) -> bool {
        match field {
            RangeField::Position => self.position is Some,
            RangeField::Length => self.length is Some,
            RangeField::Confidence => self.confidence is Some,
        }
    }

    /// No field read yet.
    pub fn new() -> (s: Self)
        ensures
            s.position is None && s.length is None && s.confidence is None,
    {
        Self { position: None, length: None, confidence: None }
    }

    /// Whether a key of the record may be read next: refused when it names
    /// no field, or a field read already.
    pub fn accept_key(&self, key: &str) -> (r: Result<RangeField, RangeFormatError>)
        ensures
            r matches Ok(f) ==> field_of_key_spec(key, f) && !self.has(f),
            r matches Err(e) ==> match e {
                RangeFormatError::UnknownField => forall|f: RangeField| !field_of_key_spec(key, f),
                RangeFormatError::DuplicateField(f) => field_of_key_spec(key, f) && self.has(f),
                _ => false,
            },
    {
        match field_of_key(key) {
            None => Err(RangeFormatError::UnknownField),
            Some(f) => {
                let taken = match f {
                    RangeField::Position => self.position.is_some(),
                    RangeField::Length => self.length.is_some(),
                    RangeField::Confidence => self.confidence.is_some(),
                };
                if taken {
                    Err(RangeFormatError::DuplicateField(f))
                } else {
                    Ok(f)
                }
            },
        }
    }

    /// Takes the position.
    pub fn set_position(&mut self, v: u32)
        ensures
            final(self).position == Some(v) && final(self).length == old(self).length && final(self).confidence == old(self).confidence,
    {
        self.position = Some(v);
    }

    /// Takes the length; a zero length is refused and nothing changes.
    pub fn set_length(&mut self, v: u16) -> (r: Result<(), RangeFormatError>)
        ensures
            v == 0 ==> r == Err::<(), RangeFormatError>(RangeFormatError::ZeroLength) && *final(self) == *old(self),
            v != 0 ==> r is Ok && final(self).length == Some(v) && final(self).position == old(self).position
                && final(self).confidence == old(self).confidence,
    {
        if v == 0 {
            return Err(RangeFormatError::ZeroLength);
        }
        self.length = Some(v);
        Ok(())
    }

    /// Takes the confidence.
    pub fn set_confidence(&mut self, v: u8)
        ensures
            final(self).confidence == Some(v) && final(self).position == old(self).position && final(self).length == old(self).length,
    {
        self.confidence = Some(v);
    }

    /// The run the record describes: the position is needed first, then the
    /// length; without a confidence the run has full confidence. The run must
    /// end inside `u32`.
    pub fn finish(self) -> (r: Result<PixelRange, RangeFormatError>)
        requires
            self.length matches Some(l) ==> l != 0,
            self.position matches Some(p) ==> self.length matches Some(l) ==> p + l <= u32::MAX,
        ensures
            self.position is None ==> r == Err::<PixelRange, RangeFormatError>(RangeFormatError::MissingField(RangeField::Position)),
            self.position is Some && self.length is None ==> r == Err::<PixelRange, RangeFormatError>(
                RangeFormatError::MissingField(RangeField::Length),
            ),
            r matches Ok(x) ==> self.position matches Some(p) && self.length matches Some(l) && x.wf()
                && x.span() == (p, (p + l) as u32) && x.conf() == match self.confidence {
                    Some(c) => c,
                    None => 255u8,
                },
            (self.position is Some && self.length is Some) ==> r is Ok,
    {
        let p = match self.position {
            Some(p) => p,
            None => {
                return Err(RangeFormatError::MissingField(RangeField::Position));
            },
        };
        let l = match self.length {
            Some(l) => l,
            None => {
                return Err(RangeFormatError::MissingField(RangeField::Length));
            },
        };
        decode_range(p, l, self.confidence)
    }
}

/// The key names the field.
pub open spec fn field_of_key_spec(key: &str, f: RangeField) -> bool {
    match f {
        RangeField::Position => key.spec_bytes() == "position".spec_bytes(),
        RangeField::Length => key.spec_bytes() == "length".spec_bytes(),
        RangeField::Confidence => key.spec_bytes() == "confidence".spec_bytes(),
    }
}

/// Reading back the stored form of a run gives the run: the stored form is
/// accepted, and the run it describes is the one stored.
pub proof fn lemma_encoding_round_trip(r: PixelRange, x: PixelRange)
    requires
        r.wf(),
    ensures
        encoding(r).1 != 0,
        encoding(r).0 + encoding(r).1 <= u32::MAX,
        decodes_to(encoding(r).0, encoding(r).1, encoding(r).2, x) ==> x == r,
{
    if decodes_to(encoding(r).0, encoding(r).1, encoding(r).2, x) {
        lemma_range_ext(x, r);
    }
}

} // verus!
