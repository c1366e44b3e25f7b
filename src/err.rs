use vstd::prelude::*;

verus! {

/// What went wrong while decoding.
#[derive(Debug, Clone, Copy, PartialEq, Eq, Structural)]
pub enum Kind {
    /// The universal class was used with the extended-number escape.
    InvalidTypeAndFlavor,
    /// An indefinite length was given to a primitive tag.
    InvalidLength,
    /// An extended tag number or a long-form length does not fit in 8 groups or bytes.
    NumberOverflow,
    /// A universal tag number that names no defined type.
    UnknownType,
    /// The byte source ended before the value was complete.
    Io,
    /// The tags are nested deeper than the decoder allows.
    DepthExceeded,
}

/// A decoding error: its kind, the byte offset at which it was detected,
/// and optionally the error that caused it.
#[derive(Debug)]
pub struct Error {
    pub kind: Kind,
    pub offset: usize,
    pub cause: Option<Box<Error>>,
}

impl Error {
    pub fn new(kind: Kind, offset: usize, cause: Option<Box<Error>>) -> (r: Error)
        ensures
            r.kind == kind,
            r.offset == offset,
            r.cause == cause,
    {
        Error { kind: kind, offset: offset, cause: cause }
    }

    /// A new error of `kind` at `offset`, caused by `self`.
    pub fn wrap(self, kind: Kind, offset: usize) -> (r: Error)
        ensures
            r.kind == kind,
            r.offset == offset,
            r.cause == Some(Box::new(self)),
    {
        Error::new(kind, offset, Some(Box::new(self)))
    }

    /// A short human-readable text for the error's kind.
    pub fn description(&self) -> (r: &'static str)
        ensures
            r@ == kind_text(self.kind),
    {
        match self.kind {
            Kind::InvalidTypeAndFlavor => "tag number and flavor mismatch",
            Kind::InvalidLength => "Indefinite length is only allowed for constructed tags",
            Kind::NumberOverflow => "BER number is larger than 8 bytes",
            Kind::UnknownType => "universal tag number names no type",
            Kind::Io => "unexpected end of input",
            Kind::DepthExceeded => "tags are nested too deeply",
        }
    }
}

pub open spec fn kind_text(k: Kind) -> Seq<char> {
    match k {
        Kind::InvalidTypeAndFlavor => "tag number and flavor mismatch"@,
        Kind::InvalidLength => "Indefinite length is only allowed for constructed tags"@,
        Kind::NumberOverflow => "BER number is larger than 8 bytes"@,
        Kind::UnknownType => "universal tag number names no type"@,
        Kind::Io => "unexpected end of input"@,
        Kind::DepthExceeded => "tags are nested too deeply"@,
    }
}

} // verus!
