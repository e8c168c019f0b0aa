use vstd::prelude::*;
use crate::text::{dec_text, push_dec, push_str, string_from_chars};

verus! {

/// The category of a decoding failure.
#[derive(Debug, Clone, Copy, PartialEq, Eq, Structural)]
pub enum ErrorKind {
    UnexpectedEof,
    InvalidMagic,
    UnsupportedVersion,
    InvalidLength,
    InvalidChecksum,
    InvalidUtf8,
    InvalidTag,
    InvalidValue,
    UnknownSection,
    MissingSection,
    CompressionError,
    TemplateError,
    LedgerError,
    LimitExceeded,
}

/// A decoding failure: what went wrong, at which absolute offset, and while parsing what.
#[derive(Debug, Clone, Copy, PartialEq, Eq)]
pub struct ParseError {
    pub kind: ErrorKind,
    pub offset: usize,
    pub context: &'static str,
}

pub type ParseResult<T> = Result<T, ParseError>;

/// How an error reads: its kind, its offset and what was being parsed.
pub open spec fn error_text(e: ParseError) -> Seq<char> {
    error_kind_text(e.kind)@ + " at offset "@ + dec_text(e.offset as nat) + " while parsing "@ + e.context@
}

/// The error value with the given fields.
pub open spec fn mk_err(kind: ErrorKind, offset: usize, context: &'static str) -> ParseError {
    ParseError { kind, offset, context }
}

impl ParseError {
    pub fn new(kind: ErrorKind, offset: usize, context: &'static str) -> (e: Self)
        ensures
            e == mk_err(kind, offset, context),
    {
        ParseError { kind, offset, context }
    }

    pub fn eof(offset: usize, context: &'static str) -> (e: Self)
        ensures
            e == mk_err(ErrorKind::UnexpectedEof, offset, context),
    {
        Self::new(ErrorKind::UnexpectedEof, offset, context)
    }

    pub fn invalid_magic(offset: usize, context: &'static str) -> (e: Self)
        ensures
            e == mk_err(ErrorKind::InvalidMagic, offset, context),
    {
        Self::new(ErrorKind::InvalidMagic, offset, context)
    }

    pub fn unsupported_version(offset: usize, context: &'static str) -> (e: Self)
        ensures
            e == mk_err(ErrorKind::UnsupportedVersion, offset, context),
    {
        Self::new(ErrorKind::UnsupportedVersion, offset, context)
    }

    pub fn invalid_length(offset: usize, context: &'static str) -> (e: Self)
        ensures
            e == mk_err(ErrorKind::InvalidLength, offset, context),
    {
        Self::new(ErrorKind::InvalidLength, offset, context)
    }

    pub fn invalid_checksum(offset: usize, context: &'static str) -> (e: Self)
        ensures
            e == mk_err(ErrorKind::InvalidChecksum, offset, context),
    {
        Self::new(ErrorKind::InvalidChecksum, offset, context)
    }

    pub fn invalid_utf8(offset: usize, context: &'static str) -> (e: Self)
        ensures
            e == mk_err(ErrorKind::InvalidUtf8, offset, context),
    {
        Self::new(ErrorKind::InvalidUtf8, offset, context)
    }

    pub fn invalid_tag(offset: usize, context: &'static str) -> (e: Self)
        ensures
            e == mk_err(ErrorKind::InvalidTag, offset, context),
    {
        Self::new(ErrorKind::InvalidTag, offset, context)
    }

    pub fn invalid_value(offset: usize, context: &'static str) -> (e: Self)
        ensures
            e == mk_err(ErrorKind::InvalidValue, offset, context),
    {
        Self::new(ErrorKind::InvalidValue, offset, context)
    }

    pub fn unknown_section(offset: usize, context: &'static str) -> (e: Self)
        ensures
            e == mk_err(ErrorKind::UnknownSection, offset, context),
    {
        Self::new(ErrorKind::UnknownSection, offset, context)
    }

    pub fn missing_section(offset: usize, context: &'static str) -> (e: Self)
        ensures
            e == mk_err(ErrorKind::MissingSection, offset, context),
    {
        Self::new(ErrorKind::MissingSection, offset, context)
    }

    pub fn compression(offset: usize, context: &'static str) -> (e: Self)
        ensures
            e == mk_err(ErrorKind::CompressionError, offset, context),
    {
        Self::new(ErrorKind::CompressionError, offset, context)
    }

    pub fn template(offset: usize, context: &'static str) -> (e: Self)
        ensures
            e == mk_err(ErrorKind::TemplateError, offset, context),
    {
        Self::new(ErrorKind::TemplateError, offset, context)
    }

    pub fn ledger(offset: usize, context: &'static str) -> (e: Self)
        ensures
            e == mk_err(ErrorKind::LedgerError, offset, context),
    {
        Self::new(ErrorKind::LedgerError, offset, context)
    }

    pub fn limit(offset: usize, context: &'static str) -> (e: Self)
        ensures
            e == mk_err(ErrorKind::LimitExceeded, offset, context),
    {
        Self::new(ErrorKind::LimitExceeded, offset, context)
    }

    /// How the error reads: its kind, its offset and what was being parsed.
    pub fn to_text(&self) -> (s: String)
        ensures s@ == error_text(*self),
    {
        let mut t: Vec<char> = Vec::new();
        push_str(&mut t, self.kind.text());
        push_str(&mut t, " at offset ");
        push_dec(&mut t, self.offset as u64);
        push_str(&mut t, " while parsing ");
        push_str(&mut t, self.context);
        proof { assert(t@ =~= error_text(*self)); }
        string_from_chars(t)
    }

    /// The same error, reported while parsing `context`.
    pub fn with_context(self, context: &'static str) -> (e: Self)
        ensures
            e == mk_err(self.kind, self.offset, context),
    {
        ParseError { kind: self.kind, offset: self.offset, context }
    }

    /// The same error, reported at `offset`.
    pub fn at(self, offset: usize) -> (e: Self)
        ensures
            e == mk_err(self.kind, offset, self.context),
    {
        ParseError { kind: self.kind, offset, context: self.context }
    }
}

/// `Ok(())` when `condition` holds, otherwise an invalid-value error at `offset`.
pub fn require(condition: bool, offset: usize, context: &'static str) -> (r: ParseResult<()>)
    ensures
        condition ==> r is Ok,
        !condition ==> r == Err::<(), ParseError>(mk_err(ErrorKind::InvalidValue, offset, context)),
{
    if condition {
        Ok(())
    } else {
        Err(ParseError::invalid_value(offset, context))
    }
}

/// `Ok(())` when `available >= needed`, otherwise an end-of-input error at `offset`.
pub fn require_len(available: usize, needed: usize, offset: usize, context: &'static str) -> (r: ParseResult<()>)
    ensures
        available >= needed ==> r is Ok,
        available < needed ==> r == Err::<(), ParseError>(mk_err(ErrorKind::UnexpectedEof, offset, context)),
{
    if available >= needed {
        Ok(())
    } else {
        Err(ParseError::eof(offset, context))
    }
}

impl ErrorKind {
    /// The human-readable description of the kind.
    pub fn text(&self) -> (t: &'static str)
        ensures t@ == error_kind_text(*self)@,
    {
        match self {
            ErrorKind::UnexpectedEof => "unexpected end of input",
            ErrorKind::InvalidMagic => "invalid magic",
            ErrorKind::UnsupportedVersion => "unsupported version",
            ErrorKind::InvalidLength => "invalid length",
            ErrorKind::InvalidChecksum => "invalid checksum",
            ErrorKind::InvalidUtf8 => "invalid utf-8",
            ErrorKind::InvalidTag => "invalid tag",
            ErrorKind::InvalidValue => "invalid value",
            ErrorKind::UnknownSection => "unknown section",
            ErrorKind::MissingSection => "missing section",
            ErrorKind::CompressionError => "compression error",
            ErrorKind::TemplateError => "template error",
            ErrorKind::LedgerError => "ledger error",
            ErrorKind::LimitExceeded => "limit exceeded",
        }
    }
}

/// The description of each error kind.
pub open spec fn error_kind_text(k: ErrorKind) -> &'static str {
    match k {
        ErrorKind::UnexpectedEof => "unexpected end of input",
        ErrorKind::InvalidMagic => "invalid magic",
        ErrorKind::UnsupportedVersion => "unsupported version",
        ErrorKind::InvalidLength => "invalid length",
        ErrorKind::InvalidChecksum => "invalid checksum",
        ErrorKind::InvalidUtf8 => "invalid utf-8",
        ErrorKind::InvalidTag => "invalid tag",
        ErrorKind::InvalidValue => "invalid value",
        ErrorKind::UnknownSection => "unknown section",
        ErrorKind::MissingSection => "missing section",
        ErrorKind::CompressionError => "compression error",
        ErrorKind::TemplateError => "template error",
        ErrorKind::LedgerError => "ledger error",
        ErrorKind::LimitExceeded => "limit exceeded",
    }
}

} // verus!
