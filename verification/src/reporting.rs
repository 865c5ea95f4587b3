//! Source positions and diagnostics: byte offsets, the ranges they bound, and
//! the messages the front end reports against them.
use vstd::prelude::*;

use crate::text::{char_index, is_boundary};

verus! {

/// A source text registered with the engine, by the number it was given.
#[derive(Debug, Clone, Copy, PartialEq, Eq, Structural, Hash, PartialOrd, Ord)]
pub struct Source(pub u32);

/// A byte offset (or a byte length) in a source text.
#[derive(Debug, Clone, Copy, Default, PartialEq, Eq, Structural, PartialOrd, Ord, Hash)]
pub struct TextSize(pub u32);

/// The offset a `usize` becomes: itself where it fits in 32 bits, else the
/// largest offset there is.
pub open spec fn saturate(value: int) -> u32 {
    if value <= u32::MAX {
        value as u32
    } else {
        u32::MAX
    }
}

impl TextSize {
    pub fn new(value: u32) -> (size: TextSize)
        ensures
            size.0 == value,
    {
        TextSize(value)
    }

    pub fn from_usize(value: usize) -> (size: TextSize)
        ensures
            size.0 == saturate(value as int),
    {
        if value <= 0xffff_ffffusize {
            TextSize(value as u32)
        } else {
            TextSize(u32::MAX)
        }
    }

    pub fn as_u32(self) -> (value: u32)
        ensures
            value == self.0,
    {
        self.0
    }

    pub fn as_usize(self) -> (value: usize)
        ensures
            value == self.0,
    {
        self.0 as usize
    }
}

/// Where something was written: a span of a source text, or nowhere, for
/// what the compiler made up.
#[derive(Debug, Clone, Copy, Default, PartialEq, Eq, Structural, Hash)]
pub enum TextRange {
    Located { source: Source, start: TextSize, length: TextSize },
    #[default]
    Generated,
}

impl TextRange {
    /// The exclusive end offset, added up without wrapping.
    pub open spec fn end_offset(self) -> u32 {
        match self {
            TextRange::Located { start, length, .. } => saturate(start.0 + length.0),
            TextRange::Generated => 0,
        }
    }

    pub fn new(source: Source, start: TextSize, length: TextSize) -> (range: TextRange)
        ensures
            range == (TextRange::Located { source, start, length }),
    {
        TextRange::Located { source, start, length }
    }

    /// The range between two offsets, empty when the end comes first.
    pub fn from_bounds(source: Source, start: TextSize, end: TextSize) -> (range: TextRange)
        ensures
            range == (TextRange::Located {
                source,
                start,
                length: TextSize(if end.0 >= start.0 { (end.0 - start.0) as u32 } else { 0 }),
            }),
    {
        let length = if end.0 >= start.0 {
            end.0 - start.0
        } else {
            0
        };
        TextRange::Located { source, start, length: TextSize(length) }
    }

    pub fn empty(source: Source, at: TextSize) -> (range: TextRange)
        ensures
            range == (TextRange::Located { source, start: at, length: TextSize(0) }),
    {
        TextRange::new(source, at, TextSize(0))
    }

    pub fn generated() -> (range: TextRange)
        ensures
            range == TextRange::Generated,
    {
        TextRange::Generated
    }

    pub fn source(self) -> (found: Option<Source>)
        ensures
            found == match self {
                TextRange::Located { source, .. } => Some(source),
                TextRange::Generated => None::<Source>,
            },
    {
        match self {
            TextRange::Located { source, .. } => Some(source),
            TextRange::Generated => None,
        }
    }

    pub fn start(self) -> (found: Option<TextSize>)
        ensures
            found == match self {
                TextRange::Located { start, .. } => Some(start),
                TextRange::Generated => None::<TextSize>,
            },
    {
        match self {
            TextRange::Located { start, .. } => Some(start),
            TextRange::Generated => None,
        }
    }

    /// The end offset, saturating at the largest offset.
    pub fn end(self) -> (found: Option<TextSize>)
        ensures
            found == match self {
                TextRange::Located { .. } => Some(TextSize(self.end_offset())),
                TextRange::Generated => None::<TextSize>,
            },
    {
        match self {
            TextRange::Located { start, length, .. } => {
                let end = if start.0 <= u32::MAX - length.0 {
                    start.0 + length.0
                } else {
                    u32::MAX
                };
                Some(TextSize(end))
            },
            TextRange::Generated => None,
        }
    }

    pub fn len(self) -> (found: Option<u32>)
        ensures
            found == match self {
                TextRange::Located { length, .. } => Some(length.0),
                TextRange::Generated => None::<u32>,
            },
    {
        match self {
            TextRange::Located { length, .. } => Some(length.0),
            TextRange::Generated => None,
        }
    }

    pub fn is_empty(self) -> (found: Option<bool>)
        ensures
            found == match self {
                TextRange::Located { length, .. } => Some(length.0 == 0),
                TextRange::Generated => None::<bool>,
            },
    {
        match self.len() {
            Some(length) => Some(length == 0),
            None => None,
        }
    }

    /// The text the range covers in `source`, when both of its ends fall on
    /// character boundaries of it.
    pub fn text(&self, source: &str) -> (found: Option<String>)
        ensures
            match *self {
                TextRange::Generated => found is None,
                TextRange::Located { start, .. } => {
                    let end = self.end_offset() as int;
                    &&& found is Some <==> (start.0 <= end && is_boundary(source@, start.0 as int)
                        && is_boundary(source@, end))
                    &&& found matches Some(t) ==> t@ == source@.subrange(
                        char_index(source@, start.0 as int),
                        char_index(source@, end),
                    )
                },
            },
    {
        match (self.start(), self.end()) {
            (Some(start), Some(end)) => str_get(source, start.as_usize(), end.as_usize()),
            _ => None,
        }
    }
}

/// `str::get` over a byte range, copied out: nothing when indexing with that
/// range would panic (the start past the end, or a bound that is not a
/// character boundary, the end of the text counting as one), else the
/// characters between the two boundaries.
#[verifier::external_body]
fn str_get(s: &str, start: usize, end: usize) -> (found: Option<String>)
    ensures
        found is Some <==> (start <= end && is_boundary(s@, start as int) && is_boundary(
            s@,
            end as int,
        )),
        found matches Some(t) ==> t@ == s@.subrange(
            char_index(s@, start as int),
            char_index(s@, end as int),
        ),
{
    s.get(start..end).map(str::to_owned)
}

#[derive(Debug, Clone, Copy, PartialEq, Eq, Structural, Hash)]
pub enum DiagnosticSeverity {
    Error,
    Warning,
    Note,
}

#[derive(Debug, Clone, PartialEq, Eq)]
pub struct Diagnostic {
    pub severity: DiagnosticSeverity,
    pub range: TextRange,
    pub message: String,
}

impl Diagnostic {
    pub fn new(severity: DiagnosticSeverity, range: TextRange, message: String) -> (d: Diagnostic)
        ensures
            d.severity == severity,
            d.range == range,
            d.message@ == message@,
    {
        Diagnostic { severity, range, message }
    }

    pub fn error(range: TextRange, message: String) -> (d: Diagnostic)
        ensures
            d.severity == DiagnosticSeverity::Error,
            d.range == range,
            d.message@ == message@,
    {
        Diagnostic::new(DiagnosticSeverity::Error, range, message)
    }

    pub fn warning(range: TextRange, message: String) -> (d: Diagnostic)
        ensures
            d.severity == DiagnosticSeverity::Warning,
            d.range == range,
            d.message@ == message@,
    {
        Diagnostic::new(DiagnosticSeverity::Warning, range, message)
    }
}

/// A diagnostic as the engine collects it from a query.
#[derive(Clone, Debug)]
pub struct Diag(pub Diagnostic);

} // verus!
