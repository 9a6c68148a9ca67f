//! Segments: the names that keys and scopes are made of.

use vstd::prelude::*;

use crate::error::ParseSegmentError;

verus! {

/// The character that separates the segments of a scope from each other and from a name.
pub const SEPARATOR: char = '/';

/// Whether `c` may not stand at either end of a segment.
pub open spec fn is_blank(c: char) -> bool {
    c == ' ' || c == '\t' || c == '\n'
}

/// What keeps `s` from being a segment, if anything does.
pub open spec fn segment_error(s: Seq<char>) -> Option<ParseSegmentError> {
    if s.len() == 0 {
        Some(ParseSegmentError::Empty)
    } else if is_blank(s[0]) || is_blank(s.last()) {
        Some(ParseSegmentError::SurroundingWhitespace)
    } else if s.contains(SEPARATOR) {
        Some(ParseSegmentError::ContainsSeparator)
    } else {
        None
    }
}

/// Whether `s` is a segment: nonempty, without whitespace at its ends and without separator.
pub open spec fn is_segment(s: Seq<char>) -> bool {
    segment_error(s) is None
}

/// Checks whether `text` is a segment.
fn check_segment(text: &str) -> (result: Result<(), ParseSegmentError>)
    ensures
        match result {
            Ok(()) => is_segment(text@),
            Err(error) => segment_error(text@) == Some(error),
        },
{
    let len: usize = text.unicode_len();
    if len == 0 {
        return Err(ParseSegmentError::Empty);
    }
    let first = text.get_char(0);
    let last = text.get_char(len - 1);
    if first == ' ' || first == '\t' || first == '\n' || last == ' ' || last == '\t' || last
        == '\n' {
        return Err(ParseSegmentError::SurroundingWhitespace);
    }
    match crate::text::split_once(text, SEPARATOR) {
        Some(_) => {
            proof {
                text@.index_of_first_ensures(SEPARATOR);
            }
            Err(ParseSegmentError::ContainsSeparator)
        },
        None => {
            proof {
                text@.index_of_first_ensures(SEPARATOR);
            }
            Ok(())
        },
    }
}

/// A borrowed segment.
#[derive(Debug, Clone, Copy)]
pub struct Segment<'a> {
    text: &'a str,
}

impl<'a> Segment<'a> {
    #[verifier::type_invariant]
    spec fn well_formed(self) -> bool {
        is_segment(self.text@)
    }
}

impl<'a> View for Segment<'a> {
    type V = Seq<char>;

    closed spec fn view(&self) -> Seq<char> {
        self.text@
    }
}

impl<'a> Segment<'a> {
    /// Reads `text` as a segment.
    pub fn parse(text: &'a str) -> (result: Result<Segment<'a>, ParseSegmentError>)
        ensures
            match result {
                Ok(segment) => is_segment(text@) && segment@ == text@,
                Err(error) => segment_error(text@) == Some(error),
            },
    {
        match check_segment(text) {
            Ok(()) => Ok(Segment { text }),
            Err(error) => Err(error),
        }
    }

    /// Takes a text that is known to be a segment, such as a literal.
    pub fn literal(text: &'a str) -> (segment: Segment<'a>)
        requires
            is_segment(text@),
        ensures
            segment@ == text@,
    {
        Segment { text }
    }

    /// The text of the segment.
    pub fn as_str(&self) -> (text: &'a str)
        ensures
            text@ == self@,
            is_segment(self@),
    {
        proof {
            use_type_invariant(self);
        }
        self.text
    }

    /// An owned copy of the segment.
    pub fn to_buf(&self) -> (segment: SegmentBuf)
        ensures
            segment@ == self@,
            is_segment(self@),
    {
        proof {
            use_type_invariant(self);
        }
        SegmentBuf { text: self.text.to_owned() }
    }
}

/// An owned segment.
#[derive(Debug)]
pub struct SegmentBuf {
    text: String,
}

impl SegmentBuf {
    #[verifier::type_invariant]
    spec fn well_formed(self) -> bool {
        is_segment(self.text@)
    }
}

impl View for SegmentBuf {
    type V = Seq<char>;

    closed spec fn view(&self) -> Seq<char> {
        self.text@
    }
}

impl Clone for SegmentBuf {
    fn clone(&self) -> (segment: Self)
        ensures
            segment@ == self@,
    {
        proof {
            use_type_invariant(self);
        }
        SegmentBuf { text: self.text.clone() }
    }
}

impl PartialEq for SegmentBuf {
    /// Segments are equal when their texts are.
    fn eq(&self, other: &Self) -> (equal: bool) {
        self.text == other.text
    }
}

impl vstd::std_specs::cmp::PartialEqSpecImpl for SegmentBuf {
    open spec fn obeys_eq_spec() -> bool {
        true
    }

    open spec fn eq_spec(&self, other: &Self) -> bool {
        self@ == other@
    }
}

impl SegmentBuf {
    /// The text of the segment.
    pub fn as_str(&self) -> (text: &str)
        ensures
            text@ == self@,
            is_segment(self@),
    {
        proof {
            use_type_invariant(self);
        }
        self.text.as_str()
    }
}

} // verus!
