//! Keys: a name within a scope.

use vstd::prelude::*;

use crate::error::ParseSegmentError;
use crate::segment;
use crate::segment::{Segment, SegmentBuf, SEPARATOR};
use crate::text;

verus! {

/// What a key stands for: the segments of its scope and the text of its name.
#[verifier::ext_equal]
pub struct KeyModel {
    pub scope: Seq<Seq<char>>,
    pub name: Seq<char>,
}

/// The key that a text denotes: segments between separators, the last of them the name.
pub open spec fn key_of_text(text: Seq<char>) -> Result<KeyModel, ParseSegmentError>
    decreases text.len(),
{
    proof {
        text.index_of_first_ensures(SEPARATOR);
    }
    match text::split_first(text, SEPARATOR) {
        None => match segment::segment_error(text) {
            Some(error) => Err(error),
            None => Ok(KeyModel { scope: Seq::empty(), name: text }),
        },
        Some((first, rest)) => match segment::segment_error(first) {
            Some(error) => Err(error),
            None => in_scopes(seq![first], key_of_text(rest)),
        },
    }
}

/// A key within more, outer, scopes.
pub open spec fn in_scopes(
    segments: Seq<Seq<char>>,
    key: Result<KeyModel, ParseSegmentError>,
) -> Result<KeyModel, ParseSegmentError> {
    match key {
        Ok(key) => Ok(KeyModel { scope: segments + key.scope, name: key.name }),
        Err(error) => Err(error),
    }
}

/// A segment on its own denotes a key in the global scope.
pub proof fn lemma_key_of_segment(text: Seq<char>)
    requires
        !text.contains(SEPARATOR),
    ensures
        key_of_text(text) == match segment::segment_error(text) {
            Some(error) => Err::<KeyModel, ParseSegmentError>(error),
            None => Ok(KeyModel { scope: Seq::empty(), name: text }),
        },
{
    text.index_of_first_ensures(SEPARATOR);
}

/// The texts of a list of segments.
pub open spec fn texts(segments: Seq<SegmentBuf>) -> Seq<Seq<char>> {
    segments.map_values(|segment: SegmentBuf| segment@)
}

/// A scope: a path of segments, empty for the global scope.
#[derive(Debug)]
pub struct Scope {
    segments: Vec<SegmentBuf>,
}

impl View for Scope {
    type V = Seq<Seq<char>>;

    closed spec fn view(&self) -> Seq<Seq<char>> {
        texts(self.segments@)
    }
}

impl Clone for Scope {
    fn clone(&self) -> (scope: Self)
        ensures
            scope@ == self@,
    {
        let mut segments: Vec<SegmentBuf> = Vec::new();
        let mut i: usize = 0;
        while i < self.segments.len()
            invariant
                i <= self.segments@.len(),
                segments@.len() == i,
                forall|j: int|
                    0 <= j < i ==> #[trigger] segments@[j]@ == self.segments@[j]@,
            decreases self.segments@.len() - i,
        {
            segments.push(self.segments[i].clone());
            i = i + 1;
        }
        assert(texts(segments@) =~= texts(self.segments@));
        Scope { segments }
    }
}

impl PartialEq for Scope {
    /// Scopes are equal when their paths are.
    fn eq(&self, other: &Self) -> (equal: bool) {
        let len: usize = self.segments.len();
        if len != other.segments.len() {
            assert(self@.len() != other@.len());
            return false;
        }
        let mut i: usize = 0;
        while i < len
            invariant
                i <= len,
                len == self.segments@.len(),
                len == other.segments@.len(),
                forall|j: int|
                    0 <= j < i ==> #[trigger] self.segments@[j]@ == other.segments@[j]@,
            decreases len - i,
        {
            if self.segments[i] != other.segments[i] {
                assert(texts(self.segments@)[i as int] != texts(other.segments@)[i as int]);
                return false;
            }
            i = i + 1;
        }
        assert(self@ =~= other@);
        true
    }
}

impl vstd::std_specs::cmp::PartialEqSpecImpl for Scope {
    open spec fn obeys_eq_spec() -> bool {
        true
    }

    open spec fn eq_spec(&self, other: &Self) -> bool {
        self@ == other@
    }
}

impl Scope {
    /// The scope with a single segment.
    pub fn from_segment(segment: &Segment<'_>) -> (scope: Scope)
        ensures
            scope@ == seq![segment@],
    {
        let mut segments: Vec<SegmentBuf> = Vec::new();
        segments.push(segment.to_buf());
        let scope = Scope { segments };
        assert(scope@ =~= seq![segment@]);
        scope
    }

    /// Puts the scope into another one, as its outermost segment.
    pub fn add_super_scope(&mut self, segment: &Segment<'_>)
        ensures
            final(self)@ == seq![segment@] + old(self)@,
    {
        self.segments.insert(0, segment.to_buf());
        assert(self@ =~= seq![segment@] + old(self)@);
    }
}

/// A name within a scope.
#[derive(Debug)]
pub struct Key {
    scope: Scope,
    name: SegmentBuf,
}

impl View for Key {
    type V = KeyModel;

    closed spec fn view(&self) -> KeyModel {
        KeyModel { scope: self.scope@, name: self.name@ }
    }
}

impl Clone for Key {
    fn clone(&self) -> (key: Self)
        ensures
            key@ == self@,
    {
        Key { scope: self.scope.clone(), name: self.name.clone() }
    }
}

impl PartialEq for Key {
    /// Keys are equal when their scopes and names are.
    fn eq(&self, other: &Self) -> (equal: bool) {
        self.scope == other.scope && self.name == other.name
    }
}

impl vstd::std_specs::cmp::PartialEqSpecImpl for Key {
    open spec fn obeys_eq_spec() -> bool {
        true
    }

    open spec fn eq_spec(&self, other: &Self) -> bool {
        self@ == other@
    }
}

impl Key {
    /// Reads a key from its text: segments between separators, the last of them the name.
    pub fn parse(text: &str) -> (result: Result<Key, ParseSegmentError>)
        ensures
            match result {
                Ok(key) => key_of_text(text@) == Ok::<KeyModel, ParseSegmentError>(key@),
                Err(error) => key_of_text(text@) == Err::<KeyModel, ParseSegmentError>(error),
            },
    {
        let mut segments: Vec<SegmentBuf> = Vec::new();
        let mut rest: &str = text;
        assert(in_scopes(texts(segments@), key_of_text(rest@)) == key_of_text(text@)) by {
            if key_of_text(text@) is Ok {
                assert(texts(segments@) + key_of_text(text@)->Ok_0.scope
                    =~= key_of_text(text@)->Ok_0.scope);
            }
        }
        loop
            invariant
                in_scopes(texts(segments@), key_of_text(rest@)) == key_of_text(text@),
            decreases rest@.len(),
        {
            proof {
                rest@.index_of_first_ensures(SEPARATOR);
            }
            match text::split_once(rest, SEPARATOR) {
                None => {
                    return match Segment::parse(rest) {
                        Ok(name) => {
                            assert(texts(segments@) + Seq::<Seq<char>>::empty()
                                =~= texts(segments@));
                            Ok(Key { scope: Scope { segments }, name: name.to_buf() })
                        },
                        Err(error) => Err(error),
                    };
                },
                Some((first, others)) => {
                    match Segment::parse(first) {
                        Ok(segment) => {
                            let ghost before = segments@;
                            segments.push(segment.to_buf());
                            proof {
                                let key = key_of_text(others@);
                                assert(texts(segments@) =~= texts(before).push(first@));
                                if key is Ok {
                                    assert(texts(before) + (seq![first@] + key->Ok_0.scope)
                                        =~= texts(segments@) + key->Ok_0.scope);
                                }
                            }
                            rest = others;
                        },
                        Err(error) => {
                            return Err(error);
                        },
                    }
                },
            }
        }
    }

    /// The name of the key.
    pub fn name(&self) -> (name: &SegmentBuf)
        ensures
            name@ == self@.name,
            segment::is_segment(name@),
    {
        let _ = self.name.as_str();
        &self.name
    }

    /// The scope of the key.
    pub fn scope(&self) -> (scope: &Scope)
        ensures
            scope@ == self@.scope,
    {
        &self.scope
    }

    /// Puts the key into another scope, as the outermost segment of its own.
    pub fn add_super_scope(&mut self, segment: &Segment<'_>)
        ensures
            final(self)@ == (KeyModel {
                scope: seq![segment@] + old(self)@.scope,
                name: old(self)@.name,
            }),
    {
        self.scope.add_super_scope(segment);
    }
}

} // verus!
