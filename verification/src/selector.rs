//! Applying a path to a document.

use std::collections::VecDeque;
use vstd::prelude::*;

use crate::error::Error;
use crate::outcome::Outcome;
use crate::path::JsonPath;
use crate::position_laws::law_evaluation_errors;
use crate::raw::documents;
use crate::raw::OwnedJsonb;
use crate::raw::RawJsonb;
use crate::semantics::array_documents;
use crate::semantics::boolean_document;
use crate::semantics::positions;
use crate::semantics::value_documents;
use crate::semantics::Position;

verus! {

/// The form in which the selected values are returned.
#[derive(Clone, Copy, Debug, PartialEq, Eq)]
pub enum Mode {
    /// Only the first value.
    First,
    /// All values, as one array.
    Array,
    /// Each value separately.
    All,
    /// One array if there are several values, the value itself if there is one.
    Mixed,
}

/// Applies a path to documents.
pub struct Selector<'a> {
    json_path: &'a JsonPath<'a>,
    mode: Mode,
}

/// The documents in which the values at `poses` are returned.
pub open spec fn packed(data: Seq<u8>, poses: Seq<Position>, mode: Mode) -> Outcome<
    Seq<Seq<u8>>,
> {
    match mode {
        Mode::All => value_documents(data, poses),
        Mode::First => value_documents(
            data,
            if poses.len() > 1 {
                poses.take(1)
            } else {
                poses
            },
        ),
        Mode::Array => array_documents(data, poses),
        Mode::Mixed => if poses.len() > 1 {
            array_documents(data, poses)
        } else {
            value_documents(data, poses)
        },
    }
}

/// The documents that `json_path` selects: `true` or `false` for a predicate,
/// the values that it leads to otherwise.
pub open spec fn selection(data: Seq<u8>, json_path: JsonPath, mode: Mode) -> Outcome<
    Seq<Seq<u8>>,
> {
    match positions(data, None, json_path.paths@) {
        Outcome::Done(poses) => if json_path.predicate() {
            Outcome::Done(seq![boolean_document(poses.len() > 0)])
        } else {
            packed(data, poses, mode)
        },
        Outcome::Failed(e) => Outcome::Failed(e),
        Outcome::Undefined => Outcome::Undefined,
    }
}

impl<'a> Selector<'a> {
    /// The path of the selector.
    pub closed spec fn path(&self) -> JsonPath<'a> {
        *self.json_path
    }

    /// The mode of the selector.
    pub closed spec fn mode(&self) -> Mode {
        self.mode
    }

    /// A selector for a path, with the form in which values are returned.
    pub fn new(json_path: &'a JsonPath<'a>, mode: Mode) -> (selector: Self)
        ensures
            selector.path() == *json_path,
            selector.mode() == mode,
    {
        Self { json_path, mode }
    }

    /// The path of the selector.
    pub(crate) fn json_path(&self) -> (json_path: &JsonPath<'a>)
        ensures
            *json_path == self.path(),
    {
        self.json_path
    }

    /// Returns what the path selects in a document. A predicate gives a single
    /// `true` or `false`, any other path gives the values that it leads to, in
    /// the form that the mode asks for.
    pub fn select(&self, root: RawJsonb<'_>) -> (res: Result<Vec<OwnedJsonb>, Error>)
        requires
            selection(root@, self.path(), self.mode()) !is Undefined,
        ensures
            match selection(root@, self.path(), self.mode()) {
                Outcome::Done(found) => res matches Ok(owned) && documents(owned@) == found,
                Outcome::Failed(e) => res matches Err(error) && error == e,
                Outcome::Undefined => false,
            },
    {
        let mut poses: VecDeque<Position> = match self.find_positions(
            root,
            None,
            self.json_path.paths.as_slice(),
        ) {
            Ok(poses) => poses,
            Err(e) => {
                return Err(e);
            },
        };
        if self.json_path.is_predicate() {
            return Self::build_predicate_result(&mut poses);
        }
        match self.mode {
            Mode::All => Self::build_values(root, &mut poses),
            Mode::First => {
                let ghost all = poses@;
                poses.truncate(1);
                assert(all.len() > 1 ==> poses@ =~= all.take(1));
                assert(all.len() <= 1 ==> poses@ =~= all);
                Self::build_values(root, &mut poses)
            },
            Mode::Array => Self::build_scalar_array(root, &mut poses),
            Mode::Mixed => {
                if poses.len() > 1 {
                    Self::build_scalar_array(root, &mut poses)
                } else {
                    Self::build_values(root, &mut poses)
                }
            },
        }
    }

    /// Whether the path leads to a value of a document. A predicate always gives
    /// a value, so for it the answer is yes.
    pub fn path_exists(&self, root: RawJsonb<'_>) -> (res: Result<bool, Error>)
        requires
            self.path().predicate() || positions(root@, None, self.path().paths@) !is Undefined,
        ensures
            if self.path().predicate() {
                res == Ok::<bool, Error>(true)
            } else {
                match positions(root@, None, self.path().paths@) {
                    Outcome::Done(found) => res == Ok::<bool, Error>(found.len() > 0),
                    Outcome::Failed(e) => res == Err::<bool, Error>(e),
                    Outcome::Undefined => false,
                }
            },
            selection(root@, self.path(), Mode::All) matches Outcome::Done(found) ==> res == Ok::<
                bool,
                Error,
            >(found != Seq::<Seq<u8>>::empty()),
    {
        proof {
            if let Outcome::Done(found) = selection(root@, self.path(), Mode::All) {
                assert(found.len() == 0 ==> found =~= Seq::empty());
            }
        }
        if self.json_path.is_predicate() {
            return Ok(true);
        }
        match self.find_positions(root, None, self.json_path.paths.as_slice()) {
            Ok(poses) => Ok(poses.len() > 0),
            Err(e) => Err(e),
        }
    }

    /// Whether a document satisfies the path, which has to be a predicate. Any
    /// other path is refused, whatever the document, and no predicate is.
    pub fn predicate_match(&self, root: RawJsonb<'_>) -> (res: Result<bool, Error>)
        requires
            self.path().predicate() ==> positions(root@, None, self.path().paths@) !is Undefined,
        ensures
            if self.path().predicate() {
                match positions(root@, None, self.path().paths@) {
                    Outcome::Done(found) => res == Ok::<bool, Error>(found.len() > 0),
                    Outcome::Failed(e) => res == Err::<bool, Error>(e),
                    Outcome::Undefined => false,
                }
            } else {
                res == Err::<bool, Error>(Error::InvalidJsonPathPredicate)
            },
            res == Err::<bool, Error>(Error::InvalidJsonPathPredicate) <==> !self.path().predicate(),
            self.path().predicate() ==> (selection(root@, self.path(), self.mode()) matches
                Outcome::Done(found) ==> (res matches Ok(answer) && found == seq![
                boolean_document(answer),
            ])),
    {
        proof {
            law_evaluation_errors(root@, None, self.path().paths@);
        }
        if !self.json_path.is_predicate() {
            return Err(Error::InvalidJsonPathPredicate);
        }
        match self.find_positions(root, None, self.json_path.paths.as_slice()) {
            Ok(poses) => Ok(poses.len() > 0),
            Err(e) => Err(e),
        }
    }
}

} // verus!
