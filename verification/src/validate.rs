//! Checking documents and paths, so that selection is sure to succeed.

use vstd::prelude::*;
use vstd::slice::slice_to_vec;

use crate::constants::ARRAY_CONTAINER_TAG;
use crate::constants::CONTAINER_TAG;
use crate::constants::FALSE_TAG;
use crate::constants::NULL_TAG;
use crate::constants::NUMBER_FLOAT;
use crate::constants::NUMBER_INF;
use crate::constants::NUMBER_INT;
use crate::constants::NUMBER_NAN;
use crate::constants::NUMBER_NEG_INF;
use crate::constants::NUMBER_TAG;
use crate::constants::NUMBER_UINT;
use crate::constants::NUMBER_ZERO;
use crate::constants::OBJECT_CONTAINER_TAG;
use crate::constants::SCALAR_CONTAINER_TAG;
use crate::constants::STRING_TAG;
use crate::constants::TRUE_TAG;
use crate::correspondence::lemma_entries_len_bound;
use crate::document::container_value;
use crate::document::entry_bytes;
use crate::document::entry_value;
use crate::document::entry_values;
use crate::document::filter_is_sound;
use crate::document::index_is_sound;
use crate::document::indices_are_sound;
use crate::document::longest_array;
use crate::document::longest_of_values;
use crate::document::operand_is_sound;
use crate::document::part_is_sound;
use crate::document::parts_are_sound;
use crate::document::path_is_sound;
use crate::document::scalar_of;
use crate::document::step_is_sound;
use crate::laws::law_sound_paths_are_followed;
use crate::number::number_value;
use crate::path::ArrayIndex;
use crate::path::BinaryOperator;
use crate::path::Expr;
use crate::path::FilterFunc;
use crate::path::Index;
use crate::path::JsonPath;
use crate::path::Path;
use crate::raw::RawJsonb;
use crate::selector::selection;
use crate::selector::Selector;
use crate::semantics::count_at;
use crate::semantics::entries_len;
use crate::semantics::object_base;
use crate::semantics::positions;
use crate::soundness::lemma_longest_of_first;
use crate::soundness::lemma_longest_of_object;
use crate::wire::decode_header;
use crate::wire::decode_jentries;
use crate::wire::decode_jentry;
use crate::wire::jentry_at;

verus! {

/// Entries that are not all values stay so when more are looked at.
proof fn lemma_entry_values_none(bytes: Seq<u8>, table: int, base: int, j: nat, k: nat)
    requires
        j <= k,
        entry_values(bytes, table, base, j) is None,
    ensures
        entry_values(bytes, table, base, k) is None,
    decreases k,
{
    if j < k {
        lemma_entry_values_none(bytes, table, base, j, (k - 1) as nat);
    }
}

/// Whether `bytes` encode a number.
fn is_number(bytes: &[u8]) -> (res: bool)
    ensures
        res == (number_value(bytes@) is Done),
{
    if bytes.len() == 0 {
        return false;
    }
    assert(bytes@.skip(1).len() == bytes@.len() - 1);
    let kind: u8 = bytes[0];
    let width: usize = bytes.len() - 1;
    let is_width: bool = width == 1 || width == 2 || width == 4 || width == 8;
    kind == NUMBER_ZERO || kind == NUMBER_NAN || kind == NUMBER_INF || kind == NUMBER_NEG_INF || (
    kind == NUMBER_INT && is_width) || (kind == NUMBER_UINT && is_width) || (kind == NUMBER_FLOAT
        && width == 8)
}

/// Whether `bytes` encode a scalar of kind `ty`.
fn is_scalar(ty: u32, bytes: &[u8]) -> (res: bool)
    ensures
        res == (scalar_of(ty, bytes@) is Some),
{
    assert(bytes@.subrange(0, bytes@.len() as int) =~= bytes@);
    if ty == NULL_TAG || ty == TRUE_TAG || ty == FALSE_TAG {
        true
    } else if ty == NUMBER_TAG {
        is_number(bytes)
    } else if ty == STRING_TAG {
        String::from_utf8(slice_to_vec(bytes)).is_ok()
    } else {
        false
    }
}

/// The length of the longest array in a container, if it is well-formed.
#[verifier::rlimit(60)]
fn longest_in_container(bytes: &[u8]) -> (res: Option<usize>)
    ensures
        match container_value(bytes@) {
            Some(value) => res matches Some(longest) && longest == longest_array(value),
            None => res is None,
        },
    decreases bytes@.len(), 1nat,
{
    reveal(container_value);
    let (rest, (ty, length)) = match decode_header(bytes) {
        Ok(found) => found,
        Err(_) => {
            return None;
        },
    };
    if ty == SCALAR_CONTAINER_TAG {
        let (payload, jentry) = match decode_jentry(rest) {
            Ok(found) => found,
            Err(_) => {
                return None;
            },
        };
        assert(jentry_at(rest@, 0) == jentry_at(bytes@, 4));
        if jentry.1 > payload.len() {
            return None;
        }
        let content: &[u8] = &payload[0..jentry.1];
        assert(content@ =~= bytes@.subrange(8, 8 + jentry.1));
        if is_scalar(jentry.0, content) {
            Some(0)
        } else {
            None
        }
    } else if ty == ARRAY_CONTAINER_TAG {
        let jentries: Vec<(u32, usize)> = match decode_jentries(rest, length) {
            Ok((_, jentries)) => jentries,
            Err(_) => {
                return None;
            },
        };
        assert(jentries@ =~= Seq::new(length as nat, |k: int| jentry_at(bytes@, 4 + 4 * k)));
        match longest_in_entries(bytes, 4, 4 + 4 * length, &jentries) {
            Some(longest) => Some(
                if length < longest {
                    longest
                } else {
                    length
                },
            ),
            None => None,
        }
    } else if ty == OBJECT_CONTAINER_TAG {
        let (values, key_jentries) = match decode_jentries(rest, length) {
            Ok(found) => found,
            Err(_) => {
                return None;
            },
        };
        let val_jentries: Vec<(u32, usize)> = match decode_jentries(values, length) {
            Ok((_, jentries)) => jentries,
            Err(_) => {
                return None;
            },
        };
        let ghost table = 4 + 4 * length;
        assert(key_jentries@ =~= Seq::new(length as nat, |k: int| jentry_at(bytes@, 4 + 4 * k)));
        assert(values@ =~= bytes@.skip(table));
        assert(val_jentries@ =~= Seq::new(
            length as nat,
            |k: int| jentry_at(bytes@, table + 4 * k),
        ));
        assert(bytes@.len() == bytes.len());
        let mut base: usize = 4 + 8 * length;
        let mut i: usize = 0;
        while i < length
            invariant
                i <= length,
                length == key_jentries@.len(),
                key_jentries@ == Seq::new(length as nat, |k: int| jentry_at(bytes@, 4 + 4 * k)),
                base == 4 + 8 * length + entries_len(bytes@, 4, i as nat),
                base <= bytes@.len(),
                bytes@.len() == bytes.len(),
                length == count_at(bytes@, 0),
                container_value(bytes@) is Some ==> object_base(bytes@, 0) <= bytes@.len(),
            decreases length - i,
        {
            let size: usize = key_jentries[i].1;
            if size > bytes.len() - base {
                proof {
                    lemma_entries_len_bound(bytes@, 4, (i + 1) as nat, length as nat);
                }
                return None;
            }
            base += size;
            i += 1;
        }
        let res: Option<usize> = longest_in_entries(bytes, 4 + 4 * length, base, &val_jentries);
        proof {
            if let Some(value) = container_value(bytes@) {
                lemma_longest_of_object(
                    value->Object_0,
                    entry_values(bytes@, table, base as int, length as nat)->0,
                    length as nat,
                );
            }
        }
        res
    } else {
        None
    }
}

/// The length of the longest array in the entries that `jentries` describe, if
/// all of them are values.
#[verifier::rlimit(60)]
fn longest_in_entries(
    bytes: &[u8],
    table: usize,
    base: usize,
    jentries: &Vec<(u32, usize)>,
) -> (res: Option<usize>)
    requires
        0 < base <= bytes@.len(),
        jentries@ == Seq::new(jentries@.len(), |k: int| jentry_at(bytes@, table + 4 * k)),
    ensures
        match entry_values(bytes@, table as int, base as int, jentries@.len()) {
            Some(values) => {
                &&& values.len() == jentries@.len()
                &&& res matches Some(longest)
                &&& longest == longest_of_values(values, values.len())
            },
            None => res is None,
        },
    decreases bytes@.len(), 0nat,
{
    let mut longest: usize = 0;
    let mut offset: usize = base;
    let mut i: usize = 0;
    while i < jentries.len()
        invariant
            i <= jentries@.len(),
            0 < base <= offset <= bytes@.len(),
            jentries@ == Seq::new(jentries@.len(), |k: int| jentry_at(bytes@, table + 4 * k)),
            offset == base + entries_len(bytes@, table as int, i as nat),
            entry_values(bytes@, table as int, base as int, i as nat) matches Some(values)
                && values.len() == i && longest == longest_of_values(values, i as nat),
        decreases jentries@.len() - i,
    {
        reveal(container_value);
        let (ty, size) = jentries[i];
        let ghost next = (i + 1) as nat;
        let ghost before = entry_values(bytes@, table as int, base as int, i as nat)->0;
        assert(jentries@[i as int] == jentry_at(bytes@, table + 4 * i));
        let left: usize = bytes.len() - offset;
        let mut inner: Option<usize> = None;
        if size <= left {
            let content: &[u8] = &bytes[offset..offset + size];
            assert(content@ == entry_bytes(bytes@, table as int, base as int, i as int));
            if ty == CONTAINER_TAG {
                inner = longest_in_container(content);
            } else if is_scalar(ty, content) {
                inner = Some(0);
            }
            assert(match entry_value(ty, content@) {
                Some(value) => inner matches Some(k) && k == longest_array(value),
                None => inner is None,
            });
            offset += size;
        }
        match inner {
            Some(k) => {
                proof {
                    let values = entry_values(bytes@, table as int, base as int, next)->0;
                    lemma_longest_of_first(before, values, i as nat);
                }
                if longest < k {
                    longest = k;
                }
            },
            None => {
                proof {
                    assert(entry_values(bytes@, table as int, base as int, next) is None);
                    lemma_entry_values_none(
                        bytes@,
                        table as int,
                        base as int,
                        next,
                        jentries@.len(),
                    );
                }
                return None;
            },
        }
        i += 1;
    }
    Some(longest)
}

impl<'a> RawJsonb<'a> {
    /// Whether the document is well-formed, so that it encodes a value.
    pub fn is_well_formed(&self) -> (res: bool)
        ensures
            res == (container_value(self@) is Some),
    {
        longest_in_container(self.data).is_some()
    }
}

/// Whether counting from the last value of an array stays in 32 bits, if no array
/// is longer than `longest`.
fn is_sound_index(index: &Index, longest: usize) -> (res: bool)
    ensures
        res == index_is_sound(*index, longest as nat),
{
    match index {
        Index::Index(_) => true,
        Index::LastIndex(i) => longest as i128 + *i as i128 <= i32::MAX as i128,
    }
}

/// Whether all of `indices` stay in 32 bits, if no array is longer than `longest`.
fn are_sound_indices(indices: &Vec<ArrayIndex>, longest: usize) -> (res: bool)
    ensures
        res == indices_are_sound(indices@, longest as nat),
{
    let mut k: usize = 0;
    while k < indices.len()
        invariant
            k <= indices@.len(),
            indices_are_sound(indices@.take(k as int), longest as nat),
        decreases indices@.len() - k,
    {
        let ok: bool = match &indices[k] {
            ArrayIndex::Index(index) => is_sound_index(index, longest),
            ArrayIndex::Slice((from, to)) => is_sound_index(from, longest) && is_sound_index(to, longest),
        };
        if !ok {
            assert(!indices_are_sound(indices@, longest as nat)) by {
                let _index = indices@[k as int];
            }
            return false;
        }
        assert forall|j: int| 0 <= j < k + 1 implies match #[trigger] indices@.take(k + 1)[j] {
            ArrayIndex::Index(i) => index_is_sound(i, longest as nat),
            ArrayIndex::Slice((from, to)) => index_is_sound(from, longest as nat) && index_is_sound(to, longest as nat),
        } by {
            if j < k {
                assert(indices@.take(k as int)[j] == indices@.take(k + 1)[j]);
            }
        }
        k += 1;
    }
    assert(indices@.take(k as int) =~= indices@);
    true
}

/// Whether a part of a path selects parts of a value, whatever the value.
fn is_sound_step(path: &Path<'_>, longest: usize) -> (res: bool)
    ensures
        res == step_is_sound(*path, longest as nat),
{
    match path {
        Path::Root | Path::Current | Path::FilterExpr(_) | Path::Predicate(_) => false,
        Path::ArrayIndices(indices) => are_sound_indices(indices, longest),
        _ => true,
    }
}

/// Whether an expression can stand on one side of a comparison.
fn is_sound_operand(expr: &Expr<'_>, longest: usize) -> (res: bool)
    ensures
        res == operand_is_sound(*expr, longest as nat),
{
    match expr {
        Expr::Value(_) => true,
        Expr::Paths(paths) => {
            let mut k: usize = 1;
            #[verifier::loop_isolation(false)]
            while k < paths.len()
                invariant
                    1 <= k,
                    forall|j: int|
                        1 <= j < k && j < paths@.len() ==> step_is_sound(
                            #[trigger] paths@[j],
                            longest as nat,
                        ),
                decreases paths@.len() - k,
            {
                if !is_sound_step(&paths[k], longest) {
                    return false;
                }
                k += 1;
            }
            true
        },
        _ => false,
    }
}

/// Whether an expression can be used as a filter.
fn is_sound_filter(expr: &Expr<'_>, longest: usize) -> (res: bool)
    ensures
        res == filter_is_sound(*expr, longest as nat),
    decreases *expr, 0nat,
{
    match expr {
        Expr::BinaryOp { op, left, right } => match op {
            BinaryOperator::And | BinaryOperator::Or => {
                let l: bool = is_sound_filter(left, longest);
                let r: bool = is_sound_filter(right, longest);
                l && r
            },
            _ => is_sound_operand(left, longest) && is_sound_operand(right, longest),
        },
        Expr::FilterFunc(filter_func) => match filter_func {
            FilterFunc::Exists(paths) => are_sound_parts(paths.as_slice(), longest),
            FilterFunc::StartsWith(_) => true,
        },
        _ => false,
    }
}

/// Whether a part of a path has a meaning, whatever the document.
fn is_sound_part(path: &Path<'_>, longest: usize) -> (res: bool)
    ensures
        res == part_is_sound(*path, longest as nat),
    decreases *path, 0nat,
{
    match path {
        Path::Root | Path::Current => true,
        Path::FilterExpr(expr) | Path::Predicate(expr) => {
            let res: bool = is_sound_filter(expr, longest);
            assert(part_is_sound(*path, longest as nat) == filter_is_sound(**expr, longest as nat));
            res
        },
        _ => is_sound_step(path, longest),
    }
}

/// Whether all parts of a path have a meaning, whatever the document.
fn are_sound_parts(paths: &[Path<'_>], longest: usize) -> (res: bool)
    ensures
        res == parts_are_sound(paths@, longest as nat),
    decreases paths@, 1nat,
{
    let mut k: usize = 0;
    while k < paths.len()
        invariant
            k <= paths@.len(),
            forall|j: int| 0 <= j < k ==> part_is_sound(#[trigger] paths@[j], longest as nat),
        decreases paths@.len() - k,
    {
        assert(decreases_to!(paths@ => paths@[k as int]));
        if !is_sound_part(&paths[k], longest) {
            assert(!part_is_sound(paths@[k as int], longest as nat));
            return false;
        }
        k += 1;
    }
    true
}

impl<'a> JsonPath<'a> {
    /// Whether the path has a meaning in every document whose arrays are no longer
    /// than `longest`.
    pub fn is_sound(&self, longest: usize) -> (res: bool)
        ensures
            res == path_is_sound(*self, longest as nat),
    {
        if self.paths.len() > 0 && matches!(self.paths[0], Path::Current) {
            return false;
        }
        are_sound_parts(self.paths.as_slice(), longest)
    }
}

impl<'a> Selector<'a> {
    /// Whether the document is well-formed and the path has a meaning in documents
    /// with arrays as long as its own. Then the path can be applied to the
    /// document, and it does not fail.
    pub fn can_select(&self, root: RawJsonb<'_>) -> (res: bool)
        ensures
            res == (container_value(root@) matches Some(value) && path_is_sound(
                self.path(),
                longest_array(value),
            )),
            res ==> positions(root@, None, self.path().paths@) is Done,
            res ==> selection(root@, self.path(), self.mode()) is Done,
    {
        let longest: usize = match longest_in_container(root.data) {
            Some(longest) => longest,
            None => {
                return false;
            },
        };
        let res: bool = self.json_path().is_sound(longest);
        proof {
            if res {
                assert(root@.len() == root.data.len());
                law_sound_paths_are_followed(
                    root@,
                    container_value(root@)->0,
                    self.path(),
                    self.mode(),
                );
            }
        }
        res
    }
}

} // verus!
