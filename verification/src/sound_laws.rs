//! Laws of soundness: which paths have a meaning, and for which arrays.

use vstd::prelude::*;

use crate::document::filter_is_sound;
use crate::document::longest_array;
use crate::document::longest_of_members;
use crate::document::longest_of_values;
use crate::document::operand_is_sound;
use crate::document::part_is_sound;
use crate::document::parts_are_sound;
use crate::document::path_is_sound;
use crate::document::step_is_sound;
use crate::document::Json;
use crate::path::ArrayIndex;
use crate::path::BinaryOperator;
use crate::path::Expr;
use crate::path::FilterFunc;
use crate::path::Index;
use crate::path::JsonPath;
use crate::path::Path;
use crate::soundness::lemma_longest_of_members;
use crate::soundness::lemma_longest_of_values;

verus! {

/// The longest array in a value: an array counts itself and what its values hold, an
/// object what its values hold, a scalar nothing. No array that a value holds is
/// longer, and one is as long.
pub proof fn law_longest_array(
    values: Seq<Json>,
    members: Seq<(Seq<u8>, Json)>,
    value: Json,
    i: int,
)
    ensures
        value is Leaf || value is Document ==> longest_array(value) == 0,
        values.len() <= longest_array(Json::Array(values)),
        0 <= i < values.len() ==> longest_array(values[i]) <= longest_array(Json::Array(values)),
        longest_array(Json::Array(values)) == values.len() || exists|k: int|
            0 <= k < values.len() && longest_array(Json::Array(values)) == longest_array(
                #[trigger] values[k],
            ),
        0 <= i < members.len() ==> longest_array(members[i].1) <= longest_array(
            Json::Object(members),
        ),
        longest_array(Json::Object(members)) == 0 || exists|k: int|
            0 <= k < members.len() && longest_array(Json::Object(members)) == longest_array(
                (#[trigger] members[k]).1,
            ),
{
    if 0 <= i < values.len() {
        lemma_longest_of_values(values, values.len(), i);
    }
    if 0 <= i < members.len() {
        lemma_longest_of_members(members, members.len(), i);
    }
    lemma_longest_is_attained(values, values.len());
    lemma_longest_member_is_attained(members, members.len());
}

/// The longest array of several values is that of one of them.
proof fn lemma_longest_is_attained(values: Seq<Json>, k: nat)
    requires
        k <= values.len(),
    ensures
        longest_of_values(values, k) == 0 || exists|i: int|
            0 <= i < k && longest_of_values(values, k) == longest_array(#[trigger] values[i]),
    decreases k,
{
    if k > 0 {
        lemma_longest_is_attained(values, (k - 1) as nat);
        if longest_of_values(values, k) == longest_array(values[k - 1]) {
        } else if longest_of_values(values, (k - 1) as nat) != 0 {
            let i = choose|i: int|
                0 <= i < k - 1 && longest_of_values(values, (k - 1) as nat) == longest_array(
                    #[trigger] values[i],
                );
            assert(longest_of_values(values, k) == longest_array(values[i]));
        }
    }
}

/// The longest array of several members is that of one of them.
proof fn lemma_longest_member_is_attained(members: Seq<(Seq<u8>, Json)>, k: nat)
    requires
        k <= members.len(),
    ensures
        longest_of_members(members, k) == 0 || exists|i: int|
            0 <= i < k && longest_of_members(members, k) == longest_array((#[trigger] members[i]).1),
    decreases k,
{
    if k > 0 {
        lemma_longest_member_is_attained(members, (k - 1) as nat);
        if longest_of_members(members, k) == longest_array(members[k - 1].1) {
        } else if longest_of_members(members, (k - 1) as nat) != 0 {
            let i = choose|i: int|
                0 <= i < k - 1 && longest_of_members(members, (k - 1) as nat) == longest_array(
                    (#[trigger] members[i]).1,
                );
            assert(longest_of_members(members, k) == longest_array(members[i].1));
        }
    }
}

/// Which parts of a path have a meaning: `$`, `@`, wildcards and names always,
/// indices unless one counts beyond 32 bits from the last place of an array that is
/// as long as can be, filters if their expression can be evaluated.
pub proof fn law_sound_parts(path: Path, longest: nat)
    ensures
        path is Root || path is Current || path is DotWildcard || path is BracketWildcard || path
            is ColonField || path is DotField || path is ObjectField ==> part_is_sound(
            path,
            longest,
        ),
        path matches Path::FilterExpr(expr) ==> part_is_sound(path, longest) == filter_is_sound(
            *expr,
            longest,
        ),
        path matches Path::Predicate(expr) ==> part_is_sound(path, longest) == filter_is_sound(
            *expr,
            longest,
        ),
        path matches Path::ArrayIndices(indices) ==> (part_is_sound(path, longest) <==> forall|
            k: int,
        |
            0 <= k < indices@.len() ==> match #[trigger] indices@[k] {
                ArrayIndex::Index(Index::LastIndex(i)) => longest + i <= 0x7FFF_FFFF,
                ArrayIndex::Index(Index::Index(_)) => true,
                ArrayIndex::Slice((from, to)) => {
                    &&& from matches Index::LastIndex(i) ==> longest + i <= 0x7FFF_FFFF
                    &&& to matches Index::LastIndex(i) ==> longest + i <= 0x7FFF_FFFF
                },
            }),
{
}

/// Which expressions can be evaluated as filters: connectives of such expressions,
/// comparisons of operands, `exists(..)` of parts that have a meaning, and
/// `starts with`; literals and paths cannot.
pub proof fn law_sound_filters(
    op: BinaryOperator,
    left: Box<Expr>,
    right: Box<Expr>,
    expr: Expr,
    longest: nat,
)
    ensures
        op is And || op is Or ==> filter_is_sound(Expr::BinaryOp { op, left, right }, longest) == (
        filter_is_sound(*left, longest) && filter_is_sound(*right, longest)),
        op !is And && op !is Or ==> filter_is_sound(Expr::BinaryOp { op, left, right }, longest) ==
        (operand_is_sound(*left, longest) && operand_is_sound(*right, longest)),
        expr matches Expr::FilterFunc(FilterFunc::Exists(paths)) ==> (filter_is_sound(expr, longest)
            <==> forall|k: int|
            0 <= k < paths@.len() ==> part_is_sound(#[trigger] paths@[k], longest)),
        expr matches Expr::FilterFunc(FilterFunc::StartsWith(_)) ==> filter_is_sound(expr, longest),
        expr is Value || expr is Paths ==> !filter_is_sound(expr, longest),
{
    if let Expr::FilterFunc(FilterFunc::Exists(paths)) = expr {
        assert(filter_is_sound(expr, longest) == parts_are_sound(paths@, longest));
    }
}

/// Which expressions can stand on one side of a comparison: literals, and paths whose
/// parts after the first select and have a meaning.
pub proof fn law_sound_operands(expr: Expr, longest: nat)
    ensures
        expr is Value ==> operand_is_sound(expr, longest),
        expr is BinaryOp || expr is FilterFunc ==> !operand_is_sound(expr, longest),
        expr matches Expr::Paths(paths) ==> (operand_is_sound(expr, longest) <==> forall|k: int|
            1 <= k < paths@.len() ==> part_is_sound(#[trigger] paths@[k], longest) && paths@[k]
                !is Root && paths@[k] !is Current && paths@[k] !is FilterExpr && paths@[k]
                !is Predicate),
{
    if let Expr::Paths(paths) = expr {
        assert forall|k: int| 1 <= k < paths@.len() implies step_is_sound(
            #[trigger] paths@[k],
            longest,
        ) == (part_is_sound(paths@[k], longest) && paths@[k] !is Root && paths@[k] !is Current
            && paths@[k] !is FilterExpr && paths@[k] !is Predicate) by {}
    }
}

/// A path has a meaning if and only if all of its parts have one and it does not
/// start with `@`.
pub proof fn law_sound_paths(json_path: JsonPath, longest: nat)
    ensures
        path_is_sound(json_path, longest) <==> {
            &&& forall|k: int|
                0 <= k < json_path.paths@.len() ==> part_is_sound(
                    #[trigger] json_path.paths@[k],
                    longest,
                )
            &&& json_path.paths@.len() > 0 ==> json_path.paths@[0] !is Current
        },
{
}

} // verus!
