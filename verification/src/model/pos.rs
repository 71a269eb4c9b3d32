//! Positions are egui's `Pos2`, carried through the graph as they are. The
//! graph only ever asks one thing of them: whether a move changed one.

use egui::Pos2;
use vstd::prelude::*;

verus! {

#[verifier::external_type_specification]
#[verifier::external_body]
pub struct ExPos2(Pos2);

/// `Pos2`'s `Clone`, which emath derives beside `Copy`: the clone is the
/// position itself.
pub assume_specification[ <Pos2 as Clone>::clone ](p: &Pos2) -> (copy: Pos2)
    ensures
        copy == *p,
;

/// What `Pos2`'s `==` answers for two positions that hold no NaN.
pub uninterp spec fn same_pos(a: Pos2, b: Pos2) -> bool;

/// What `Pos2::any_nan` answers.
pub uninterp spec fn pos_has_nan(p: Pos2) -> bool;

/// `Pos2`'s `==` (emath's `impl PartialEq for Pos2`, which compares both
/// coordinates). Claimed: the answer is `same_pos` of the two positions, a
/// function of them alone. emath asserts in debug builds that neither holds a
/// NaN, so that is required.
#[verifier::external_body]
pub(crate) fn positions_equal(a: &Pos2, b: &Pos2) -> (equal: bool)
    requires
        !pos_has_nan(*a),
        !pos_has_nan(*b),
    ensures
        equal == same_pos(*a, *b),
{
    *a == *b
}

/// `Pos2::any_nan`. Claimed: the answer is `pos_has_nan` of the position.
#[verifier::external_body]
pub(crate) fn position_has_nan(p: &Pos2) -> (nan: bool)
    ensures
        nan == pos_has_nan(*p),
{
    p.any_nan()
}

} // verus!
