//! Helpers of the lowering into a layout document that need no syntax tree.
use vstd::prelude::*;

use crate::doc::{Doc, SDoc, docs_view};

verus! {

/// Whether formatting is switched off at `offset`: the last directive at or before it, in
/// source order, says `fmt off` (`false`).
pub open spec fn spec_disabled_at(directives: Seq<(usize, bool)>, offset: int) -> bool
    decreases directives.len(),
{
    if directives.len() == 0 {
        false
    } else if directives.last().0 <= offset {
        !directives.last().1
    } else {
        spec_disabled_at(directives.drop_last(), offset)
    }
}

/// Whether formatting is switched off at `offset`, given the `fmt off` / `fmt on` directives
/// with the offset of the token that follows each, in source order.
pub fn disabled_at(directives: &[(usize, bool)], offset: usize) -> (r: bool)
    requires
        forall|i: int, j: int|
            0 <= i < j < directives@.len() ==> directives@[i].0 <= directives@[j].0,
    ensures
        r == spec_disabled_at(directives@, offset as int),
{
    let mut i = directives.len();
    assert(directives@.take(i as int) =~= directives@);
    while i > 0
        invariant
            0 <= i <= directives@.len(),
            forall|k: int| i <= k < directives@.len() ==> directives@[k].0 > offset,
            spec_disabled_at(directives@, offset as int) == spec_disabled_at(directives@.take(i as int), offset as int),
        decreases i,
    {
        let (at, on) = directives[i - 1];
        assert(directives@.take(i as int).last() == directives@[i - 1]);
        if at <= offset {
            return !on;
        }
        assert(directives@.take(i as int).drop_last() =~= directives@.take(i - 1));
        i = i - 1;
    }
    false
}

/// The documents of `v`, one after the other.
pub fn concat(v: Vec<Doc>) -> (r: Doc)
    ensures
        r@ == SDoc::Concat(docs_view(v@)),
{
    let r = Doc::Concat(v);
    assert(r@->Concat_0 =~= docs_view(v@));
    r
}

} // verus!
