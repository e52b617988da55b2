//! Stable arrangement: what both sorts of the library keep while they put
//! one item after another into its place.

use vstd::prelude::*;

verus! {

/// Whether `placed` holds items of `input` in order under `le`, where
/// `origin` gives for each position of `placed` the position in `input` that
/// its item came from, no position below `from` has been taken yet, and
/// items that `le` does not tell apart stand in the order in which they
/// came.
pub open spec fn stably_placed<A>(
    input: Seq<A>,
    placed: Seq<A>,
    origin: Seq<int>,
    from: int,
    le: spec_fn(A, A) -> bool,
) -> bool {
    &&& origin.len() == placed.len()
    &&& forall|k: int|
        0 <= k < placed.len() ==> from <= #[trigger] origin[k] < input.len() && placed[k]
            == input[origin[k]]
    &&& forall|k: int, l: int|
        0 <= k < l < placed.len() ==> le(#[trigger] placed[k], #[trigger] placed[l])
    &&& forall|k: int, l: int|
        0 <= k < l < placed.len() ==> #[trigger] origin[k] != #[trigger] origin[l]
    &&& forall|k: int, l: int|
        0 <= k < l < placed.len() && le(placed[l], placed[k]) ==> #[trigger] origin[k]
            < #[trigger] origin[l]
}

/// Putting the item of position `m` in front of the first placed item that
/// does not come before it keeps the arrangement, where every placed item
/// came from a position after `m`.
pub proof fn placing_keeps_order<A>(
    input: Seq<A>,
    placed: Seq<A>,
    origin: Seq<int>,
    at: int,
    m: int,
    le: spec_fn(A, A) -> bool,
)
    requires
        0 <= m < input.len(),
        0 <= at <= placed.len(),
        stably_placed(input, placed, origin, m + 1, le),
        forall|i: int| 0 <= i < at ==> le(#[trigger] placed[i], input[m]) && !le(input[m], placed[i]),
        forall|j: int| at <= j < placed.len() ==> le(input[m], #[trigger] placed[j]),
    ensures
        stably_placed(input, placed.insert(at, input[m]), origin.insert(at, m), m, le),
{
    let item = input[m];
    let next = placed.insert(at, item);
    let from = origin.insert(at, m);
    assert forall|k: int| 0 <= k < next.len() implies m <= #[trigger] from[k] < input.len()
        && next[k] == input[from[k]] by {
        if k < at {
            assert(from[k] == origin[k] && next[k] == placed[k]);
        } else if k > at {
            assert(from[k] == origin[k - 1] && next[k] == placed[k - 1]);
        }
    }
    assert forall|k: int, l: int| 0 <= k < l < next.len() implies le(
        #[trigger] next[k],
        #[trigger] next[l],
    ) by {
        let a = if k < at { k } else { k - 1 };
        let b = if l < at { l } else { l - 1 };
        if k == at {
            assert(next[l] == placed[b]);
        } else if l == at {
            assert(next[k] == placed[a]);
        } else {
            assert(next[k] == placed[a] && next[l] == placed[b]);
        }
    }
    assert forall|k: int, l: int| 0 <= k < l < next.len() implies #[trigger] from[k]
        != #[trigger] from[l] && (le(next[l], next[k]) ==> from[k] < from[l]) by {
        let a = if k < at { k } else { k - 1 };
        let b = if l < at { l } else { l - 1 };
        if k == at {
            assert(from[l] == origin[b]);
        } else if l == at {
            assert(from[k] == origin[a] && next[k] == placed[a]);
        } else {
            assert(from[k] == origin[a] && from[l] == origin[b]);
            assert(next[k] == placed[a] && next[l] == placed[b]);
        }
    }
}

} // verus!
