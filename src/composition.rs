use vstd::prelude::*;

verus! {

/// Every sequence of non-negative counts, one per weight of `ws`, whose
/// weighted sum stays within `target`, with the first count at least `c`, each
/// followed by the remainder that the counts leave of `target`. They come in
/// ascending lexicographic order of the counts.
pub open spec fn combos(target: int, ws: Seq<int>, c: int) -> Seq<Seq<int>>
    decreases ws.len(), if c <= target { target - c + 1 } else { 0 },
{
    if ws.len() == 0 {
        seq![seq![target]]
    } else if c > target || c * ws[0] > target {
        seq![]
    } else {
        combos(target - c * ws[0], ws.drop_first(), 0).map_values(|s: Seq<int>| seq![c] + s)
            + combos(target, ws, c + 1)
    }
}

/// A sequence of machine integer vectors read as sequences of mathematical integers.
pub open spec fn nested_ints(v: Seq<Vec<i64>>) -> Seq<Seq<int>> {
    v.map_values(|x: Vec<i64>| x@.map_values(|y: i64| y as int))
}

} // verus!
