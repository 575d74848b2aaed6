use vstd::prelude::*;

verus! {

/// The least first component of `d`, or `u32::MAX` when `d` is empty.
pub open spec fn min_x(d: Seq<(u32, u32)>) -> u32
    decreases d.len(),
{
    if d.len() == 0 {
        u32::MAX
    } else if d.last().0 < min_x(d.drop_last()) {
        d.last().0
    } else {
        min_x(d.drop_last())
    }
}

/// The greatest first component of `d`, or 0 when `d` is empty.
pub open spec fn max_x(d: Seq<(u32, u32)>) -> u32
    decreases d.len(),
{
    if d.len() == 0 {
        0
    } else if d.last().0 > max_x(d.drop_last()) {
        d.last().0
    } else {
        max_x(d.drop_last())
    }
}

/// The greatest second component of `d`, or 0 when `d` is empty.
pub open spec fn max_y(d: Seq<(u32, u32)>) -> u32
    decreases d.len(),
{
    if d.len() == 0 {
        0
    } else if d.last().1 > max_y(d.drop_last()) {
        d.last().1
    } else {
        max_y(d.drop_last())
    }
}

/// The extent of the (value, luckiness) pairs to chart: the least and
/// greatest value and the greatest luckiness.
pub fn chart_extent(data: &Vec<(u32, u32)>) -> (r: (u32, u32, u32))
    ensures
        r == (min_x(data@), max_x(data@), max_y(data@)),
{
    let ghost d = data@;
    let mut lo: u32 = u32::MAX;
    let mut hi: u32 = 0;
    let mut top: u32 = 0;
    let mut i: usize = 0;
    assert(d.take(0) =~= Seq::<(u32, u32)>::empty());
    while i < data.len()
        invariant
            d == data@,
            0 <= i <= d.len(),
            lo == min_x(d.take(i as int)),
            hi == max_x(d.take(i as int)),
            top == max_y(d.take(i as int)),
        decreases d.len() - i,
    {
        let item = data[i];
        assert(d.take(i + 1).drop_last() =~= d.take(i as int));
        assert(d.take(i + 1).last() == item);
        if item.0 < lo {
            lo = item.0;
        }
        if item.0 > hi {
            hi = item.0;
        }
        if item.1 > top {
            top = item.1;
        }
        i = i + 1;
    }
    assert(d.take(d.len() as int) =~= d);
    (lo, hi, top)
}

} // verus!
