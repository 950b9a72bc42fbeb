use crate::fpu;
use crate::fpu::Fpu;
use crate::ops::rows;
use vstd::prelude::*;

verus! {

/// The values of the first `n` entries whose target is `cell`, in order.
pub open spec fn hits(targets: Seq<usize>, values: Seq<u32>, n: int, cell: int) -> Seq<u32>
    decreases n,
{
    if n <= 0 {
        Seq::empty()
    } else if targets[n - 1] == cell {
        hits(targets, values, n - 1, cell).push(values[n - 1])
    } else {
        hits(targets, values, n - 1, cell)
    }
}

/// Each cell of `r` is the sum of the values that go there, added to zero in order.
pub open spec fn scattered<F: Fpu>(f: &F, targets: Seq<usize>, values: Seq<u32>, r: Seq<u32>) -> bool {
    forall|cell: int|
        0 <= cell < r.len() ==> rows::left_sum(
            f,
            fpu::ZERO,
            hits(targets, values, targets.len() as int, cell),
            #[trigger] r[cell],
        )
}

/// Adds each value to the cell that is its target.
pub fn scatter_add<F: Fpu>(targets: &Vec<usize>, values: &Vec<u32>, size: usize, f: &F) -> (r: Vec<u32>)
    requires
        targets@.len() == values@.len(),
        forall|i: int| 0 <= i < targets@.len() ==> #[trigger] targets@[i] < size,
    ensures
        r@.len() == size,
        scattered(f, targets@, values@, r@),
{
    let mut r: Vec<u32> = vec![fpu::ZERO; size];
    for n in 0..targets.len()
        invariant
            targets@.len() == values@.len(),
            forall|i: int| 0 <= i < targets@.len() ==> #[trigger] targets@[i] < size,
            r@.len() == size,
            forall|cell: int|
                0 <= cell < size ==> rows::left_sum(
                    f,
                    fpu::ZERO,
                    hits(targets@, values@, n as int, cell),
                    #[trigger] r@[cell],
                ),
    {
        let cell: usize = targets[n];
        let ghost before = r@;
        let v: u32 = f.add(r[cell], values[n]);
        r.set(cell, v);
        proof {
            let h = hits(targets@, values@, n as int, cell as int);
            let next = hits(targets@, values@, n + 1, cell as int);
            assert(next.drop_last() =~= h);
            assert(fpu::adds(f, before[cell as int], next.last(), v));
            assert forall|c: int| 0 <= c < size implies rows::left_sum(
                f,
                fpu::ZERO,
                hits(targets@, values@, n + 1, c),
                #[trigger] r@[c],
            ) by {
                assert(rows::left_sum(f, fpu::ZERO, hits(targets@, values@, n as int, c), before[c]));
            }
        }
    }
    r
}

} // verus!
