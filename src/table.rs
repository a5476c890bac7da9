//! Reshaping a table of rows for column-wise statistics.
use vstd::prelude::*;

verus! {

/// Every row of `rows` has `cols` entries.
pub open spec fn is_rectangular<T>(rows: Seq<Vec<T>>, cols: int) -> bool {
    forall|k: int| 0 <= k < rows.len() ==> #[trigger] rows[k]@.len() == cols
}

/// The columns of a table whose rows all have `cols` entries: column `c`
/// holds entry `c` of every row, in row order.
pub fn columns<T: Copy>(rows: &Vec<Vec<T>>, cols: usize) -> (r: Vec<Vec<T>>)
    requires
        is_rectangular(rows@, cols as int),
    ensures
        r@.len() == cols,
        forall|c: int| 0 <= c < cols ==> #[trigger] r@[c]@.len() == rows@.len(),
        forall|c: int, k: int|
            0 <= c < cols && 0 <= k < rows@.len() ==> #[trigger] r@[c]@[k] == rows@[k]@[c],
{
    let mut out: Vec<Vec<T>> = Vec::new();
    let mut c: usize = 0;
    while c < cols
        invariant
            c <= cols,
            is_rectangular(rows@, cols as int),
            out@.len() == c,
            forall|x: int| 0 <= x < c ==> #[trigger] out@[x]@.len() == rows@.len(),
            forall|x: int, k: int|
                0 <= x < c && 0 <= k < rows@.len() ==> #[trigger] out@[x]@[k] == rows@[k]@[x],
        decreases cols - c,
    {
        let mut column: Vec<T> = Vec::new();
        let mut k: usize = 0;
        while k < rows.len()
            invariant
                c < cols,
                is_rectangular(rows@, cols as int),
                k <= rows@.len(),
                column@.len() == k,
                forall|y: int| 0 <= y < k ==> #[trigger] column@[y] == rows@[y]@[c as int],
            decreases rows@.len() - k,
        {
            assert(rows@[k as int]@.len() == cols);
            column.push(rows[k][c]);
            k = k + 1;
        }
        out.push(column);
        c = c + 1;
    }
    out
}

} // verus!
