use vstd::prelude::*;
use vstd::arithmetic::div_mod::{
    lemma_fundamental_div_mod, lemma_fundamental_div_mod_converse, lemma_mod_bound,
    lemma_multiply_divide_lt,
};

verus! {

/// First remap of the orientation fix: position c*rows + r of the result holds
/// the byte at position r*cols + c of the item. Read pointwise, position k
/// holds item[(k % rows)*cols + k/rows].
pub open spec fn transpose_remap(item: Seq<u8>, rows: int, cols: int) -> Seq<u8>
    recommends
        item.len() == rows * cols,
        rows > 0,
{
    Seq::new((rows * cols) as nat, |k: int| item[(k % rows) * cols + k / rows])
}

/// Second remap of the orientation fix: row r of the rows x cols grid is
/// replaced by row rows - 1 - r.
pub open spec fn reverse_rows(t: Seq<u8>, rows: int, cols: int) -> Seq<u8>
    recommends
        t.len() == rows * cols,
        cols > 0,
{
    Seq::new((rows * cols) as nat, |k: int| t[(rows - 1 - k / cols) * cols + k % cols])
}

/// Position, within one item, of the byte that the two remaps together move to
/// position j.
pub open spec fn fix_src(rows: int, cols: int, j: int) -> int {
    let t = (rows - 1 - j / cols) * cols + j % cols;
    (t % rows) * cols + t / rows
}

/// One item's bytes after the orientation fix.
pub open spec fn fix_item(item: Seq<u8>, rows: int, cols: int) -> Seq<u8>
    recommends
        item.len() == rows * cols,
{
    Seq::new(
        item.len(),
        |j: int|
            if 0 <= j < rows * cols {
                item[fix_src(rows, cols, j)]
            } else {
                item[j]
            },
    )
}

/// A payload of items after the first n items are fixed in place; bytes past
/// the first n items are unchanged.
pub open spec fn fix_payload(data: Seq<u8>, n: int, rows: int, cols: int) -> Seq<u8>
    recommends
        n * (rows * cols) <= data.len(),
{
    Seq::new(
        data.len(),
        |k: int|
            {
                let s = rows * cols;
                if 0 <= k < n * s {
                    data[(k / s) * s + fix_src(rows, cols, k % s)]
                } else {
                    data[k]
                }
            },
    )
}

/// Division and remainder of a position inside a grid of `other` groups of
/// size `d`.
proof fn lemma_grid(k: int, d: int, other: int)
    requires
        0 < d,
        0 <= k,
        k < d * other || k < other * d,
    ensures
        0 <= k % d < d,
        0 <= k / d < other,
        k == d * (k / d) + k % d,
        k == (k / d) * d + k % d,
{
    assert(other * d == d * other) by (nonlinear_arith);
    lemma_mod_bound(k, d);
    lemma_multiply_divide_lt(k, d, other);
    lemma_fundamental_div_mod(k, d);
    assert(d * (k / d) == (k / d) * d) by (nonlinear_arith);
}

/// The source position of the two-step remap stays inside the item.
pub proof fn lemma_fix_src_bounds(rows: int, cols: int, j: int)
    requires
        rows > 0,
        cols > 0,
        0 <= j < rows * cols,
    ensures
        0 <= fix_src(rows, cols, j) < rows * cols,
{
    lemma_grid(j, cols, rows);
    let t = (rows - 1 - j / cols) * cols + j % cols;
    assert(0 <= t < rows * cols) by (nonlinear_arith)
        requires
            t == (rows - 1 - j / cols) * cols + j % cols,
            0 <= j / cols < rows,
            0 <= j % cols < cols,
    ;
    lemma_grid(t, rows, cols);
    assert(0 <= (t % rows) * cols + t / rows < rows * cols) by (nonlinear_arith)
        requires
            0 <= t % rows < rows,
            0 <= t / rows < cols,
            cols > 0,
    ;
}

/// The fixed item is exactly the two sequential remaps: the transpose remap,
/// then the row reversal.
pub proof fn lemma_fix_item_two_step(item: Seq<u8>, rows: int, cols: int)
    requires
        item.len() == rows * cols,
        rows > 0,
        cols > 0,
    ensures
        fix_item(item, rows, cols) =~= reverse_rows(transpose_remap(item, rows, cols), rows, cols),
{
    let t = transpose_remap(item, rows, cols);
    let f = reverse_rows(t, rows, cols);
    assert forall|j: int| 0 <= j < rows * cols implies f[j] == fix_item(item, rows, cols)[j] by {
        lemma_grid(j, cols, rows);
        let ti = (rows - 1 - j / cols) * cols + j % cols;
        assert(0 <= ti < rows * cols) by (nonlinear_arith)
            requires
                ti == (rows - 1 - j / cols) * cols + j % cols,
                0 <= j / cols < rows,
                0 <= j % cols < cols,
        ;
        lemma_grid(ti, rows, cols);
        assert(f[j] == t[ti]);
        assert(t[ti] == item[(ti % rows) * cols + ti / rows]);
    }
}

/// Worked orientation fix on one 2 x 2 item: row-major bytes [a, b, c, d]
/// (row 0 = [a, b], row 1 = [c, d]) become [b, d, a, c] (row 0 = [b, d],
/// row 1 = [a, c]), for arbitrary byte values.
pub proof fn lemma_fix_two_by_two(a: u8, b: u8, c: u8, d: u8)
    ensures
        fix_item(seq![a, b, c, d], 2, 2) =~= seq![b, d, a, c],
{
    let item = seq![a, b, c, d];
    assert(fix_item(item, 2, 2)[0] == b);
    assert(fix_item(item, 2, 2)[1] == d);
    assert(fix_item(item, 2, 2)[2] == a);
    assert(fix_item(item, 2, 2)[3] == c);
}

/// A buffer of n zero bytes.
fn zero_buf(n: usize) -> (r: Vec<u8>)
    ensures
        r@.len() == n,
{
    let mut r: Vec<u8> = Vec::new();
    let mut i: usize = 0;
    while i < n
        invariant
            i <= n,
            r@.len() == i,
        decreases n - i,
    {
        r.push(0);
        i = i + 1;
    }
    r
}

/// Builds the fixed copy of one rows x cols item: the transpose remap into an
/// intermediate buffer, then the row reversal into the final buffer.
pub fn fix_one_image(item: &Vec<u8>, rows: usize, cols: usize) -> (r: Vec<u8>)
    requires
        (rows as int) * (cols as int) == item@.len(),
    ensures
        r@ == fix_item(item@, rows as int, cols as int),
{
    proof {
        if rows == 0 || cols == 0 {
            assert(item@.len() == 0) by (nonlinear_arith)
                requires
                    (rows as int) * (cols as int) == item@.len(),
                    rows == 0 || cols == 0,
            ;
        }
    }
    if rows == 0 || cols == 0 {
        let r: Vec<u8> = Vec::new();
        assert(r@ =~= fix_item(item@, rows as int, cols as int));
        return r;
    }
    let image_size = item.len();

    // Step A: transpose remap.
    let mut rotated = zero_buf(image_size);
    let mut r_i: usize = 0;
    while r_i < rows
        invariant
            r_i <= rows,
            rows > 0,
            cols > 0,
            image_size == (rows as int) * (cols as int),
            image_size == item@.len(),
            rotated@.len() == image_size,
            forall|k: int|
                0 <= k < image_size && k % (rows as int) < r_i ==> #[trigger] rotated@[k]
                    == item@[(k % (rows as int)) * (cols as int) + k / (rows as int)],
        decreases rows - r_i,
    {
        let mut c_i: usize = 0;
        while c_i < cols
            invariant
                r_i < rows,
                c_i <= cols,
                rows > 0,
                cols > 0,
                image_size == (rows as int) * (cols as int),
                image_size == item@.len(),
                rotated@.len() == image_size,
                forall|k: int|
                    0 <= k < image_size && (k % (rows as int) < r_i || (k % (rows as int) == r_i
                        && k / (rows as int) < c_i)) ==> #[trigger] rotated@[k] == item@[(k % (
                    rows as int)) * (cols as int) + k / (rows as int)],
            decreases cols - c_i,
        {
            proof {
                assert(c_i * (rows as int) + r_i < image_size && r_i * (cols as int) + c_i
                    < image_size) by (nonlinear_arith)
                    requires
                        image_size == (rows as int) * (cols as int),
                        0 <= c_i < cols,
                        0 <= r_i < rows,
                ;
                lemma_fundamental_div_mod_converse(
                    c_i * (rows as int) + r_i,
                    rows as int,
                    c_i as int,
                    r_i as int,
                );
            }
            let dst = c_i * rows + r_i;
            let src = r_i * cols + c_i;
            rotated.set(dst, item[src]);
            c_i = c_i + 1;
            proof {
                assert forall|k: int|
                    0 <= k < image_size && (k % (rows as int) < r_i || (k % (rows as int) == r_i
                        && k / (rows as int) < c_i)) implies #[trigger] rotated@[k] == item@[(k % (
                    rows as int)) * (cols as int) + k / (rows as int)] by {
                    lemma_grid(k, rows as int, cols as int);
                    if k % (rows as int) == r_i && k / (rows as int) == c_i - 1 {
                        assert(k == dst);
                    } else {
                        assert(k != dst);
                    }
                }
            }
        }
        r_i = r_i + 1;
        proof {
            assert forall|k: int| 0 <= k < image_size && k % (rows as int) < r_i implies #[trigger] rotated@[k]
                == item@[(k % (rows as int)) * (cols as int) + k / (rows as int)] by {
                lemma_grid(k, rows as int, cols as int);
            }
        }
    }
    proof {
        assert forall|k: int| 0 <= k < image_size implies rotated@[k] == transpose_remap(
            item@,
            rows as int,
            cols as int,
        )[k] by {
            lemma_grid(k, rows as int, cols as int);
        }
        assert(rotated@ =~= transpose_remap(item@, rows as int, cols as int));
    }

    // Step B: row reversal.
    let mut fin = zero_buf(image_size);
    let mut r2: usize = 0;
    while r2 < rows
        invariant
            r2 <= rows,
            rows > 0,
            cols > 0,
            image_size == (rows as int) * (cols as int),
            rotated@.len() == image_size,
            fin@.len() == image_size,
            forall|k: int|
                0 <= k < image_size && k / (cols as int) < r2 ==> #[trigger] fin@[k] == rotated@[((
                rows as int) - 1 - k / (cols as int)) * (cols as int) + k % (cols as int)],
        decreases rows - r2,
    {
        let mut c2: usize = 0;
        while c2 < cols
            invariant
                r2 < rows,
                c2 <= cols,
                rows > 0,
                cols > 0,
                image_size == (rows as int) * (cols as int),
                rotated@.len() == image_size,
                fin@.len() == image_size,
                forall|k: int|
                    0 <= k < image_size && (k / (cols as int) < r2 || (k / (cols as int) == r2
                        && k % (cols as int) < c2)) ==> #[trigger] fin@[k] == rotated@[((
                    rows as int) - 1 - k / (cols as int)) * (cols as int) + k % (cols as int)],
            decreases cols - c2,
        {
            proof {
                assert(r2 * (cols as int) + c2 < image_size && ((rows as int) - 1 - r2) * (
                cols as int) + c2 < image_size && 0 <= ((rows as int) - 1 - r2) * (cols as int)
                    + c2) by (nonlinear_arith)
                    requires
                        image_size == (rows as int) * (cols as int),
                        0 <= c2 < cols,
                        0 <= r2 < rows,
                ;
                lemma_fundamental_div_mod_converse(
                    r2 * (cols as int) + c2,
                    cols as int,
                    r2 as int,
                    c2 as int,
                );
            }
            let dst = r2 * cols + c2;
            let src = (rows - 1 - r2) * cols + c2;
            fin.set(dst, rotated[src]);
            c2 = c2 + 1;
            proof {
                assert forall|k: int|
                    0 <= k < image_size && (k / (cols as int) < r2 || (k / (cols as int) == r2
                        && k % (cols as int) < c2)) implies #[trigger] fin@[k] == rotated@[((
                    rows as int) - 1 - k / (cols as int)) * (cols as int) + k % (cols as int)] by {
                    lemma_grid(k, cols as int, rows as int);
                    if k / (cols as int) == r2 && k % (cols as int) == c2 - 1 {
                        assert(k == dst);
                    } else {
                        assert(k != dst);
                    }
                }
            }
        }
        r2 = r2 + 1;
        proof {
            assert forall|k: int| 0 <= k < image_size && k / (cols as int) < r2 implies #[trigger] fin@[k]
                == rotated@[((rows as int) - 1 - k / (cols as int)) * (cols as int) + k % (
            cols as int)] by {
                lemma_grid(k, cols as int, rows as int);
            }
        }
    }
    proof {
        assert forall|k: int| 0 <= k < image_size implies fin@[k] == reverse_rows(
            rotated@,
            rows as int,
            cols as int,
        )[k] by {
            lemma_grid(k, cols as int, rows as int);
        }
        assert(fin@ =~= reverse_rows(rotated@, rows as int, cols as int));
        lemma_fix_item_two_step(item@, rows as int, cols as int);
    }
    fin
}

} // verus!
