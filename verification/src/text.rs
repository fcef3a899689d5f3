//! The text of a tensor: its elements in nested brackets, one bracket level
//! per dimension, elements in row-major order.
//!
//! A block of the last dimension is one line: its elements separated by
//! commas. A block of an earlier dimension opens a bracket on a line of its
//! own, holds the blocks of the next dimension, and closes with `],`. Blocks
//! of dimension `d` are indented by `2 * d` spaces.
use vstd::prelude::*;
use crate::layout::{all_positive, product, trailing_product, is_row_major, strides_for_shape, lemma_trailing_step, lemma_trailing_product_bound};

verus! {

/// The strings, as sequences of characters.
pub open spec fn texts(strings: &Vec<String>) -> Seq<Seq<char>> {
    strings@.map_values(|s: String| s@)
}

/// `n` spaces.
pub open spec fn spaces(n: nat) -> Seq<char> {
    Seq::new(n, |i: int| ' ')
}

/// Cells `k..n` of the row that starts at cell `base`, each led by a comma.
pub open spec fn row_rest(cells: Seq<Seq<char>>, base: int, k: int, n: int) -> Seq<char>
    decreases n - k,
{
    if k >= n {
        Seq::empty()
    } else {
        ","@ + cells[base + k] + row_rest(cells, base, k + 1, n)
    }
}

/// The block of dimension `d` whose first cell is `base`.
pub open spec fn block_text(shape: Seq<usize>, cells: Seq<Seq<char>>, d: int, base: int) -> Seq<char>
    decreases shape.len() - d, 1int, 0int,
    when 0 <= d < shape.len()
{
    if d < shape.len() - 1 {
        spaces((2 * d) as nat) + "["@ + "\n"@ + blocks_text(shape, cells, d, base, 0) + spaces(
            (2 * d) as nat,
        ) + "],\n"@
    } else {
        spaces((2 * d) as nat) + "["@ + cells[base] + row_rest(cells, base, 1, shape[d] as int)
            + "]\n"@
    }
}

/// The blocks of dimension `d + 1` inside the block of dimension `d` that
/// starts at cell `base`, from the `k`-th on.
pub open spec fn blocks_text(shape: Seq<usize>, cells: Seq<Seq<char>>, d: int, base: int, k: int) -> Seq<char>
    decreases shape.len() - d, 0int, shape[d] - k,
    when 0 <= d < shape.len() - 1 && 0 <= k
{
    if k >= shape[d] {
        Seq::empty()
    } else {
        block_text(shape, cells, d + 1, base + k * trailing_product(shape, d)) + blocks_text(
            shape,
            cells,
            d,
            base,
            k + 1,
        )
    }
}

/// Appends `2 * levels` spaces.
fn push_indent(output: &mut String, levels: usize)
    ensures
        final(output)@ == old(output)@ + spaces((2 * levels) as nat),
{
    let ghost start = output@;
    proof {
        reveal_strlit("  ");
    }
    let mut i: usize = 0;
    while i < levels
        invariant
            i <= levels,
            output@ == start + spaces((2 * i) as nat),
            "  "@ == seq![' ', ' '],
        decreases levels - i,
    {
        output.append("  ");
        i = i + 1;
        proof {
            assert(output@ =~= start + spaces((2 * i) as nat));
        }
    }
}

/// Appends the block of dimension `d` that starts at cell `base`.
fn push_block(
    shape: &[usize],
    strides: &Vec<usize>,
    cells: &Vec<String>,
    d: usize,
    base: usize,
    output: &mut String,
)
    requires
        d < shape@.len(),
        all_positive(shape@),
        is_row_major(shape@, strides@),
        product(shape@) <= usize::MAX,
        cells@.len() == product(shape@),
        base + trailing_product(shape@, d - 1) <= product(shape@),
    ensures
        final(output)@ == old(output)@ + block_text(shape@, texts(cells), d as int, base as int),
    decreases shape@.len() - d,
{
    let ghost s = shape@;
    let ghost cs = texts(cells);
    let ghost start = output@;
    let n = shape[d];
    proof {
        lemma_trailing_step(s, d as int);
        lemma_trailing_product_bound(s, d as int);
    }
    let stride = strides[d];
    push_indent(output, d);
    output.append("[");
    if d + 1 < shape.len() {
        output.append("\n");
        let next = d + 1;
        let ghost opened = output@;
        let mut k: usize = 0;
        while k < n
            invariant
                s == shape@,
                cs == texts(cells),
                d + 1 < s.len(),
                next == d + 1,
                n == s[d as int],
                all_positive(s),
                is_row_major(s, strides@),
                product(s) <= usize::MAX,
                cells@.len() == product(s),
                stride == trailing_product(s, d as int),
                trailing_product(s, d - 1) == (n as nat) * stride,
                base + trailing_product(s, d - 1) <= product(s),
                k <= n,
                opened + blocks_text(s, cs, d as int, base as int, 0) == output@ + blocks_text(
                    s,
                    cs,
                    d as int,
                    base as int,
                    k as int,
                ),
            decreases n - k,
        {
            assert((k as nat) * stride + stride <= (n as nat) * stride) by (nonlinear_arith)
                requires
                    k < n,
            ;
            let child = base + k * stride;
            let ghost before = output@;
            push_block(shape, strides, cells, next, child, output);
            proof {
                let rest = blocks_text(s, cs, d as int, base as int, k + 1);
                assert(blocks_text(s, cs, d as int, base as int, k as int) == block_text(
                    s,
                    cs,
                    d + 1,
                    base + k * trailing_product(s, d as int),
                ) + rest);
                assert(output@ + rest =~= before + (block_text(s, cs, d + 1, child as int) + rest));
            }
            k = k + 1;
        }
        let ghost inner = output@;
        push_indent(output, d);
        output.append("],\n");
        proof {
            assert(blocks_text(s, cs, d as int, base as int, n as int) == Seq::<char>::empty());
            assert(inner =~= opened + blocks_text(s, cs, d as int, base as int, 0));
            assert(output@ =~= start + block_text(s, cs, d as int, base as int));
        }
    } else {
        proof {
            assert(s.subrange(d + 1, s.len() as int).len() == 0);
            assert(stride == 1);
            assert((n as nat) * stride == n as nat) by (nonlinear_arith)
                requires
                    stride == 1,
            ;
            assert(base + n <= cells@.len());
        }
        output.append(cells[base].as_str());
        let ghost first = output@;
        let mut k: usize = 1;
        while k < n
            invariant
                cs == texts(cells),
                1 <= k <= n,
                base + n <= cells@.len(),
                cells@.len() <= usize::MAX,
                first + row_rest(cs, base as int, 1, n as int) == output@ + row_rest(
                    cs,
                    base as int,
                    k as int,
                    n as int,
                ),
            decreases n - k,
        {
            let ghost before = output@;
            output.append(",");
            output.append(cells[base + k].as_str());
            proof {
                let rest = row_rest(cs, base as int, k + 1, n as int);
                assert(output@ + rest =~= before + (","@ + cs[base + k] + rest));
            }
            k = k + 1;
        }
        proof {
            assert(row_rest(cs, base as int, n as int, n as int) == Seq::<char>::empty());
            assert(output@ + Seq::<char>::empty() =~= output@);
        }
        output.append("]\n");
        proof {
            assert(output@ =~= start + block_text(s, cs, d as int, base as int));
        }
    }
}

/// The elements of a tensor of `shape` in nested brackets; `cells` holds
/// the text of every element in row-major order.
pub fn tensor_text(shape: &[usize], cells: &Vec<String>) -> (r: String)
    requires
        shape@.len() >= 1,
        all_positive(shape@),
        product(shape@) <= usize::MAX,
        cells@.len() == product(shape@),
    ensures
        r@ == block_text(shape@, texts(cells), 0, 0),
{
    let strides = strides_for_shape(shape);
    let mut output = String::new();
    proof {
        assert(shape@.subrange(0, shape@.len() as int) =~= shape@);
    }
    push_block(shape, &strides, cells, 0, 0, &mut output);
    proof {
        assert(output@ =~= block_text(shape@, texts(cells), 0, 0));
    }
    output
}

} // verus!
