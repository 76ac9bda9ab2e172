use vstd::prelude::*;
use crate::chunks::tiles;
use crate::chunks::Chunk;
use crate::helpers::gcd;
use crate::helpers::lemma_coprime_divides;
use crate::helpers::multiple;

verus! {

/// The cells of row `y` from column `xmin` up to but not including `xmax`,
/// from left to right, or from right to left where `reversed`.
pub open spec fn row_cells(xmin: int, xmax: int, y: int, reversed: bool) -> Seq<(int, int)> {
    Seq::new(
        (if xmax > xmin {
            xmax - xmin
        } else {
            0
        }) as nat,
        |i: int|
            if reversed {
                (xmax - 1 - i, y)
            } else {
                (xmin + i, y)
            },
    )
}

/// The cells of `rows` rows of `chunk`: of row `first`, then of every second
/// row above it.
pub open spec fn rows_cells(chunk: Chunk, first: int, rows: nat, reversed: bool) -> Seq<(int, int)>
    decreases rows,
{
    if rows == 0 {
        Seq::empty()
    } else {
        rows_cells(chunk, first, (rows - 1) as nat, reversed) + row_cells(
            chunk.xmin as int,
            chunk.xmax as int,
            first - 2 * (rows - 1),
            reversed,
        )
    }
}

/// The order in which the cells of `chunk` are updated: the bottom row and
/// every second row above it, each from left to right; then the rows passed
/// over, from the lowest up, each from right to left.
pub open spec fn zig_zag(chunk: Chunk) -> Seq<(int, int)> {
    let height = chunk.ymax - chunk.ymin;
    rows_cells(chunk, chunk.ymax - 1, ((height + 1) / 2) as nat, false) + rows_cells(
        chunk,
        chunk.ymax - 2,
        (height / 2) as nat,
        true,
    )
}

/// The cells of `count` chunks in zig-zag order: of chunk `first`, then of
/// every second chunk after it.
pub open spec fn pass_order(chunks: Seq<Chunk>, first: int, count: nat) -> Seq<(int, int)>
    decreases count,
{
    if count == 0 {
        Seq::empty()
    } else {
        pass_order(chunks, first, (count - 1) as nat) + zig_zag(chunks[first + 2 * (count - 1)])
    }
}

/// The order in which a tick updates the cells: the chunks with an even
/// index first, then those with an odd index.
pub open spec fn tick_order(chunks: Seq<Chunk>) -> Seq<(int, int)> {
    pass_order(chunks, 0, ((chunks.len() + 1) / 2) as nat) + pass_order(chunks, 1, (chunks.len() / 2) as nat)
}

/// The cell of `chunk` with the number `linear`, the cells counted row by row.
pub open spec fn numbered(chunk: Chunk, linear: int) -> (int, int) {
    let width = chunk.xmax - chunk.xmin;
    (linear % width + chunk.xmin, linear / width + chunk.ymin)
}

/// The order of a scan that begins at the cell with the number `offset` and
/// goes on by `step` numbers at a time, round the end of the chunk.
pub open spec fn strided(chunk: Chunk, offset: int, step: int) -> Seq<(int, int)> {
    let area = (chunk.xmax - chunk.xmin) * (chunk.ymax - chunk.ymin);
    Seq::new(area as nat, |i: int| numbered(chunk, (offset + step * i) % area))
}

/// The cells of `chunk`, row by row.
pub open spec fn row_major(chunk: Chunk) -> Seq<(usize, usize)> {
    let area = (chunk.xmax - chunk.xmin) * (chunk.ymax - chunk.ymin);
    Seq::new(area as nat, |i: int| (numbered(chunk, i).0 as usize, numbered(chunk, i).1 as usize))
}

/// The cells of `order` as contracts count them.
pub open spec fn as_cells(order: Seq<(usize, usize)>) -> Seq<(int, int)> {
    order.map_values(|cell: (usize, usize)| (cell.0 as int, cell.1 as int))
}

/// Whether `order` holds the cells of `chunk`, each as often as the chunk
/// has it, in any order.
pub open spec fn shuffles(order: Seq<(usize, usize)>, chunk: Chunk) -> bool {
    order.to_multiset() == row_major(chunk).to_multiset()
}

/// A number below the area of a chunk is the number of one of its cells.
pub proof fn lemma_numbered(chunk: Chunk, linear: int)
    requires
        chunk.xmin <= chunk.xmax,
        chunk.ymin <= chunk.ymax,
        0 <= linear < (chunk.xmax - chunk.xmin) * (chunk.ymax - chunk.ymin),
    ensures
        chunk.xmin <= numbered(chunk, linear).0 < chunk.xmax,
        chunk.ymin <= numbered(chunk, linear).1 < chunk.ymax,
{
    let width = chunk.xmax - chunk.xmin;
    let height = chunk.ymax - chunk.ymin;
    assert(width > 0) by (nonlinear_arith)
        requires
            0 <= linear < width * height,
            width >= 0,
    ;
    vstd::arithmetic::div_mod::lemma_mod_bound(linear, width);
    vstd::arithmetic::div_mod::lemma_multiply_divide_lt(linear, width, height);
    vstd::arithmetic::div_mod::lemma_div_pos_is_pos(linear, width);
}

/// The number that follows `pos` in a scan by `step` round `area` numbers.
pub proof fn lemma_stride(offset: int, step: int, index: int, area: int, pos: int)
    requires
        0 <= offset,
        0 <= index,
        1 <= step <= area,
        pos == (offset + step * index) % area,
    ensures
        0 <= pos < area,
        (offset + step * (index + 1)) % area == if pos >= area - step {
            pos - (area - step)
        } else {
            pos + step
        },
{
    let a = offset + step * index;
    assert(offset + step * (index + 1) == a + step) by (nonlinear_arith)
        requires
            a == offset + step * index,
    ;
    vstd::arithmetic::div_mod::lemma_mod_bound(a, area);
    vstd::arithmetic::div_mod::lemma_add_mod_noop_right(step, a, area);
    assert((step + pos) % area == (step + a) % area);
    if pos + step >= area {
        vstd::arithmetic::div_mod::lemma_fundamental_div_mod_converse(pos + step, area, 1, pos + step - area);
    } else {
        vstd::arithmetic::div_mod::lemma_small_mod((pos + step) as nat, area as nat);
    }
}

/// The number of cells of `chunk`.
pub open spec fn area(chunk: Chunk) -> int {
    (chunk.xmax - chunk.xmin) * (chunk.ymax - chunk.ymin)
}

/// Whether `(x, y)` is a cell of `chunk`.
pub open spec fn holds(chunk: Chunk, x: int, y: int) -> bool {
    chunk.xmin <= x < chunk.xmax && chunk.ymin <= y < chunk.ymax
}

/// The number of the cell `(x, y)` of `chunk`, the cells counted row by row.
pub open spec fn number_of(chunk: Chunk, x: int, y: int) -> int {
    (y - chunk.ymin) * (chunk.xmax - chunk.xmin) + (x - chunk.xmin)
}

/// Whether `order` visits every cell of `chunk` once and no other cell: it
/// is as long as the chunk has cells, holds cells of the chunk only, holds
/// none twice, and holds each.
pub open spec fn visits_each_once(order: Seq<(int, int)>, chunk: Chunk) -> bool {
    &&& order.len() == area(chunk)
    &&& forall|i: int| 0 <= i < order.len() ==> holds(chunk, (#[trigger] order[i]).0, order[i].1)
    &&& order.no_duplicates()
    &&& forall|x: int, y: int| #[trigger] holds(chunk, x, y) ==> order.contains((x, y))
}

/// An order of which no entry is the same as a later one holds none twice.
pub proof fn lemma_no_duplicates(order: Seq<(int, int)>)
    requires
        forall|i: int, j: int| 0 <= i < j < order.len() ==> #[trigger] order[i] != #[trigger] order[j],
    ensures
        order.no_duplicates(),
{
    assert forall|i: int, j: int| 0 <= i < order.len() && 0 <= j < order.len() && i != j implies order[i]
        != order[j] by {
        if i < j {
            assert(order[i] != order[j]);
        } else {
            assert(order[j] != order[i]);
        }
    }
}

/// Every cell of a chunk has a number below the number of its cells, and is
/// the cell with that number.
pub proof fn lemma_number_of(chunk: Chunk, x: int, y: int)
    requires
        holds(chunk, x, y),
    ensures
        0 <= number_of(chunk, x, y) < area(chunk),
        numbered(chunk, number_of(chunk, x, y)) == (x, y),
{
    let width = chunk.xmax - chunk.xmin;
    let height = chunk.ymax - chunk.ymin;
    let row = y - chunk.ymin;
    let column = x - chunk.xmin;
    assert(0 <= row * width && row * width + width <= height * width) by (nonlinear_arith)
        requires
            0 <= row < height,
            0 < width,
    ;
    assert(width * height == height * width) by (nonlinear_arith);
    vstd::arithmetic::div_mod::lemma_fundamental_div_mod_converse(row * width + column, width, row, column);
}

/// A number below the number of cells of a chunk is the number of the cell
/// that has it.
pub proof fn lemma_numbered_number(chunk: Chunk, linear: int)
    requires
        chunk.xmin <= chunk.xmax,
        chunk.ymin <= chunk.ymax,
        0 <= linear < area(chunk),
    ensures
        number_of(chunk, numbered(chunk, linear).0, numbered(chunk, linear).1) == linear,
{
    let width = chunk.xmax - chunk.xmin;
    let height = chunk.ymax - chunk.ymin;
    assert(width > 0) by (nonlinear_arith)
        requires
            0 <= linear < width * height,
            width >= 0,
    ;
    vstd::arithmetic::div_mod::lemma_fundamental_div_mod(linear, width);
    assert((linear / width) * width == width * (linear / width)) by (nonlinear_arith);
}

/// Numbers below `n`, as many as `n` and none twice, are all numbers below `n`.
pub proof fn lemma_all_numbers(numbers: Seq<int>, wanted: int)
    requires
        forall|i: int| 0 <= i < numbers.len() ==> 0 <= #[trigger] numbers[i] < numbers.len(),
        forall|i: int, j: int| 0 <= i < j < numbers.len() ==> #[trigger] numbers[i] != #[trigger] numbers[j],
        0 <= wanted < numbers.len(),
    ensures
        numbers.contains(wanted),
    decreases numbers.len(),
{
    let greatest = numbers.len() - 1;
    if numbers.contains(greatest) {
        if wanted != greatest {
            let at = choose|i: int| 0 <= i < numbers.len() && numbers[i] == greatest;
            let rest = numbers.remove(at);
            assert forall|i: int| 0 <= i < rest.len() implies 0 <= #[trigger] rest[i] < rest.len() by {
                if i < at {
                    assert(rest[i] == numbers[i]);
                } else {
                    assert(rest[i] == numbers[i + 1]);
                }
            }
            assert forall|i: int, j: int| 0 <= i < j < rest.len() implies #[trigger] rest[i]
                != #[trigger] rest[j] by {
                let i0 = if i < at {
                    i
                } else {
                    i + 1
                };
                let j0 = if j < at {
                    j
                } else {
                    j + 1
                };
                assert(rest[i] == numbers[i0]);
                assert(rest[j] == numbers[j0]);
            }
            lemma_all_numbers(rest, wanted);
            let found = choose|i: int| 0 <= i < rest.len() && rest[i] == wanted;
            let back = if found < at {
                found
            } else {
                found + 1
            };
            assert(numbers[back] == wanted);
        }
    } else {
        let rest = numbers.drop_last();
        assert forall|i: int| 0 <= i < rest.len() implies 0 <= #[trigger] rest[i] < rest.len() by {
            assert(rest[i] == numbers[i]);
            if numbers[i] == greatest {
                assert(numbers.contains(greatest));
            }
        }
        assert forall|i: int, j: int| 0 <= i < j < rest.len() implies #[trigger] rest[i] != #[trigger] rest[j] by {
            assert(rest[i] == numbers[i]);
            assert(rest[j] == numbers[j]);
        }
        let last = numbers[greatest];
        if last == greatest {
            assert(numbers.contains(greatest));
        }
        lemma_all_numbers(rest, last);
        let found = choose|i: int| 0 <= i < rest.len() && rest[i] == last;
        assert(numbers[found] == numbers[greatest]);
    }
}

/// An order that is as long as a chunk has cells and holds cells of the
/// chunk only, none twice, visits every cell of the chunk once.
pub proof fn lemma_once_is_all(order: Seq<(int, int)>, chunk: Chunk)
    requires
        chunk.xmin <= chunk.xmax,
        chunk.ymin <= chunk.ymax,
        order.len() == area(chunk),
        forall|i: int| 0 <= i < order.len() ==> holds(chunk, (#[trigger] order[i]).0, order[i].1),
        order.no_duplicates(),
    ensures
        visits_each_once(order, chunk),
{
    let numbers = Seq::new(order.len(), |i: int| number_of(chunk, order[i].0, order[i].1));
    assert forall|i: int| 0 <= i < numbers.len() implies 0 <= #[trigger] numbers[i] < numbers.len() by {
        lemma_number_of(chunk, order[i].0, order[i].1);
    }
    assert forall|i: int, j: int| 0 <= i < j < numbers.len() implies #[trigger] numbers[i]
        != #[trigger] numbers[j] by {
        lemma_number_of(chunk, order[i].0, order[i].1);
        lemma_number_of(chunk, order[j].0, order[j].1);
        assert(order[i] != order[j]);
    }
    assert forall|x: int, y: int| #[trigger] holds(chunk, x, y) implies order.contains((x, y)) by {
        lemma_number_of(chunk, x, y);
        lemma_all_numbers(numbers, number_of(chunk, x, y));
        let found = choose|i: int| 0 <= i < numbers.len() && numbers[i] == number_of(chunk, x, y);
        lemma_number_of(chunk, order[found].0, order[found].1);
        assert(order[found] == (x, y));
    }
}

/// The strided scan visits every cell of its chunk once, where the stride
/// has no divisor in common with the number of cells.
pub proof fn lemma_strided_once(chunk: Chunk, offset: int, step: int)
    requires
        chunk.xmin <= chunk.xmax,
        chunk.ymin <= chunk.ymax,
        0 <= offset,
        1 <= step,
        gcd(step as nat, area(chunk) as nat) == 1,
    ensures
        visits_each_once(strided(chunk, offset, step), chunk),
{
    let order = strided(chunk, offset, step);
    let m = area(chunk);
    assert(m >= 0) by (nonlinear_arith)
        requires
            m == (chunk.xmax - chunk.xmin) * (chunk.ymax - chunk.ymin),
            chunk.xmin <= chunk.xmax,
            chunk.ymin <= chunk.ymax,
    ;
    assert forall|i: int| 0 <= i < order.len() implies holds(chunk, (#[trigger] order[i]).0, order[i].1) by {
        assert(0 <= offset + step * i) by (nonlinear_arith)
            requires
                0 <= offset,
                1 <= step,
                0 <= i,
        ;
        vstd::arithmetic::div_mod::lemma_mod_bound(offset + step * i, m);
        lemma_numbered(chunk, (offset + step * i) % m);
    }
    assert forall|i: int, j: int| 0 <= i < j < order.len() implies #[trigger] order[i] != #[trigger] order[j] by {
        let a = offset + step * i;
        let b = offset + step * j;
        vstd::arithmetic::div_mod::lemma_mod_bound(a, m);
        vstd::arithmetic::div_mod::lemma_mod_bound(b, m);
        if order[i] == order[j] {
            lemma_numbered_number(chunk, a % m);
            lemma_numbered_number(chunk, b % m);
            assert(a % m == b % m);
            vstd::arithmetic::div_mod::lemma_fundamental_div_mod(a, m);
            vstd::arithmetic::div_mod::lemma_fundamental_div_mod(b, m);
            let k = b / m - a / m;
            assert(step * (j - i) == multiple(k, m)) by (nonlinear_arith)
                requires
                    a == offset + step * i,
                    b == offset + step * j,
                    a == m * (a / m) + a % m,
                    b == m * (b / m) + b % m,
                    a % m == b % m,
                    k == b / m - a / m,
            ;
            lemma_coprime_divides(step as nat, m as nat, j - i);
            let q = choose|q: int| j - i == #[trigger] multiple(q, m);
            assert(false) by (nonlinear_arith)
                requires
                    j - i == q * m,
                    0 < j - i < m,
            ;
        }
    }
    lemma_no_duplicates(order);
    lemma_once_is_all(order, chunk);
}

/// The scan of some rows holds the cells of as many rows as it has, one row
/// after the other: its entry `at` is a cell of the row that is `at / width`
/// rows into the scan, in the column that is `at % width` columns into the row.
pub proof fn lemma_rows_cells(chunk: Chunk, first: int, rows: nat, reversed: bool, at: int)
    requires
        chunk.xmin <= chunk.xmax,
    ensures
        rows_cells(chunk, first, rows, reversed).len() == rows * (chunk.xmax - chunk.xmin),
        0 <= at < rows * (chunk.xmax - chunk.xmin) ==> {
            let width = chunk.xmax - chunk.xmin;
            &&& 0 <= at / width < rows
            &&& 0 <= at % width < width
            &&& rows_cells(chunk, first, rows, reversed)[at] == (
                if reversed {
                    chunk.xmax - 1 - at % width
                } else {
                    chunk.xmin + at % width
                },
                first - 2 * (at / width),
            )
        },
    decreases rows,
{
    let width = chunk.xmax - chunk.xmin;
    if rows == 0 {
        assert(rows * width == 0) by (nonlinear_arith)
            requires
                rows == 0,
        ;
    } else {
        let before = (rows - 1) as nat;
        lemma_rows_cells(chunk, first, before, reversed, at);
        let head = rows_cells(chunk, first, before, reversed);
        let row = row_cells(chunk.xmin as int, chunk.xmax as int, first - 2 * (rows - 1), reversed);
        assert(rows * width == before * width + width) by (nonlinear_arith)
            requires
                before == rows - 1,
        ;
        assert(0 <= before * width) by (nonlinear_arith)
            requires
                0 <= before,
                0 <= width,
        ;
        if 0 <= at < rows * width {
            if at >= before * width {
                let column = at - before * width;
                vstd::arithmetic::div_mod::lemma_fundamental_div_mod_converse(at, width, before as int, column);
                assert((head + row)[at] == row[column]);
            } else {
                assert((head + row)[at] == head[at]);
            }
        }
    }
}

/// The zig-zag scan visits every cell of its chunk once.
pub proof fn lemma_zig_zag_once(chunk: Chunk)
    requires
        chunk.xmin <= chunk.xmax,
        chunk.ymin <= chunk.ymax,
    ensures
        visits_each_once(zig_zag(chunk), chunk),
{
    let width = chunk.xmax - chunk.xmin;
    let height = chunk.ymax - chunk.ymin;
    let odd = ((height + 1) / 2) as nat;
    let even = (height / 2) as nat;
    let first = rows_cells(chunk, chunk.ymax - 1, odd, false);
    let second = rows_cells(chunk, chunk.ymax - 2, even, true);
    let order = zig_zag(chunk);
    lemma_rows_cells(chunk, chunk.ymax - 1, odd, false, 0);
    lemma_rows_cells(chunk, chunk.ymax - 2, even, true, 0);
    assert(odd * width + even * width == width * height) by (nonlinear_arith)
        requires
            odd + even == height,
    ;
    assert forall|i: int| 0 <= i < order.len() implies holds(chunk, (#[trigger] order[i]).0, order[i].1) by {
        if i < first.len() {
            lemma_rows_cells(chunk, chunk.ymax - 1, odd, false, i);
            assert(order[i] == first[i]);
        } else {
            lemma_rows_cells(chunk, chunk.ymax - 2, even, true, i - first.len());
            assert(order[i] == second[i - first.len()]);
        }
    }
    assert forall|i: int, j: int| 0 <= i < j < order.len() implies #[trigger] order[i] != #[trigger] order[j] by {
        if j < first.len() {
            lemma_rows_cells(chunk, chunk.ymax - 1, odd, false, i);
            lemma_rows_cells(chunk, chunk.ymax - 1, odd, false, j);
            assert(order[i] == first[i]);
            assert(order[j] == first[j]);
            vstd::arithmetic::div_mod::lemma_fundamental_div_mod(i, width);
            vstd::arithmetic::div_mod::lemma_fundamental_div_mod(j, width);
        } else if i >= first.len() {
            let a = i - first.len();
            let b = j - first.len();
            lemma_rows_cells(chunk, chunk.ymax - 2, even, true, a);
            lemma_rows_cells(chunk, chunk.ymax - 2, even, true, b);
            assert(order[i] == second[a]);
            assert(order[j] == second[b]);
            vstd::arithmetic::div_mod::lemma_fundamental_div_mod(a, width);
            vstd::arithmetic::div_mod::lemma_fundamental_div_mod(b, width);
        } else {
            lemma_rows_cells(chunk, chunk.ymax - 1, odd, false, i);
            lemma_rows_cells(chunk, chunk.ymax - 2, even, true, j - first.len());
            assert(order[i] == first[i]);
            assert(order[j] == second[j - first.len()]);
        }
    }
    lemma_no_duplicates(order);
    lemma_once_is_all(order, chunk);
}

/// A shuffle of the cells of a chunk visits every cell of the chunk once.
pub proof fn lemma_shuffled_once(order: Seq<(usize, usize)>, chunk: Chunk)
    requires
        chunk.xmin <= chunk.xmax,
        chunk.ymin <= chunk.ymax,
        shuffles(order, chunk),
    ensures
        visits_each_once(as_cells(order), chunk),
{
    let rows = row_major(chunk);
    let cells = as_cells(order);
    let n = area(chunk);
    assert(n >= 0) by (nonlinear_arith)
        requires
            n == (chunk.xmax - chunk.xmin) * (chunk.ymax - chunk.ymin),
            chunk.xmin <= chunk.xmax,
            chunk.ymin <= chunk.ymax,
    ;
    assert forall|i: int, j: int| 0 <= i < rows.len() && 0 <= j < rows.len() && i != j implies rows[i]
        != rows[j] by {
        lemma_numbered(chunk, i);
        lemma_numbered(chunk, j);
        lemma_numbered_number(chunk, i);
        lemma_numbered_number(chunk, j);
    }
    rows.lemma_multiset_has_no_duplicates();
    order.lemma_multiset_has_no_duplicates_conv();
    vstd::seq_lib::to_multiset_len(rows);
    vstd::seq_lib::to_multiset_len(order);
    assert forall|i: int| 0 <= i < cells.len() implies holds(chunk, (#[trigger] cells[i]).0, cells[i].1) by {
        assert(order.contains(order[i]));
        vstd::seq_lib::to_multiset_contains(order, order[i]);
        vstd::seq_lib::to_multiset_contains(rows, order[i]);
        let found = choose|k: int| 0 <= k < rows.len() && rows[k] == order[i];
        lemma_numbered(chunk, found);
    }
    assert forall|i: int, j: int| 0 <= i < cells.len() && 0 <= j < cells.len() && i != j implies cells[i]
        != cells[j] by {
        assert(order[i] != order[j]);
    }
    lemma_once_is_all(cells, chunk);
}

/// Numbers below `n`, none twice, are no more than `n`.
pub proof fn lemma_few_numbers(numbers: Seq<int>, n: int)
    requires
        0 <= n,
        forall|i: int| 0 <= i < numbers.len() ==> 0 <= #[trigger] numbers[i] < n,
        numbers.no_duplicates(),
    ensures
        numbers.len() <= n,
    decreases n,
{
    if numbers.len() > 0 {
        assert(0 <= numbers[0] < n);
        if numbers.contains(n - 1) {
            let at = choose|i: int| 0 <= i < numbers.len() && numbers[i] == n - 1;
            let rest = numbers.remove(at);
            assert forall|i: int| 0 <= i < rest.len() implies 0 <= #[trigger] rest[i] < n - 1 by {
                if i < at {
                    assert(rest[i] == numbers[i]);
                } else {
                    assert(rest[i] == numbers[i + 1]);
                }
            }
            assert forall|i: int, j: int| 0 <= i < rest.len() && 0 <= j < rest.len() && i != j implies rest[i]
                != rest[j] by {
                let i0 = if i < at {
                    i
                } else {
                    i + 1
                };
                let j0 = if j < at {
                    j
                } else {
                    j + 1
                };
                assert(rest[i] == numbers[i0]);
                assert(rest[j] == numbers[j0]);
            }
            lemma_few_numbers(rest, n - 1);
        } else {
            assert forall|i: int| 0 <= i < numbers.len() implies 0 <= #[trigger] numbers[i] < n - 1 by {
                if numbers[i] == n - 1 {
                    assert(numbers.contains(n - 1));
                }
            }
            lemma_few_numbers(numbers, n - 1);
        }
    }
}

/// Numbers among which every number below `n` is found are no fewer than `n`.
pub proof fn lemma_many_numbers(numbers: Seq<int>, n: int)
    requires
        forall|v: int| 0 <= v < n ==> #[trigger] numbers.contains(v),
    ensures
        numbers.len() >= n,
    decreases n,
{
    if n > 0 {
        assert(numbers.contains(n - 1));
        let at = choose|i: int| 0 <= i < numbers.len() && numbers[i] == n - 1;
        let rest = numbers.remove(at);
        assert forall|v: int| 0 <= v < n - 1 implies #[trigger] rest.contains(v) by {
            assert(numbers.contains(v));
            let found = choose|i: int| 0 <= i < numbers.len() && numbers[i] == v;
            if found < at {
                assert(rest[found] == v);
            } else {
                assert(rest[found - 1] == v);
            }
        }
        lemma_many_numbers(rest, n - 1);
    }
}

/// An order that holds cells of a chunk only, none twice, and each of them,
/// is as long as the chunk has cells.
pub proof fn lemma_once_has_length(order: Seq<(int, int)>, chunk: Chunk)
    requires
        chunk.xmin <= chunk.xmax,
        chunk.ymin <= chunk.ymax,
        forall|i: int| 0 <= i < order.len() ==> holds(chunk, (#[trigger] order[i]).0, order[i].1),
        order.no_duplicates(),
        forall|x: int, y: int| #[trigger] holds(chunk, x, y) ==> order.contains((x, y)),
    ensures
        order.len() == area(chunk),
{
    let numbers = Seq::new(order.len(), |i: int| number_of(chunk, order[i].0, order[i].1));
    let n = area(chunk);
    assert(n >= 0) by (nonlinear_arith)
        requires
            n == (chunk.xmax - chunk.xmin) * (chunk.ymax - chunk.ymin),
            chunk.xmin <= chunk.xmax,
            chunk.ymin <= chunk.ymax,
    ;
    assert forall|i: int| 0 <= i < numbers.len() implies 0 <= #[trigger] numbers[i] < n by {
        lemma_number_of(chunk, order[i].0, order[i].1);
    }
    assert forall|i: int, j: int| 0 <= i < numbers.len() && 0 <= j < numbers.len() && i != j implies numbers[i]
        != numbers[j] by {
        lemma_number_of(chunk, order[i].0, order[i].1);
        lemma_number_of(chunk, order[j].0, order[j].1);
        assert(order[i] != order[j]);
    }
    lemma_few_numbers(numbers, n);
    assert forall|v: int| 0 <= v < n implies #[trigger] numbers.contains(v) by {
        lemma_numbered(chunk, v);
        lemma_numbered_number(chunk, v);
        let cell = numbered(chunk, v);
        assert(holds(chunk, cell.0, cell.1));
        assert(order.contains(cell));
        let found = choose|i: int| 0 <= i < order.len() && order[i] == cell;
        assert(numbers[found] == v);
    }
    lemma_many_numbers(numbers, n);
}

/// The bands of a grid lie from left to right: an earlier band ends where a
/// later one begins, or before.
pub proof fn lemma_bands_ordered(
    chunks: Seq<Chunk>,
    height: usize,
    width: usize,
    size: int,
    inset: int,
    i: int,
    j: int,
)
    requires
        tiles(chunks, height, width, size, inset),
        0 <= i < j < chunks.len(),
    ensures
        chunks[i].xmax <= chunks[j].xmin,
    decreases j - i,
{
    if i + 1 < j {
        lemma_bands_ordered(chunks, height, width, size, inset, i, j - 1);
        assert(chunks[j - 1].xmax == chunks[j].xmin);
        assert(chunks[j - 1].xmin < chunks[j - 1].xmax);
    } else {
        assert(chunks[i].xmax == chunks[i + 1].xmin);
    }
}

/// Every column of a grid lies in one of its bands, at `from` or after it
/// where the column does not lie before that band.
pub proof fn lemma_band_of(
    chunks: Seq<Chunk>,
    height: usize,
    width: usize,
    size: int,
    inset: int,
    x: int,
    from: int,
) -> (at: int)
    requires
        tiles(chunks, height, width, size, inset),
        0 <= from < chunks.len(),
        chunks[from].xmin <= x < width,
    ensures
        from <= at < chunks.len(),
        chunks[at].xmin <= x < chunks[at].xmax,
    decreases chunks.len() - from,
{
    if x < chunks[from].xmax {
        from
    } else {
        if from == chunks.len() - 1 {
            assert(chunks.last().xmax == width);
        }
        assert(chunks[from].xmax == chunks[from + 1].xmin);
        lemma_band_of(chunks, height, width, size, inset, x, from + 1)
    }
}

/// Whether `cell` is a cell of one of the `count` chunks of a pass that
/// begins with the chunk `first`.
pub open spec fn in_pass(chunks: Seq<Chunk>, first: int, count: nat, cell: (int, int)) -> bool {
    exists|k: int| 0 <= k < count && #[trigger] holds(chunks[first + 2 * k], cell.0, cell.1)
}

/// A pass over every second band of a grid visits the cells of its bands,
/// each once, and no other cell.
pub proof fn lemma_pass_once(
    chunks: Seq<Chunk>,
    height: usize,
    width: usize,
    size: int,
    inset: int,
    first: int,
    count: nat,
)
    requires
        tiles(chunks, height, width, size, inset),
        first == 0 || first == 1,
        count > 0 ==> first + 2 * (count - 1) < chunks.len(),
    ensures
        pass_order(chunks, first, count).no_duplicates(),
        forall|i: int|
            0 <= i < pass_order(chunks, first, count).len() ==> in_pass(
                chunks,
                first,
                count,
                #[trigger] pass_order(chunks, first, count)[i],
            ),
        forall|k: int, x: int, y: int|
            0 <= k < count && #[trigger] holds(chunks[first + 2 * k], x, y) ==> pass_order(
                chunks,
                first,
                count,
            ).contains((x, y)),
    decreases count,
{
    if count > 0 {
        let fewer = (count - 1) as nat;
        let last = first + 2 * fewer;
        let chunk = chunks[last];
        let head = pass_order(chunks, first, fewer);
        let tail = zig_zag(chunk);
        let order = pass_order(chunks, first, count);
        lemma_pass_once(chunks, height, width, size, inset, first, fewer);
        assert(chunk.xmin < chunk.xmax && chunk.ymin == 0 && chunk.ymax == height);
        lemma_zig_zag_once(chunk);
        assert forall|i: int, j: int| 0 <= i < head.len() && 0 <= j < tail.len() implies head[i] != tail[j] by {
            assert(in_pass(chunks, first, fewer, head[i]));
            let k = choose|k: int| 0 <= k < fewer && #[trigger] holds(chunks[first + 2 * k], head[i].0, head[i].1);
            lemma_bands_ordered(chunks, height, width, size, inset, first + 2 * k, last);
            assert(holds(chunk, tail[j].0, tail[j].1));
        }
        vstd::seq_lib::lemma_no_dup_in_concat(head, tail);
        assert forall|i: int| 0 <= i < order.len() implies in_pass(chunks, first, count, #[trigger] order[i]) by {
            if i < head.len() {
                assert(order[i] == head[i]);
                assert(in_pass(chunks, first, fewer, head[i]));
                let k = choose|k: int|
                    0 <= k < fewer && #[trigger] holds(chunks[first + 2 * k], head[i].0, head[i].1);
                assert(holds(chunks[first + 2 * k], order[i].0, order[i].1));
            } else {
                assert(order[i] == tail[i - head.len()]);
                assert(holds(chunks[first + 2 * fewer], order[i].0, order[i].1));
            }
        }
        assert forall|k: int, x: int, y: int|
            0 <= k < count && #[trigger] holds(chunks[first + 2 * k], x, y) implies order.contains((x, y)) by {
            vstd::seq_lib::lemma_seq_concat_contains_all_elements(head, tail, (x, y));
            if k < fewer {
                assert(head.contains((x, y)));
            } else {
                assert(holds(chunk, x, y));
                assert(tail.contains((x, y)));
            }
        }
    }
}

/// The grid of `width` by `height` cells as one chunk.
pub open spec fn whole(height: usize, width: usize) -> Chunk {
    Chunk { xmin: 0, xmax: width, ymin: 0, ymax: height }
}

/// A tick visits every cell of the grid once: the order in which it updates
/// the cells of the bands holds each cell of the grid, and none twice.
pub proof fn lemma_tick_once(chunks: Seq<Chunk>, height: usize, width: usize, size: int, inset: int)
    requires
        tiles(chunks, height, width, size, inset),
    ensures
        visits_each_once(tick_order(chunks), whole(height, width)),
{
    let even = ((chunks.len() + 1) / 2) as nat;
    let odd = (chunks.len() / 2) as nat;
    let head = pass_order(chunks, 0, even);
    let tail = pass_order(chunks, 1, odd);
    let order = tick_order(chunks);
    let grid = whole(height, width);
    lemma_pass_once(chunks, height, width, size, inset, 0, even);
    lemma_pass_once(chunks, height, width, size, inset, 1, odd);
    assert forall|i: int, j: int| 0 <= i < head.len() && 0 <= j < tail.len() implies head[i] != tail[j] by {
        assert(in_pass(chunks, 0, even, head[i]));
        assert(in_pass(chunks, 1, odd, tail[j]));
        let a = choose|k: int| 0 <= k < even && #[trigger] holds(chunks[0 + 2 * k], head[i].0, head[i].1);
        let b = choose|k: int| 0 <= k < odd && #[trigger] holds(chunks[1 + 2 * k], tail[j].0, tail[j].1);
        if 2 * a < 1 + 2 * b {
            lemma_bands_ordered(chunks, height, width, size, inset, 2 * a, 1 + 2 * b);
        } else {
            lemma_bands_ordered(chunks, height, width, size, inset, 1 + 2 * b, 2 * a);
        }
    }
    vstd::seq_lib::lemma_no_dup_in_concat(head, tail);
    assert forall|i: int| 0 <= i < order.len() implies holds(grid, (#[trigger] order[i]).0, order[i].1) by {
        if i < head.len() {
            assert(order[i] == head[i]);
            assert(in_pass(chunks, 0, even, head[i]));
            let a = choose|k: int| 0 <= k < even && #[trigger] holds(chunks[0 + 2 * k], head[i].0, head[i].1);
            assert(chunks[2 * a].xmax <= width);
        } else {
            let j = i - head.len();
            assert(order[i] == tail[j]);
            assert(in_pass(chunks, 1, odd, tail[j]));
            let b = choose|k: int| 0 <= k < odd && #[trigger] holds(chunks[1 + 2 * k], tail[j].0, tail[j].1);
            assert(chunks[1 + 2 * b].xmax <= width);
        }
    }
    assert forall|x: int, y: int| #[trigger] holds(grid, x, y) implies order.contains((x, y)) by {
        let at = lemma_band_of(chunks, height, width, size, inset, x, 0);
        assert(chunks[at].ymin == 0 && chunks[at].ymax == height);
        vstd::seq_lib::lemma_seq_concat_contains_all_elements(head, tail, (x, y));
        if at % 2 == 0 {
            let k = at / 2;
            assert(holds(chunks[0 + 2 * k], x, y));
            assert(head.contains((x, y)));
        } else {
            let k = at / 2;
            assert(holds(chunks[1 + 2 * k], x, y));
            assert(tail.contains((x, y)));
        }
    }
    lemma_once_has_length(order, grid);
}

} // verus!
