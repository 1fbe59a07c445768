//! The differential code space and the context map learner.

pub mod analytics;
pub mod bitvector;
pub mod code_space;
pub mod context;
pub mod context_map;
pub mod context_memory_item;

use vstd::prelude::*;

use crate::draw::draw_below;
use bitvector::BitVector;
use context::{
    covariance_of, lemma_filter_codes_unique, memory_wf, retained, Context, MAX_ITEM_WEIGHT,
    MAX_MEMORY,
};
use context_map::{grid_cols, grid_wf, ContextMap};
use context_memory_item::ContextMemoryItem;

verus! {

/// Half side of the square window that a winner's update reaches.
pub const LEARN_RANGE: isize = 4;

/// Number of training passes between two consolidations of the map.
pub const CONSOLIDATION_PERIOD: u32 = 30;

/// Euclidean radius, inside the window, of the cells that are updated.
pub const MAX_LEARN_DISTANCE: u64 = 5;

/// `i` is the first position of `memory` that holds `code`.
pub open spec fn is_first_match(memory: Seq<ContextMemoryItem>, code: u128, i: int) -> bool {
    &&& 0 <= i < memory.len()
    &&& memory[i].code.0 == code
    &&& forall|j: int| 0 <= j < i ==> memory[j].code.0 != code
}

/// `k` is the earliest position of `memory` with the fewest hits.
pub open spec fn is_eviction_index(memory: Seq<ContextMemoryItem>, k: int) -> bool {
    &&& 0 <= k < memory.len()
    &&& forall|j: int| 0 <= j < memory.len() ==> memory[k].hits <= memory[j].hits
    &&& forall|j: int| 0 <= j < k ==> memory[j].hits > memory[k].hits
}

/// The item seen once more; the count stays put at the top of its range.
pub open spec fn hit_again(item: ContextMemoryItem) -> ContextMemoryItem {
    ContextMemoryItem {
        code: item.code,
        hits: if item.hits < u32::MAX {
            (item.hits + 1) as u32
        } else {
            item.hits
        },
    }
}

/// A memory after `code` was presented to it: a stored equal code gains a
/// hit; otherwise the code is appended with no hits, after the earliest
/// item with the fewest hits was evicted if the memory was full.
pub open spec fn updated_memory(memory: Seq<ContextMemoryItem>, code: BitVector) -> Seq<
    ContextMemoryItem,
> {
    let fresh = ContextMemoryItem { code, hits: 0 };
    if exists|i: int| is_first_match(memory, code.0, i) {
        let i = choose|i: int| is_first_match(memory, code.0, i);
        memory.update(i, hit_again(memory[i]))
    } else if memory.len() < MAX_MEMORY {
        memory.push(fresh)
    } else {
        let k = choose|k: int| is_eviction_index(memory, k);
        memory.remove(k).push(fresh)
    }
}

/// No stored copy of `code` has its hit count at the top of its range.
pub open spec fn no_saturated_hits(memory: Seq<ContextMemoryItem>, code: BitVector) -> bool {
    forall|i: int| 0 <= i < memory.len() && memory[i].code == code ==> memory[i].hits < u32::MAX
}

/// Largest covariance of one cell: `MAX_MEMORY` items of the largest weight.
pub const MAX_CELL_WEIGHT: u64 = 20 * MAX_ITEM_WEIGHT;

pub proof fn lemma_eviction_index_exists(memory: Seq<ContextMemoryItem>)
    requires
        memory.len() > 0,
    ensures
        exists|k: int| is_eviction_index(memory, k),
    decreases memory.len(),
{
    if memory.len() == 1 {
        assert(is_eviction_index(memory, 0));
    } else {
        let rest = memory.drop_last();
        lemma_eviction_index_exists(rest);
        let k = choose|k: int| is_eviction_index(rest, k);
        let last = memory.len() - 1;
        assert(forall|j: int| 0 <= j < last ==> rest[j] == memory[j]);
        if memory[last].hits < memory[k].hits {
            assert(is_eviction_index(memory, last));
        } else {
            assert(is_eviction_index(memory, k));
        }
    }
}

/// Presenting a code keeps a memory within its capacity, each code once.
pub proof fn lemma_updated_memory_wf(memory: Seq<ContextMemoryItem>, code: BitVector)
    requires
        memory_wf(memory),
    ensures
        memory_wf(updated_memory(memory, code)),
{
    let updated = updated_memory(memory, code);
    if exists|i: int| is_first_match(memory, code.0, i) {
        let i = choose|i: int| is_first_match(memory, code.0, i);
        assert forall|a: int, b: int| 0 <= a < b < updated.len() implies #[trigger] updated[a].code
            != #[trigger] updated[b].code by {
            assert(updated[a].code == memory[a].code);
            assert(updated[b].code == memory[b].code);
        }
    } else {
        assert forall|j: int| 0 <= j < memory.len() implies memory[j].code != code by {
            if memory[j].code == code {
                lemma_first_match_exists(memory, code.0, j);
            }
        }
        if memory.len() >= MAX_MEMORY {
            lemma_eviction_index_exists(memory);
            let k = choose|k: int| is_eviction_index(memory, k);
            let rest = memory.remove(k);
            assert forall|a: int, b: int| 0 <= a < b < rest.len() implies #[trigger] rest[a].code
                != #[trigger] rest[b].code by {
                let a0 = if a < k { a } else { a + 1 };
                let b0 = if b < k { b } else { b + 1 };
                assert(rest[a] == memory[a0]);
                assert(rest[b] == memory[b0]);
            }
            assert forall|a: int, b: int| 0 <= a < b < updated.len() implies #[trigger] updated[a].code
                != #[trigger] updated[b].code by {
                if b == updated.len() - 1 {
                    let a0 = if a < k { a } else { a + 1 };
                    assert(rest[a] == memory[a0]);
                }
            }
        } else {
            assert forall|a: int, b: int| 0 <= a < b < updated.len() implies #[trigger] updated[a].code
                != #[trigger] updated[b].code by {
                if b == updated.len() - 1 {
                    assert(updated[a] == memory[a]);
                }
            }
        }
    }
}

/// Presenting a code changes a memory, unless the code is stored there with
/// a hit count already at the top of its range.
pub proof fn lemma_update_changes_memory(memory: Seq<ContextMemoryItem>, code: BitVector)
    requires
        memory.len() <= MAX_MEMORY,
        forall|i: int| 0 <= i < memory.len() && memory[i].code == code ==> memory[i].hits < u32::MAX,
    ensures
        updated_memory(memory, code) != memory,
{
    let fresh = ContextMemoryItem { code, hits: 0 };
    if exists|i: int| is_first_match(memory, code.0, i) {
        let i = choose|i: int| is_first_match(memory, code.0, i);
        assert(updated_memory(memory, code)[i].hits != memory[i].hits);
    } else if memory.len() < MAX_MEMORY {
        assert(updated_memory(memory, code).len() != memory.len());
    } else {
        lemma_eviction_index_exists(memory);
        let updated = updated_memory(memory, code);
        let last = memory.len() - 1;
        assert(updated[last] == fresh);
        if memory[last] == fresh {
            assert(is_first_match(memory, code.0, last) || exists|i: int| is_first_match(memory, code.0, i)) by {
                lemma_first_match_exists(memory, code.0, last);
            }
        }
    }
}

proof fn lemma_first_match_exists(memory: Seq<ContextMemoryItem>, code: u128, k: int)
    requires
        0 <= k < memory.len(),
        memory[k].code.0 == code,
    ensures
        exists|i: int| is_first_match(memory, code, i),
    decreases k,
{
    if exists|j: int| 0 <= j < k && memory[j].code.0 == code {
        let j = choose|j: int| 0 <= j < k && memory[j].code.0 == code;
        lemma_first_match_exists(memory, code, j);
    } else {
        assert(is_first_match(memory, code, k));
    }
}

/// Presents `code` to one cell.
fn update_context(context: &mut Context, code: BitVector)
    requires
        old(context).wf(),
    ensures
        final(context).memory@ == updated_memory(old(context).memory@, code),
        final(context).wf(),
        exists|j: int| 0 <= j < final(context).memory@.len() && (#[trigger] final(context).memory@[j]).code == code,
{
    let ghost memory = context.memory@;
    let mut min_hits_value: u32 = 0;
    let mut min_hits_idx: usize = 0;
    let mut i: usize = 0;
    while i < context.memory.len()
        invariant
            memory == context.memory@,
            memory == old(context).memory@,
            memory_wf(memory),
            i <= memory.len(),
            forall|j: int| 0 <= j < i ==> memory[j].code.0 != code.0,
            i > 0 ==> min_hits_idx < i && min_hits_value == memory[min_hits_idx as int].hits,
            i == 0 ==> min_hits_idx == 0,
            forall|j: int| 0 <= j < i ==> memory[min_hits_idx as int].hits <= #[trigger] memory[j].hits,
            forall|j: int|
                0 <= j < min_hits_idx ==> #[trigger] memory[j].hits > memory[min_hits_idx as int].hits,
        decreases memory.len() - i,
    {
        let item = context.memory[i];
        if item.code.value() == code.value() {
            let hits = if item.hits < u32::MAX {
                item.hits + 1
            } else {
                item.hits
            };
            context.memory.set(i, ContextMemoryItem { code: item.code, hits });
            proof {
                assert(is_first_match(memory, code.0, i as int));
                let k = choose|k: int| is_first_match(memory, code.0, k);
                assert(k == i);
                assert(hit_again(memory[i as int]) == ContextMemoryItem { code: item.code, hits });
                assert(context.memory@ =~= memory.update(i as int, hit_again(memory[i as int])));
                assert(exists|k: int| is_first_match(memory, code.0, k));
                assert(updated_memory(memory, code) == memory.update(
                    i as int,
                    hit_again(memory[i as int]),
                ));
                lemma_updated_memory_wf(memory, code);
                assert(context.memory@[i as int].code == code);
            }
            return;
        }
        if i == 0 || min_hits_value > item.hits {
            min_hits_value = item.hits;
            min_hits_idx = i;
        }
        i = i + 1;
    }
    proof {
        assert(!exists|k: int| is_first_match(memory, code.0, k));
    }
    if context.memory.len() == get_max_memory_size() {
        proof {
            assert(is_eviction_index(memory, min_hits_idx as int));
            let k = choose|k: int| is_eviction_index(memory, k);
            assert(k == min_hits_idx);
        }
        context.memory.remove(min_hits_idx);
    }
    context.memory.push(ContextMemoryItem { code, hits: 0 });
    proof {
        assert(context.memory@ =~= updated_memory(memory, code));
        lemma_updated_memory_wf(memory, code);
        assert(context.memory@[context.memory@.len() - 1].code == code);
    }
}

/// The nearest index of `0 .. max_dim` to `index`.
pub fn clamp_index(index: isize, max_dim: usize) -> (r: usize)
    requires
        1 <= max_dim <= isize::MAX,
    ensures
        r == if index < 0 {
            0
        } else if index > max_dim - 1 {
            (max_dim - 1) as int
        } else {
            index as int
        },
{
    if index < 0 {
        0
    } else if index > (max_dim - 1) as isize {
        max_dim - 1
    } else {
        index as usize
    }
}

/// Covariance of the cell at row-major position `k` of a grid.
pub open spec fn cell_weight(cells: Seq<Seq<Seq<ContextMemoryItem>>>, code: u128, k: int) -> nat {
    let cols = grid_cols(cells);
    covariance_of(cells[k / cols as int][k % cols as int], code)
}

/// Length of the weighted line up to row-major position `k`: each cell
/// occupies a segment as long as its covariance.
pub open spec fn line_prefix(cells: Seq<Seq<Seq<ContextMemoryItem>>>, code: u128, k: int) -> nat
    decreases k,
{
    if k <= 0 {
        0
    } else {
        line_prefix(cells, code, k - 1) + cell_weight(cells, code, k - 1)
    }
}

pub open spec fn cell_count(cells: Seq<Seq<Seq<ContextMemoryItem>>>) -> nat {
    cells.len() * grid_cols(cells)
}

/// Length of the whole weighted line.
pub open spec fn line_total(cells: Seq<Seq<Seq<ContextMemoryItem>>>, code: u128) -> nat {
    line_prefix(cells, code, cell_count(cells) as int)
}

/// Cell `k` is the first whose running total on the weighted line reaches
/// `pick`.
pub open spec fn selects(cells: Seq<Seq<Seq<ContextMemoryItem>>>, code: u128, pick: int, k: int) -> bool {
    &&& 0 <= k < cell_count(cells)
    &&& pick <= line_prefix(cells, code, k + 1)
    &&& k > 0 ==> line_prefix(cells, code, k) < pick
}

/// Cell `(y, x)` is updated when `(wy, wx)` wins: within the window of half
/// side `LEARN_RANGE` and within `MAX_LEARN_DISTANCE` of the winner.
pub open spec fn in_learn_region(wy: int, wx: int, y: int, x: int) -> bool {
    &&& -LEARN_RANGE <= y - wy <= LEARN_RANGE
    &&& -LEARN_RANGE <= x - wx <= LEARN_RANGE
    &&& (y - wy) * (y - wy) + (x - wx) * (x - wx) <= MAX_LEARN_DISTANCE * MAX_LEARN_DISTANCE
}

/// The grid after `code` was presented to every cell of the winner's region.
pub open spec fn learned_cells(
    cells: Seq<Seq<Seq<ContextMemoryItem>>>,
    code: BitVector,
    wy: int,
    wx: int,
) -> Seq<Seq<Seq<ContextMemoryItem>>> {
    Seq::new(
        cells.len(),
        |y: int|
            Seq::new(
                cells[y].len(),
                |x: int|
                    if in_learn_region(wy, wx, y, x) {
                        updated_memory(cells[y][x], code)
                    } else {
                        cells[y][x]
                    },
            ),
    )
}

/// The grid while the region is being updated in row-major order, up to
/// but not including `(y, x)`.
pub open spec fn partially_learned(
    cells: Seq<Seq<Seq<ContextMemoryItem>>>,
    code: BitVector,
    wy: int,
    wx: int,
    y: int,
    x: int,
) -> Seq<Seq<Seq<ContextMemoryItem>>> {
    Seq::new(
        cells.len(),
        |yy: int|
            Seq::new(
                cells[yy].len(),
                |xx: int|
                    if in_learn_region(wy, wx, yy, xx) && (yy < y || (yy == y && xx < x)) {
                        updated_memory(cells[yy][xx], code)
                    } else {
                        cells[yy][xx]
                    },
            ),
    )
}

/// The grid after every cell was consolidated.
pub open spec fn consolidated_cells(cells: Seq<Seq<Seq<ContextMemoryItem>>>) -> Seq<
    Seq<Seq<ContextMemoryItem>>,
> {
    Seq::new(cells.len(), |y: int| Seq::new(cells[y].len(), |x: int| cells[y][x].filter(retained())))
}

/// Sum of the first `k` covariances.
pub open spec fn prefix_sum(covariances: Seq<u64>, k: int) -> nat
    decreases k,
{
    if k <= 0 {
        0
    } else {
        prefix_sum(covariances, k - 1) + (covariances[k - 1] as nat)
    }
}

proof fn lemma_row_major(y: int, x: int, cols: int)
    requires
        0 <= y,
        0 <= x < cols,
    ensures
        (y * cols + x) / cols == y,
        (y * cols + x) % cols == x,
{
    vstd::arithmetic::div_mod::lemma_fundamental_div_mod_converse(y * cols + x, cols, y, x);
}

/// Covariance of every cell with `code`, in row-major order.
fn calculate_covariances_map(contexts: &ContextMap, code: &BitVector) -> (r: Vec<u64>)
    requires
        contexts.wf(),
    ensures
        r@.len() == cell_count(contexts.cells()),
        forall|k: int|
            0 <= k < r@.len() ==> r@[k] == cell_weight(contexts.cells(), code.0, k) && r@[k]
                <= MAX_CELL_WEIGHT,
{
    let ghost cells = contexts.cells();
    let (rows, cols) = contexts.shape();
    let mut covariances: Vec<u64> = Vec::new();
    let mut y: usize = 0;
    while y < rows
        invariant
            cells == contexts.cells(),
            contexts.wf(),
            rows == cells.len(),
            rows > 0 ==> cols == grid_cols(cells),
            y <= rows,
            covariances@.len() == y * cols,
            forall|k: int|
                0 <= k < covariances@.len() ==> covariances@[k] == cell_weight(cells, code.0, k)
                    && covariances@[k] <= MAX_CELL_WEIGHT,
        decreases rows - y,
    {
        let mut x: usize = 0;
        assert(cells[y as int].len() == cols);
        while x < cols
            invariant
                cells == contexts.cells(),
                contexts.wf(),
                rows == cells.len(),
                cols == grid_cols(cells),
                y < rows,
                x <= cols,
                covariances@.len() == y * cols + x,
                forall|k: int|
                    0 <= k < covariances@.len() ==> covariances@[k] == cell_weight(cells, code.0, k)
                        && covariances@[k] <= MAX_CELL_WEIGHT,
            decreases cols - x,
        {
            proof {
                lemma_row_major(y as int, x as int, cols as int);
                assert(y * cols + x < rows * cols) by (nonlinear_arith)
                    requires
                        y < rows,
                        x < cols,
                ;
            }
            let c = contexts.cell(y, x).covariance(code);
            covariances.push(c);
            x = x + 1;
        }
        assert((y + 1) * cols == y * cols + cols) by (nonlinear_arith);
        y = y + 1;
    }
    proof {
        if rows == 0 {
            assert(cell_count(cells) == 0);
        }
    }
    covariances
}

/// The weighted line: each position's row-major coordinates with the running
/// total of the covariances up to and including it, and the line's length.
fn calculate_contexts_covariances_distances(covariances: &Vec<u64>, cols: usize) -> (r: (
    u128,
    Vec<((usize, usize), u128)>,
))
    requires
        cols > 0,
        forall|k: int| 0 <= k < covariances@.len() ==> covariances@[k] <= MAX_CELL_WEIGHT,
    ensures
        r.0 == prefix_sum(covariances@, covariances@.len() as int),
        r.1@.len() == covariances@.len(),
        forall|k: int|
            0 <= k < r.1@.len() ==> (#[trigger] r.1@[k]).1 == prefix_sum(covariances@, k + 1)
                && r.1@[k].0 == ((k / cols as int) as usize, (k % cols as int) as usize),
{
    let mut total_distance: u128 = 0;
    let mut distances: Vec<((usize, usize), u128)> = Vec::new();
    let mut k: usize = 0;
    while k < covariances.len()
        invariant
            cols > 0,
            forall|j: int| 0 <= j < covariances@.len() ==> covariances@[j] <= MAX_CELL_WEIGHT,
            k <= covariances@.len(),
            distances@.len() == k,
            total_distance == prefix_sum(covariances@, k as int),
            total_distance <= k * MAX_CELL_WEIGHT,
            forall|j: int|
                0 <= j < k ==> (#[trigger] distances@[j]).1 == prefix_sum(covariances@, j + 1)
                    && distances@[j].0 == ((j / cols as int) as usize, (j % cols as int) as usize),
        decreases covariances@.len() - k,
    {
        proof {
            assert(k * MAX_CELL_WEIGHT + MAX_CELL_WEIGHT == (k + 1) * MAX_CELL_WEIGHT)
                by (nonlinear_arith);
            assert((k + 1) * MAX_CELL_WEIGHT <= 0x1_0000_0000_0000_0000 * MAX_CELL_WEIGHT)
                by (nonlinear_arith)
                requires
                    k < 0x1_0000_0000_0000_0000,
            ;
        }
        total_distance = total_distance + covariances[k] as u128;
        distances.push(((k / cols, k % cols), total_distance));
        k = k + 1;
    }
    (total_distance, distances)
}

/// Entry `k` is the first of the line whose running total reaches `pick`.
pub open spec fn picked_entry(distances: Seq<((usize, usize), u128)>, k: int, pick: int) -> bool {
    &&& 0 <= k < distances.len()
    &&& 0 <= pick <= distances[k].1
    &&& k > 0 ==> distances[k - 1].1 < pick
}

/// Position of the first entry of the line whose running total reaches
/// `pick`.
fn select_winner(distances: &Vec<((usize, usize), u128)>, pick: u128) -> (r: usize)
    requires
        distances@.len() > 0,
        pick <= distances@.last().1,
        forall|i: int, j: int|
            0 <= i <= j < distances@.len() ==> distances@[i].1 <= distances@[j].1,
    ensures
        r < distances@.len(),
        pick <= distances@[r as int].1,
        r > 0 ==> distances@[r - 1].1 < pick,
{
    let mut lo: usize = 0;
    let mut hi: usize = distances.len() - 1;
    while lo < hi
        invariant
            lo <= hi < distances@.len(),
            pick <= distances@[hi as int].1,
            lo > 0 ==> distances@[lo - 1].1 < pick,
            forall|i: int, j: int|
                0 <= i <= j < distances@.len() ==> distances@[i].1 <= distances@[j].1,
        decreases hi - lo,
    {
        let mid = lo + (hi - lo) / 2;
        if distances[mid].1 >= pick {
            hi = mid;
        } else {
            lo = mid + 1;
        }
    }
    lo
}

pub proof fn lemma_prefix_sum_monotone(covariances: Seq<u64>, i: int, j: int)
    requires
        0 <= i <= j,
    ensures
        prefix_sum(covariances, i) <= prefix_sum(covariances, j),
    decreases j - i,
{
    if i < j {
        lemma_prefix_sum_monotone(covariances, i, j - 1);
    }
}

proof fn lemma_prefix_sum_is_line(
    covariances: Seq<u64>,
    cells: Seq<Seq<Seq<ContextMemoryItem>>>,
    code: u128,
    k: int,
)
    requires
        0 <= k <= covariances.len(),
        forall|j: int|
            0 <= j < covariances.len() ==> covariances[j] == cell_weight(cells, code, j),
    ensures
        prefix_sum(covariances, k) == line_prefix(cells, code, k),
        prefix_sum(covariances, k) >= k,
    decreases k,
{
    if k > 0 {
        lemma_prefix_sum_is_line(covariances, cells, code, k - 1);
    }
}

proof fn lemma_row_of_position(k: int, rows: int, cols: int)
    requires
        0 <= k < rows * cols,
        cols > 0,
    ensures
        0 <= k / cols < rows,
        0 <= k % cols < cols,
{
    vstd::arithmetic::div_mod::lemma_fundamental_div_mod(k, cols);
    let q = k / cols;
    let m = k % cols;
    assert(0 <= m < cols);
    assert(0 <= q < rows) by (nonlinear_arith)
        requires
            k == cols * q + m,
            0 <= m < cols,
            0 <= k < rows * cols,
            cols > 0,
    ;
}

proof fn lemma_partially_learned_wf(
    cells: Seq<Seq<Seq<ContextMemoryItem>>>,
    code: BitVector,
    wy: int,
    wx: int,
    y: int,
    x: int,
)
    requires
        grid_wf(cells),
    ensures
        grid_wf(partially_learned(cells, code, wy, wx, y, x)),
        partially_learned(cells, code, wy, wx, y, x).len() == cells.len(),
        forall|yy: int|
            0 <= yy < cells.len() ==> #[trigger] partially_learned(cells, code, wy, wx, y, x)[yy].len()
                == cells[yy].len(),
{
    let p = partially_learned(cells, code, wy, wx, y, x);
    assert(grid_cols(p) == grid_cols(cells));
    assert forall|yy: int, xx: int|
        0 <= yy < p.len() && 0 <= xx < grid_cols(p) implies memory_wf(#[trigger] p[yy][xx]) by {
        lemma_updated_memory_wf(cells[yy][xx], code);
    }
}

/// Presents `code` to every cell of the region of the winner `(wy, wx)`.
#[verifier::spinoff_prover]
#[verifier::rlimit(40)]
fn update_neighbourhood(contexts: &mut ContextMap, code: &BitVector, wy: usize, wx: usize)
    requires
        old(contexts).wf(),
        wy < old(contexts).rows(),
        wx < old(contexts).cols(),
    ensures
        final(contexts).wf(),
        final(contexts).cells() == learned_cells(old(contexts).cells(), *code, wy as int, wx as int),
{
    let ghost cells = contexts.cells();
    let ghost gy = wy as int;
    let ghost gx = wx as int;
    let (rows, cols) = contexts.shape();
    assert(rows * cols <= isize::MAX);
    assert(rows <= isize::MAX && cols <= isize::MAX) by (nonlinear_arith)
        requires
            rows * cols <= isize::MAX,
            rows >= 1,
            cols >= 1,
    ;
    let learn_range = get_learn_range();
    let max_learn_distance = get_max_learn_distance();
    let start_y = clamp_index(wy as isize - learn_range, rows);
    let end_y = if rows - 1 - wy > learn_range as usize {
        wy + learn_range as usize
    } else {
        rows - 1
    };
    let start_x = clamp_index(wx as isize - learn_range, cols);
    let end_x = if cols - 1 - wx > learn_range as usize {
        wx + learn_range as usize
    } else {
        cols - 1
    };
    let limit = (max_learn_distance * max_learn_distance) as isize;
    proof {
        lemma_partially_learned_wf(cells, *code, gy, gx, start_y as int, 0);
        assert(partially_learned(cells, *code, gy, gx, start_y as int, 0) =~~= cells);
    }
    let mut y: usize = start_y;
    while y <= end_y
        invariant
            grid_wf(cells),
            rows == cells.len(),
            cols == grid_cols(cells),
            rows * cols <= isize::MAX,
            rows <= isize::MAX,
            cols <= isize::MAX,
            gy == wy,
            gx == wx,
            wy < rows,
            wx < cols,
            learn_range == LEARN_RANGE,
            limit == MAX_LEARN_DISTANCE * MAX_LEARN_DISTANCE,
            start_y == (if wy - LEARN_RANGE < 0 { 0 } else { wy - LEARN_RANGE }),
            end_y == (if wy + LEARN_RANGE > rows - 1 { rows - 1 } else { wy + LEARN_RANGE }),
            start_x == (if wx - LEARN_RANGE < 0 { 0 } else { wx - LEARN_RANGE }),
            end_x == (if wx + LEARN_RANGE > cols - 1 { cols - 1 } else { wx + LEARN_RANGE }),
            start_y <= y <= end_y + 1,
            contexts.cells() == partially_learned(cells, *code, gy, gx, y as int, 0),
        decreases end_y + 1 - y,
    {
        proof {
            assert(partially_learned(cells, *code, gy, gx, y as int, 0) =~~= partially_learned(
                cells,
                *code,
                gy,
                gx,
                y as int,
                start_x as int,
            ));
        }
        let mut x: usize = start_x;
        while x <= end_x
            invariant
                grid_wf(cells),
                rows == cells.len(),
                cols == grid_cols(cells),
                rows <= isize::MAX,
                cols <= isize::MAX,
                gy == wy,
                gx == wx,
                wy < rows,
                wx < cols,
                limit == MAX_LEARN_DISTANCE * MAX_LEARN_DISTANCE,
                start_y == (if wy - LEARN_RANGE < 0 { 0 } else { wy - LEARN_RANGE }),
                end_y == (if wy + LEARN_RANGE > rows - 1 { rows - 1 } else { wy + LEARN_RANGE }),
                start_x == (if wx - LEARN_RANGE < 0 { 0 } else { wx - LEARN_RANGE }),
                end_x == (if wx + LEARN_RANGE > cols - 1 { cols - 1 } else { wx + LEARN_RANGE }),
                start_y <= y <= end_y,
                start_x <= x <= end_x + 1,
                contexts.cells() == partially_learned(cells, *code, gy, gx, y as int, x as int),
            decreases end_x + 1 - x,
        {
            let dy = y as isize - wy as isize;
            let dx = x as isize - wx as isize;
            let ghost before = contexts.cells();
            proof {
                lemma_partially_learned_wf(cells, *code, gy, gx, y as int, x as int);
            }
            assert(-LEARN_RANGE <= dy <= LEARN_RANGE && -LEARN_RANGE <= dx <= LEARN_RANGE);
            assert(0 <= dy * dy <= 16 && 0 <= dx * dx <= 16) by (nonlinear_arith)
                requires
                    -4 <= dy <= 4,
                    -4 <= dx <= 4,
            ;
            if dy * dy + dx * dx <= limit {
                let mut c = contexts.replace_cell(y, x, Context::new());
                update_context(&mut c, *code);
                contexts.replace_cell(y, x, c);
                proof {
                    assert(contexts.cells() =~~= partially_learned(
                        cells,
                        *code,
                        gy,
                        gx,
                        y as int,
                        x + 1,
                    ));
                }
            } else {
                proof {
                    assert(contexts.cells() =~~= partially_learned(
                        cells,
                        *code,
                        gy,
                        gx,
                        y as int,
                        x + 1,
                    ));
                }
            }
            x = x + 1;
        }
        proof {
            assert(partially_learned(cells, *code, gy, gx, y as int, x as int) =~~= partially_learned(
                cells,
                *code,
                gy,
                gx,
                y + 1,
                0,
            ));
        }
        y = y + 1;
    }
    proof {
        assert(partially_learned(cells, *code, gy, gx, y as int, 0) =~~= learned_cells(
            cells,
            *code,
            gy,
            gx,
        ));
        lemma_partially_learned_wf(cells, *code, gy, gx, y as int, 0);
    }
}

/// The weighted line of the map for `code`, with its length.
fn weighted_line(contexts: &ContextMap, code: &BitVector) -> (r: (u128, Vec<((usize, usize), u128)>))
    requires
        contexts.wf(),
        contexts.rows() > 0,
        contexts.cols() > 0,
    ensures
        r.0 == line_total(contexts.cells(), code.0),
        r.0 >= cell_count(contexts.cells()) > 0,
        r.1@.len() == cell_count(contexts.cells()),
        forall|k: int|
            0 <= k < r.1@.len() ==> (#[trigger] r.1@[k]).1 == line_prefix(
                contexts.cells(),
                code.0,
                k + 1,
            ) && r.1@[k].0 == ((k / contexts.cols() as int) as usize, (k
                % contexts.cols() as int) as usize),
        forall|i: int, j: int| 0 <= i <= j < r.1@.len() ==> r.1@[i].1 <= r.1@[j].1,
{
    let ghost cells = contexts.cells();
    let covariances = calculate_covariances_map(contexts, code);
    let (rows, cols) = contexts.shape();
    let (total_distance, distances) = calculate_contexts_covariances_distances(&covariances, cols);
    proof {
        assert(rows * cols > 0) by (nonlinear_arith)
            requires
                rows > 0,
                cols > 0,
        ;
        lemma_prefix_sum_is_line(covariances@, cells, code.0, covariances@.len() as int);
        assert forall|k: int| 0 <= k < distances@.len() implies (#[trigger] distances@[k]).1
            == line_prefix(cells, code.0, k + 1) by {
            lemma_prefix_sum_is_line(covariances@, cells, code.0, k + 1);
        }
        assert forall|i: int, j: int| 0 <= i <= j < distances@.len() implies distances@[i].1
            <= distances@[j].1 by {
            lemma_prefix_sum_monotone(covariances@, i + 1, j + 1);
        }
    }
    (total_distance, distances)
}

/// Coordinates of the first cell whose running total on the weighted line
/// reaches a point drawn uniformly from `[0, total_distance)`.
fn get_winner_coordinates(total_distance: &u128, distances: &Vec<((usize, usize), u128)>) -> (r: (
    usize,
    usize,
))
    requires
        distances@.len() > 0,
        *total_distance == distances@.last().1,
        *total_distance > 0,
        forall|i: int, j: int|
            0 <= i <= j < distances@.len() ==> distances@[i].1 <= distances@[j].1,
    ensures
        exists|k: int, pick: int|
            #[trigger] picked_entry(distances@, k, pick) && r == distances@[k].0 && pick
                < *total_distance,
{
    let pick = draw_below(*total_distance);
    let k = select_winner(distances, pick);
    assert(picked_entry(distances@, k as int, pick as int));
    distances[k].0
}

/// The drawn entry `k` of the line of `contexts` is cell `(wy, wx)`, selected
/// by `pick`.
proof fn lemma_line_entry_selects(
    contexts: ContextMap,
    code: u128,
    distances: Seq<((usize, usize), u128)>,
    k: int,
    pick: int,
)
    requires
        contexts.wf(),
        contexts.rows() > 0,
        contexts.cols() > 0,
        distances.len() == cell_count(contexts.cells()),
        forall|j: int|
            0 <= j < distances.len() ==> (#[trigger] distances[j]).1 == line_prefix(
                contexts.cells(),
                code,
                j + 1,
            ) && distances[j].0 == ((j / contexts.cols() as int) as usize, (j
                % contexts.cols() as int) as usize),
        0 <= k < distances.len(),
        0 <= pick <= distances[k].1,
        k > 0 ==> distances[k - 1].1 < pick,
    ensures
        distances[k].0.0 < contexts.rows(),
        distances[k].0.1 < contexts.cols(),
        distances[k].0.0 * contexts.cols() + distances[k].0.1 == k,
        selects(contexts.cells(), code, pick, k),
{
    let cols = contexts.cols() as int;
    let (wy, wx) = distances[k].0;
    lemma_row_of_position(k, contexts.rows() as int, cols);
    vstd::arithmetic::div_mod::lemma_fundamental_div_mod(k, cols);
    assert(wy == k / cols);
    assert(wx == k % cols);
    assert(wy * cols + wx == k) by (nonlinear_arith)
        requires
            k == cols * (k / cols) + k % cols,
            wy == k / cols,
            wx == k % cols,
    ;
    if k > 0 {
        assert(distances[k - 1].1 == line_prefix(contexts.cells(), code, k));
    }
}

/// One learning step: every cell is weighted by its covariance with `code`,
/// a winner is drawn at random with those weights, and `code` is presented
/// to every cell of the winner's region.
pub fn learn(contexts: &mut ContextMap, code: &BitVector)
    requires
        old(contexts).wf(),
        old(contexts).rows() > 0,
        old(contexts).cols() > 0,
    ensures
        final(contexts).wf(),
        exists|wy: int, wx: int|
            0 <= wy < old(contexts).rows() && 0 <= wx < old(contexts).cols()
                && final(contexts).cells() == learned_cells(old(contexts).cells(), *code, wy, wx)
                && #[trigger] final(contexts).cells()[wy][wx] == updated_memory(
                old(contexts).cells()[wy][wx],
                *code,
            ) && (no_saturated_hits(old(contexts).cells()[wy][wx], *code)
                ==> final(contexts).cells()[wy][wx] != old(contexts).cells()[wy][wx])
                && exists|pick: int|
                0 <= pick < line_total(old(contexts).cells(), code.0) && #[trigger] selects(
                    old(contexts).cells(),
                    code.0,
                    pick,
                    wy * old(contexts).cols() + wx,
                ),
{
    let ghost cells = contexts.cells();
    let ghost before = *contexts;
    let (total_distance, distances) = weighted_line(contexts, code);
    let (wy, wx) = get_winner_coordinates(&total_distance, &distances);
    proof {
        let (k, pick) = choose|k: int, pick: int|
            #[trigger] picked_entry(distances@, k, pick) && (wy, wx) == distances@[k].0 && pick
                < total_distance;
        lemma_line_entry_selects(before, code.0, distances@, k, pick);
    }
    update_neighbourhood(contexts, code, wy, wx);
    proof {
        assert(in_learn_region(wy as int, wx as int, wy as int, wx as int));
        assert(contexts.cells()[wy as int][wx as int] == updated_memory(
            cells[wy as int][wx as int],
            *code,
        ));
        if no_saturated_hits(cells[wy as int][wx as int], *code) {
            lemma_update_changes_memory(cells[wy as int][wx as int], *code);
        }
    }
}

/// Coordinates of a winner drawn for `code`, as a learning step would draw
/// it, without learning anything.
pub fn get_winner_coordinates_for_code(contexts: &ContextMap, code: &BitVector) -> (r: (usize, usize))
    requires
        contexts.wf(),
        contexts.rows() > 0,
        contexts.cols() > 0,
    ensures
        r.0 < contexts.rows(),
        r.1 < contexts.cols(),
        exists|pick: int|
            0 <= pick < line_total(contexts.cells(), code.0) && #[trigger] selects(
                contexts.cells(),
                code.0,
                pick,
                r.0 * contexts.cols() + r.1,
            ),
{
    let (total_distance, distances) = weighted_line(contexts, code);
    let (wy, wx) = get_winner_coordinates(&total_distance, &distances);
    proof {
        let (k, pick) = choose|k: int, pick: int|
            #[trigger] picked_entry(distances@, k, pick) && (wy, wx) == distances@[k].0 && pick
                < total_distance;
        lemma_line_entry_selects(*contexts, code.0, distances@, k, pick);
    }
    (wy, wx)
}

/// The cell that the point `pick` of the weighted line selects: the first
/// whose running total reaches it; `None` when `pick` lies beyond the end
/// of the line.
pub fn winner_for_pick(contexts: &ContextMap, code: &BitVector, pick: u128) -> (r: Option<
    (usize, usize),
>)
    requires
        contexts.wf(),
        contexts.rows() > 0,
        contexts.cols() > 0,
    ensures
        r is None <==> pick > line_total(contexts.cells(), code.0),
        r matches Some((wy, wx)) ==> {
            &&& wy < contexts.rows()
            &&& wx < contexts.cols()
            &&& selects(contexts.cells(), code.0, pick as int, wy * contexts.cols() + wx)
        },
{
    let (total_distance, distances) = weighted_line(contexts, code);
    if pick > total_distance {
        return None;
    }
    let k = select_winner(&distances, pick);
    proof {
        lemma_line_entry_selects(*contexts, code.0, distances@, k as int, pick as int);
    }
    Some(distances[k].0)
}

/// A learning step whose winner is the cell that `pick` selects on the
/// weighted line; `None`, with the map untouched, when `pick` lies beyond
/// the end of the line.
pub fn learn_with_pick(contexts: &mut ContextMap, code: &BitVector, pick: u128) -> (r: Option<
    (usize, usize),
>)
    requires
        old(contexts).wf(),
        old(contexts).rows() > 0,
        old(contexts).cols() > 0,
    ensures
        final(contexts).wf(),
        r is None <==> pick > line_total(old(contexts).cells(), code.0),
        r is None ==> final(contexts).cells() == old(contexts).cells(),
        r matches Some((wy, wx)) ==> {
            &&& wy < old(contexts).rows()
            &&& wx < old(contexts).cols()
            &&& selects(old(contexts).cells(), code.0, pick as int, wy * old(contexts).cols() + wx)
            &&& final(contexts).cells() == learned_cells(
                old(contexts).cells(),
                *code,
                wy as int,
                wx as int,
            )
        },
{
    let (wy, wx) = match winner_for_pick(contexts, code, pick) {
        None => return None,
        Some(w) => w,
    };
    update_neighbourhood(contexts, code, wy, wx);
    Some((wy, wx))
}

/// The grid while its cells are consolidated in row-major order, up to but
/// not including `(y, x)`.
pub open spec fn partially_consolidated(
    cells: Seq<Seq<Seq<ContextMemoryItem>>>,
    y: int,
    x: int,
) -> Seq<Seq<Seq<ContextMemoryItem>>> {
    Seq::new(
        cells.len(),
        |yy: int|
            Seq::new(
                cells[yy].len(),
                |xx: int|
                    if yy < y || (yy == y && xx < x) {
                        cells[yy][xx].filter(retained())
                    } else {
                        cells[yy][xx]
                    },
            ),
    )
}

proof fn lemma_partially_consolidated_wf(cells: Seq<Seq<Seq<ContextMemoryItem>>>, y: int, x: int)
    requires
        grid_wf(cells),
    ensures
        grid_wf(partially_consolidated(cells, y, x)),
{
    let p = partially_consolidated(cells, y, x);
    assert(grid_cols(p) == grid_cols(cells));
    assert forall|yy: int, xx: int|
        0 <= yy < p.len() && 0 <= xx < grid_cols(p) implies memory_wf(#[trigger] p[yy][xx]) by {
        cells[yy][xx].lemma_filter_len(retained());
        lemma_filter_codes_unique(cells[yy][xx]);
    }
}

/// Consolidates every cell of the map.
pub fn consolidate(contexts: &mut ContextMap)
    requires
        old(contexts).wf(),
    ensures
        final(contexts).wf(),
        final(contexts).cells() == consolidated_cells(old(contexts).cells()),
        forall|y: int, x: int, i: int|
            0 <= y < final(contexts).rows() && 0 <= x < final(contexts).cols() && 0 <= i
                < final(contexts).cells()[y][x].len() ==> (#[trigger] final(contexts).cells()[y][x][i]).hits
                > context::MIN_HITS_TO_RETAIN,
{
    let ghost cells = contexts.cells();
    let (rows, cols) = contexts.shape();
    proof {
        assert(partially_consolidated(cells, 0, 0) =~~= cells);
    }
    let mut y: usize = 0;
    while y < rows
        invariant
            grid_wf(cells),
            rows == cells.len(),
            rows > 0 ==> cols == grid_cols(cells),
            y <= rows,
            contexts.cells() == partially_consolidated(cells, y as int, 0),
        decreases rows - y,
    {
        let mut x: usize = 0;
        while x < cols
            invariant
                grid_wf(cells),
                rows == cells.len(),
                cols == grid_cols(cells),
                y < rows,
                x <= cols,
                contexts.cells() == partially_consolidated(cells, y as int, x as int),
            decreases cols - x,
        {
            proof {
                lemma_partially_consolidated_wf(cells, y as int, x as int);
            }
            let mut c = contexts.replace_cell(y, x, Context::new());
            c.consolidate();
            contexts.replace_cell(y, x, c);
            proof {
                assert(contexts.cells() =~~= partially_consolidated(cells, y as int, x + 1));
            }
            x = x + 1;
        }
        proof {
            assert(partially_consolidated(cells, y as int, x as int) =~~= partially_consolidated(
                cells,
                y + 1,
                0,
            ));
        }
        y = y + 1;
    }
    proof {
        assert(partially_consolidated(cells, y as int, 0) =~~= consolidated_cells(cells));
        lemma_partially_consolidated_wf(cells, y as int, 0);
        assert forall|yy: int, xx: int, i: int|
            0 <= yy < contexts.rows() && 0 <= xx < contexts.cols() && 0 <= i
                < contexts.cells()[yy][xx].len() implies (#[trigger] contexts.cells()[yy][xx][i]).hits
            > context::MIN_HITS_TO_RETAIN by {
            cells[yy][xx].lemma_filter_pred(retained(), i);
        }
    }
}

/// The grid after learning `codes[0 .. n]` in order, the `k`-th with the
/// winner `winners[k]`.
pub open spec fn trained(
    cells: Seq<Seq<Seq<ContextMemoryItem>>>,
    codes: Seq<BitVector>,
    winners: Seq<(int, int)>,
    n: int,
) -> Seq<Seq<Seq<ContextMemoryItem>>>
    decreases n,
{
    if n <= 0 {
        cells
    } else {
        learned_cells(trained(cells, codes, winners, n - 1), codes[n - 1], winners[n - 1].0, winners[n - 1].1)
    }
}

/// The grid at the end of pass `step`: consolidated every
/// `CONSOLIDATION_PERIOD` passes.
pub open spec fn after_pass(learnt: Seq<Seq<Seq<ContextMemoryItem>>>, step: u32) -> Seq<
    Seq<Seq<ContextMemoryItem>>,
> {
    if step % CONSOLIDATION_PERIOD == 0 {
        consolidated_cells(learnt)
    } else {
        learnt
    }
}

/// Relies on `rand::seq::SliceRandom::shuffle` over `rand::thread_rng()`:
/// the codes are permuted in place.
#[verifier::external_body]
fn shuffle_codes(codes: &mut Vec<BitVector>)
    ensures
        final(codes)@.to_multiset() == old(codes)@.to_multiset(),
{
    rand::seq::SliceRandom::shuffle(codes.as_mut_slice(), &mut rand::thread_rng())
}

/// One training pass of the map over `inputs`, numbered `step`: the inputs
/// are shuffled, each is learnt in turn, and every `CONSOLIDATION_PERIOD`
/// passes the map is consolidated.
pub fn train_pass(contexts: &mut ContextMap, inputs: &mut Vec<BitVector>, step: u32)
    requires
        old(contexts).wf(),
        old(contexts).rows() > 0,
        old(contexts).cols() > 0,
    ensures
        final(contexts).wf(),
        final(contexts).rows() == old(contexts).rows(),
        final(contexts).cols() == old(contexts).cols(),
        final(inputs)@.to_multiset() == old(inputs)@.to_multiset(),
        exists|winners: Seq<(int, int)>|
            {
                &&& winners.len() == final(inputs)@.len()
                &&& forall|k: int| 0 <= k < winners.len() ==> 0 <= (#[trigger] winners[k]).0
                    < old(contexts).rows() && 0 <= winners[k].1 < old(contexts).cols()
                &&& final(contexts).cells() == after_pass(
                    #[trigger] trained(old(contexts).cells(), final(inputs)@, winners, winners.len() as int),
                    step,
                )
            },
        step % CONSOLIDATION_PERIOD == 0 ==> forall|y: int, x: int, i: int|
            0 <= y < final(contexts).rows() && 0 <= x < final(contexts).cols() && 0 <= i
                < final(contexts).cells()[y][x].len() ==> (
            #[trigger] final(contexts).cells()[y][x][i]).hits > context::MIN_HITS_TO_RETAIN,
{
    shuffle_codes(inputs);
    let ghost start = contexts.cells();
    let ghost rows = contexts.rows();
    let ghost cols = contexts.cols();
    let ghost mut winners: Seq<(int, int)> = Seq::empty();
    let mut k: usize = 0;
    while k < inputs.len()
        invariant
            contexts.wf(),
            contexts.rows() == rows > 0,
            contexts.cols() == cols > 0,
            k <= inputs@.len(),
            winners.len() == k,
            forall|j: int|
                0 <= j < winners.len() ==> 0 <= (#[trigger] winners[j]).0 < rows && 0
                    <= winners[j].1 < cols,
            contexts.cells() == trained(start, inputs@, winners, k as int),
        decreases inputs@.len() - k,
    {
        let ghost before = contexts.cells();
        learn(contexts, &inputs[k]);
        proof {
            let (wy, wx) = choose|wy: int, wx: int|
                0 <= wy < rows && 0 <= wx < cols && contexts.cells() == learned_cells(
                    before,
                    inputs@[k as int],
                    wy,
                    wx,
                ) && #[trigger] contexts.cells()[wy][wx] == updated_memory(before[wy][wx], inputs@[k as int]);
            assert(contexts.cells().len() == rows);
            assert(contexts.cells()[0].len() == before[0].len());
            let old_winners = winners;
            winners = winners.push((wy, wx));
            assert(winners.take(k as int) =~= old_winners);
            lemma_trained_prefix(start, inputs@, old_winners, winners, k as int);
        }
        k = k + 1;
    }
    let ghost learnt = contexts.cells();
    if step % CONSOLIDATION_PERIOD == 0 {
        let ghost before = contexts.cells();
        consolidate(contexts);
        proof {
            assert(contexts.cells().len() == rows);
            assert(contexts.cells()[0].len() == before[0].len());
        }
    }
    proof {
        assert(learnt == trained(start, inputs@, winners, winners.len() as int));
        assert(contexts.cells() == after_pass(trained(start, inputs@, winners, winners.len() as int), step));
    }
}

proof fn lemma_trained_prefix(
    cells: Seq<Seq<Seq<ContextMemoryItem>>>,
    codes: Seq<BitVector>,
    shorter: Seq<(int, int)>,
    longer: Seq<(int, int)>,
    n: int,
)
    requires
        0 <= n <= shorter.len() < longer.len(),
        forall|j: int| 0 <= j < shorter.len() ==> shorter[j] == longer[j],
    ensures
        trained(cells, codes, shorter, n) == trained(cells, codes, longer, n),
    decreases n,
{
    if n > 0 {
        lemma_trained_prefix(cells, codes, shorter, longer, n - 1);
    }
}

pub fn get_learn_range() -> (r: isize)
    ensures
        r == LEARN_RANGE,
{
    LEARN_RANGE
}

pub fn get_max_learn_distance() -> (r: u64)
    ensures
        r == MAX_LEARN_DISTANCE,
{
    MAX_LEARN_DISTANCE
}

pub fn get_max_memory_size() -> (r: usize)
    ensures
        r == MAX_MEMORY,
{
    MAX_MEMORY
}

} // verus!
