use vstd::prelude::*;

use crate::cell::{contains_cell, Cell};
use crate::state::State;

verus! {

/// The eight directions to a cell's neighbours, as (column, row) offsets.
pub open spec fn offsets() -> Seq<(int, int)> {
    seq![(-1, -1), (-1, 0), (-1, 1), (0, -1), (0, 1), (1, -1), (1, 0), (1, 1)]
}

/// A coordinate is valid when it lies in `[0, bound]`, both ends included.
pub open spec fn in_range(v: int, bound: usize) -> bool {
    0 <= v <= bound
}

/// The neighbour of `cell` in direction `k`, when both of its coordinates are valid.
pub open spec fn neighbor_at(width: usize, height: usize, cell: Cell, k: int) -> Option<Cell> {
    let nx = cell.x + offsets()[k].0;
    let ny = cell.y + offsets()[k].1;
    if in_range(nx, width) && in_range(ny, height) {
        Some(Cell { x: nx as usize, y: ny as usize })
    } else {
        None
    }
}

/// The eight neighbour slots of `cell`, in the order of `offsets`.
pub open spec fn neighbors(width: usize, height: usize, cell: Cell) -> Seq<Option<Cell>> {
    Seq::new(8, |k: int| neighbor_at(width, height, cell, k))
}

/// How many slots of `slots` hold a cell of `live`.
pub open spec fn count_live(slots: Seq<Option<Cell>>, live: Set<Cell>) -> nat
    decreases slots.len(),
{
    if slots.len() == 0 {
        0
    } else {
        count_live(slots.drop_last(), live) + match slots.last() {
            Some(c) => if live.contains(c) { 1nat } else { 0nat },
            None => 0nat,
        }
    }
}

/// How many valid neighbours of `cell` are alive.
pub open spec fn live_neighbor_count(width: usize, height: usize, live: Set<Cell>, cell: Cell) -> nat {
    count_live(neighbors(width, height, cell), live)
}

/// Conway's rule: a live cell survives with two or three live neighbours, a dead one is
/// born with exactly three.
pub open spec fn alive_next(width: usize, height: usize, live: Set<Cell>, cell: Cell) -> bool {
    let n = live_neighbor_count(width, height, live, cell);
    if live.contains(cell) {
        n == 2 || n == 3
    } else {
        n == 3
    }
}

/// `n` is `c` itself or one of its valid neighbours.
pub open spec fn near(width: usize, height: usize, c: Cell, n: Cell) -> bool {
    n == c || exists|k: int| 0 <= k < 8 && #[trigger] neighbor_at(width, height, c, k) == Some(n)
}

/// The cells whose fate is looked at in a step: the live cells and their valid neighbours.
pub open spec fn is_candidate(width: usize, height: usize, live: Set<Cell>, n: Cell) -> bool {
    exists|c: Cell| #[trigger] live.contains(c) && near(width, height, c, n)
}

/// The live cells of the next generation.
pub open spec fn next_generation(width: usize, height: usize, live: Set<Cell>) -> Set<Cell> {
    Set::new(|n: Cell| is_candidate(width, height, live, n) && alive_next(width, height, live, n))
}

/// `v` moved by `d` (one of -1, 0, 1), when the result lies in `[0, bound]`.
fn shift(v: usize, d: i8, bound: usize) -> (r: Option<usize>)
    requires
        -1 <= d <= 1,
    ensures
        r == (if in_range(v + d, bound) { Some((v + d) as usize) } else { None::<usize> }),
{
    if d < 0 {
        if v == 0 || v - 1 > bound { None } else { Some(v - 1) }
    } else if d == 0 {
        if v > bound { None } else { Some(v) }
    } else {
        if v >= bound { None } else { Some(v + 1) }
    }
}

/// The eight neighbour slots of `cell`: a slot holds the neighbour in its direction, or
/// nothing where a coordinate of that neighbour falls outside `[0, width]` x `[0, height]`.
pub fn get_neightbor_cells(state: &State, cell: &Cell) -> (r: Vec<Option<Cell>>)
    ensures
        r@ == neighbors(state.width, state.height, *cell),
{
    let directions: Vec<(i8, i8)> = vec![(-1, -1), (-1, 0), (-1, 1), (0, -1), (0, 1), (1, -1), (1, 0), (1, 1)];
    assert(forall|k: int| 0 <= k < 8 ==> directions@[k].0 == offsets()[k].0 && directions@[k].1 == offsets()[k].1);
    let mut slots: Vec<Option<Cell>> = Vec::new();
    let mut k: usize = 0;
    while k < 8
        invariant
            0 <= k <= 8,
            directions@.len() == 8,
            forall|j: int| 0 <= j < 8 ==> directions@[j].0 == offsets()[j].0 && directions@[j].1 == offsets()[j].1,
            slots@ == neighbors(state.width, state.height, *cell).take(k as int),
        decreases 8 - k,
    {
        let (dx, dy) = directions[k];
        let slot = match (shift(cell.x, dx, state.width), shift(cell.y, dy, state.height)) {
            (Some(x), Some(y)) => Some(Cell { x, y }),
            _ => None,
        };
        slots.push(slot);
        k = k + 1;
        assert(slots@ =~= neighbors(state.width, state.height, *cell).take(k as int));
    }
    assert(slots@ =~= neighbors(state.width, state.height, *cell));
    slots
}

/// The cell itself when it is alive in the next generation, nothing otherwise.
pub fn evaluate_cell(state: &State, cell: &Cell) -> (r: Option<Cell>)
    ensures
        r == (if alive_next(state.width, state.height, state.live(), *cell) {
            Some(*cell)
        } else {
            None::<Cell>
        }),
{
    let slots = get_neightbor_cells(state, cell);
    let ghost live = state.live();
    let mut count: usize = 0;
    let mut k: usize = 0;
    while k < slots.len()
        invariant
            0 <= k <= slots.len(),
            slots@ == neighbors(state.width, state.height, *cell),
            live == state.live(),
            count == count_live(slots@.take(k as int), live),
            count <= k,
        decreases slots.len() - k,
    {
        assert(slots@.take(k + 1).drop_last() =~= slots@.take(k as int));
        assert(slots@.take(k + 1).last() == slots@[k as int]);
        match slots[k] {
            Some(n) => {
                if state.is_alive(&n) {
                    count = count + 1;
                }
            },
            None => {},
        }
        k = k + 1;
    }
    assert(slots@.take(k as int) =~= slots@);
    let alive = state.is_alive(cell);
    if alive {
        if count == 2 || count == 3 { Some(*cell) } else { None }
    } else {
        if count == 3 { Some(*cell) } else { None }
    }
}

/// `n` is `c` or a valid neighbour of `c` for some `c` among the first `i` of `cells`.
pub open spec fn reached(width: usize, height: usize, cells: Seq<Cell>, i: int, n: Cell) -> bool {
    exists|j: int| 0 <= j < i && #[trigger] near(width, height, cells[j], n)
}

/// The live cells of the next generation, each once: every live cell and every valid
/// neighbour of one is evaluated, and those found alive are kept.
fn next_cells(state: &State) -> (r: Vec<Cell>)
    ensures
        r@.no_duplicates(),
        r@.to_set() == next_generation(state.width, state.height, state.live()),
{
    let ghost w = state.width;
    let ghost h = state.height;
    let ghost live = state.live();
    let ghost cells = state.living_cells@;
    let mut next: Vec<Cell> = Vec::new();
    let mut i: usize = 0;
    while i < state.living_cells.len()
        invariant
            0 <= i <= cells.len(),
            w == state.width,
            h == state.height,
            live == state.live(),
            cells == state.living_cells@,
            next@.no_duplicates(),
            forall|n: Cell| #[trigger]
                next@.contains(n) <==> (reached(w, h, cells, i as int, n) && alive_next(w, h, live, n)),
        decreases cells.len() - i,
    {
        let cell = state.living_cells[i];
        let mut candidates = get_neightbor_cells(state, &cell);
        candidates.push(Some(cell));
        let mut k: usize = 0;
        while k < candidates.len()
            invariant
                0 <= k <= candidates.len(),
                0 <= i < cells.len(),
                cell == cells[i as int],
                w == state.width,
                h == state.height,
                live == state.live(),
                cells == state.living_cells@,
                candidates@ == neighbors(w, h, cell).push(Some(cell)),
                next@.no_duplicates(),
                forall|n: Cell| #[trigger]
                    next@.contains(n) <==> ((reached(w, h, cells, i as int, n) || exists|m: int|
                        0 <= m < k && candidates@[m] == Some(n)) && alive_next(w, h, live, n)),
            decreases candidates.len() - k,
        {
            let ghost before = next@;
            if let Some(c) = candidates[k] {
                if let Some(born) = evaluate_cell(state, &c) {
                    if !contains_cell(&next, &born) {
                        next.push(born);
                        proof {
                            broadcast use vstd::seq_lib::lemma_seq_contains_after_push;
                        }
                    }
                }
            }
            assert forall|n: Cell| #[trigger] next@.contains(n) <==> (before.contains(n) || (
            candidates@[k as int] == Some(n) && alive_next(w, h, live, n))) by {
                broadcast use vstd::seq_lib::lemma_seq_contains_after_push;
            }
            k = k + 1;
            assert forall|n: Cell| #[trigger]
                next@.contains(n) <==> ((reached(w, h, cells, i as int, n) || exists|m: int|
                    0 <= m < k && candidates@[m] == Some(n)) && alive_next(w, h, live, n)) by {
                if exists|m: int| 0 <= m < k && candidates@[m] == Some(n) {
                    let m = choose|m: int| 0 <= m < k && candidates@[m] == Some(n);
                    if m < k - 1 {
                        assert(exists|m2: int| 0 <= m2 < k - 1 && candidates@[m2] == Some(n));
                    }
                }
                if candidates@[k - 1] == Some(n) {
                    assert(exists|m: int| 0 <= m < k && candidates@[m] == Some(n));
                }
                assert(before.contains(n) <==> ((reached(w, h, cells, i as int, n) || exists|m: int|
                    0 <= m < k - 1 && candidates@[m] == Some(n)) && alive_next(w, h, live, n)));
            }
        }
        assert forall|n: Cell|
            (exists|m: int| 0 <= m < 9 && candidates@[m] == Some(n)) <==> #[trigger] near(w, h, cell, n) by {
            if exists|m: int| 0 <= m < 9 && candidates@[m] == Some(n) {
                let m = choose|m: int| 0 <= m < 9 && candidates@[m] == Some(n);
                if m < 8 {
                    assert(neighbor_at(w, h, cell, m) == Some(n));
                }
            }
            if near(w, h, cell, n) {
                if n == cell {
                    assert(candidates@[8] == Some(n));
                } else {
                    let m = choose|m: int| 0 <= m < 8 && #[trigger] neighbor_at(w, h, cell, m) == Some(n);
                    assert(candidates@[m] == Some(n));
                }
            }
        }
        assert forall|n: Cell|
            reached(w, h, cells, i + 1, n) <==> (reached(w, h, cells, i as int, n) || #[trigger] near(w, h, cell, n)) by {
            if reached(w, h, cells, i + 1, n) {
                let j = choose|j: int| 0 <= j < i + 1 && #[trigger] near(w, h, cells[j], n);
                if j < i {
                    assert(reached(w, h, cells, i as int, n));
                }
            }
            if near(w, h, cell, n) {
                assert(near(w, h, cells[i as int], n));
            }
        }
        assert(k == 9);
        assert forall|n: Cell| #[trigger]
            next@.contains(n) <==> (reached(w, h, cells, i + 1, n) && alive_next(w, h, live, n)) by {
            assert(reached(w, h, cells, i + 1, n) <==> (reached(w, h, cells, i as int, n) || near(w, h, cell, n)));
            assert((exists|m: int| 0 <= m < 9 && candidates@[m] == Some(n)) <==> near(w, h, cell, n));
        }
        i = i + 1;
    }
    proof {
        assert forall|n: Cell| reached(w, h, cells, cells.len() as int, n) <==> is_candidate(w, h, live, n) by {
            if reached(w, h, cells, cells.len() as int, n) {
                let j = choose|j: int| 0 <= j < cells.len() && #[trigger] near(w, h, cells[j], n);
                assert(live.contains(cells[j]));
            }
            if is_candidate(w, h, live, n) {
                let c = choose|c: Cell| #[trigger] live.contains(c) && near(w, h, c, n);
                let j = choose|j: int| 0 <= j < cells.len() && cells[j] == c;
                assert(near(w, h, cells[j], n));
            }
        }
        assert(next@.to_set() =~= next_generation(w, h, live));
    }
    next
}

/// Advances the board by one generation: the live cells are replaced by those of the
/// next generation, the dimensions are kept.
pub fn calculate_next_generation(state: &mut State)
    ensures
        final(state).wf(),
        final(state).width == old(state).width,
        final(state).height == old(state).height,
        final(state).live() == next_generation(old(state).width, old(state).height, old(state).live()),
{
    let next = next_cells(state);
    state.living_cells = next;
}

proof fn lemma_offsets()
    ensures
        offsets().len() == 8,
        offsets()[0] == (-1int, -1int),
        offsets()[1] == (-1int, 0int),
        offsets()[2] == (-1int, 1int),
        offsets()[3] == (0int, -1int),
        offsets()[4] == (0int, 1int),
        offsets()[5] == (1int, -1int),
        offsets()[6] == (1int, 0int),
        offsets()[7] == (1int, 1int),
{
}

/// Opposite directions: a valid neighbour of an in-range cell has that cell as a neighbour.
proof fn lemma_neighbor_symmetric(width: usize, height: usize, n: Cell, k: int)
    requires
        n.x <= width,
        n.y <= height,
        0 <= k < 8,
        neighbor_at(width, height, n, k) is Some,
    ensures
        neighbor_at(width, height, neighbor_at(width, height, n, k)->0, 7 - k) == Some(n),
{
    lemma_offsets();
}

/// Distinct directions lead to distinct neighbours.
proof fn lemma_neighbors_distinct(width: usize, height: usize, n: Cell, i: int, j: int)
    requires
        0 <= i < 8,
        0 <= j < 8,
        neighbor_at(width, height, n, i) is Some,
        neighbor_at(width, height, n, i) == neighbor_at(width, height, n, j),
    ensures
        i == j,
{
    lemma_offsets();
}

proof fn lemma_count_positive(slots: Seq<Option<Cell>>, live: Set<Cell>)
    requires
        count_live(slots, live) > 0,
    ensures
        exists|k: int| 0 <= k < slots.len() && (#[trigger] slots[k]) is Some && live.contains(slots[k]->0),
    decreases slots.len(),
{
    let last = slots.len() - 1;
    if count_live(slots.drop_last(), live) > 0 {
        lemma_count_positive(slots.drop_last(), live);
        let k = choose|k: int| 0 <= k < slots.drop_last().len() && (#[trigger] slots.drop_last()[k]) is Some
            && live.contains(slots.drop_last()[k]->0);
        assert(slots[k] == slots.drop_last()[k]);
    } else {
        assert(slots[last] is Some && live.contains(slots[last]->0));
    }
}

proof fn lemma_count_single(slots: Seq<Option<Cell>>, c: Cell)
    requires
        forall|i: int, j: int|
            0 <= i < slots.len() && 0 <= j < slots.len() && slots[i] == Some(c) && slots[j] == Some(c) ==> i == j,
    ensures
        count_live(slots, set![c]) <= 1,
        (forall|i: int| 0 <= i < slots.len() ==> slots[i] != Some(c)) ==> count_live(slots, set![c]) == 0,
    decreases slots.len(),
{
    if slots.len() > 0 {
        let rest = slots.drop_last();
        lemma_count_single(rest, c);
        if slots.last() == Some(c) {
            assert forall|i: int| 0 <= i < rest.len() implies rest[i] != Some(c) by {
                assert(slots[i] == rest[i]);
            }
        }
        assert forall|i: int| 0 <= i < slots.len() && (forall|i2: int| 0 <= i2 < slots.len() ==> slots[i2] != Some(c))
            && 0 <= i < rest.len() implies rest[i] != Some(c) by {
            assert(slots[i] == rest[i]);
        }
    }
}

/// With no live cells there are none in the next generation either.
pub proof fn lemma_empty_stays_empty(width: usize, height: usize)
    ensures
        next_generation(width, height, Set::<Cell>::empty()) == Set::<Cell>::empty(),
{
    assert(next_generation(width, height, Set::<Cell>::empty()) =~= Set::<Cell>::empty());
}

/// Looking only at live cells and their valid neighbours misses no birth: on every cell of
/// `[0, width]` x `[0, height]`, the next generation agrees with the rule evaluated there.
pub proof fn lemma_candidates_exhaustive(width: usize, height: usize, live: Set<Cell>)
    ensures
        forall|n: Cell|
            n.x <= width && n.y <= height ==> (#[trigger] next_generation(width, height, live).contains(n)
                <==> alive_next(width, height, live, n)),
        forall|n: Cell| #[trigger]
            next_generation(width, height, live).contains(n) ==> alive_next(width, height, live, n),
{
    assert forall|n: Cell|
        n.x <= width && n.y <= height && alive_next(width, height, live, n) implies is_candidate(
        width,
        height,
        live,
        n,
    ) by {
        if live.contains(n) {
            assert(near(width, height, n, n));
        } else {
            let slots = neighbors(width, height, n);
            lemma_count_positive(slots, live);
            let k = choose|k: int| 0 <= k < slots.len() && (#[trigger] slots[k]) is Some && live.contains(slots[k]->0);
            let c = slots[k]->0;
            lemma_neighbor_symmetric(width, height, n, k);
            assert(neighbor_at(width, height, c, 7 - k) == Some(n));
            assert(near(width, height, c, n));
        }
    }
}

/// A cell alone on the board dies, and nothing is born around it.
pub proof fn lemma_lonely_cell_dies(width: usize, height: usize, c: Cell)
    ensures
        next_generation(width, height, set![c]) == Set::<Cell>::empty(),
{
    assert forall|n: Cell| !alive_next(width, height, set![c], n) by {
        let slots = neighbors(width, height, n);
        assert forall|i: int, j: int|
            0 <= i < slots.len() && 0 <= j < slots.len() && slots[i] == Some(c) && slots[j] == Some(c) implies i == j by {
            lemma_neighbors_distinct(width, height, n, i, j);
        }
        lemma_count_single(slots, c);
        if n == c {
            assert forall|i: int| 0 <= i < slots.len() implies slots[i] != Some(c) by {
                lemma_offsets();
            }
        }
    }
    assert(next_generation(width, height, set![c]) =~= Set::<Cell>::empty());
}

/// A dead cell of `[0, width]` x `[0, height]` with exactly three live neighbours is alive in
/// the next generation.
pub proof fn lemma_birth(width: usize, height: usize, live: Set<Cell>, n: Cell)
    requires
        n.x <= width,
        n.y <= height,
        !live.contains(n),
        live_neighbor_count(width, height, live, n) == 3,
    ensures
        next_generation(width, height, live).contains(n),
{
    lemma_candidates_exhaustive(width, height, live);
}

} // verus!
