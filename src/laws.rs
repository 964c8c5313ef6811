use crate::board::{
    cell_index, covers, fire_outcome, in_bounds, lemma_sink_all_wf, sunken_in, BoardView, CellState,
    ShipView, FLEET_LEN,
};
use vstd::prelude::*;

verus! {

/// A second shot at the same cell reports a miss and changes nothing: a shot
/// cell stays as the first shot left it.
pub proof fn law_second_shot_is_a_no_op(b: BoardView, r: int, c: int)
    requires
        b.wf(),
        in_bounds(r, c),
    ensures
        fire_outcome(b.fired(r, c).cell(r, c)) == CellState::Miss,
        b.fired(r, c).fired(r, c) == b.fired(r, c),
{
    let f = b.fired(r, c);
    assert(f.fired(r, c).grid =~= f.grid);
}

/// A second sink check right after a first one sends no ship down and changes
/// nothing.
pub proof fn law_sink_check_idempotent(b: BoardView)
    requires
        b.wf(),
    ensures
        b.sink_all().sink_all() == b.sink_all(),
        forall|i: int| 0 <= i < b.ships.len() ==> !#[trigger] b.sink_all().sinks(i),
        b.sink_all().lists_sinking(Seq::empty()),
{
    let t = b.sink_all();
    let n = b.ships.len() as int;
    lemma_sink_all_wf(b);
    assert forall|i: int| 0 <= i < n implies !#[trigger] t.sinks(i) by {
        let pos = b.ships[i].positions;
        assert(t.ships[i].positions == pos);
        if t.sinks(i) {
            assert(!b.sinks(i));
            let k = choose|k: int| 0 <= k < pos.len() && b.cell_at(#[trigger] pos[k]) != CellState::Hit;
            assert(b.ships[i].wf());
            let p = pos[k];
            let x = cell_index(p.0 as int, p.1 as int);
            assert(in_bounds(p.0 as int, p.1 as int));
            assert(t.cell_at(pos[k]) == CellState::Hit);
            assert(t.grid[x] == CellState::Sunken || t.grid[x] == b.grid[x]);
        }
    }
    assert forall|x: int| 0 <= x < t.grid.len() implies t.sunk_cells_upto(n)[x] == t.grid[x] by {
        if exists|j: int| 0 <= j < n && t.sinks(j) && covers(t.ships[j].positions, x) {
            let j = choose|j: int| 0 <= j < n && t.sinks(j) && covers(t.ships[j].positions, x);
            assert(!t.sinks(j));
        }
    }
    assert(t.sink_all().grid =~= t.grid);
    assert forall|i: int| 0 <= i < n implies #[trigger] t.sink_all().ships[i] == t.ships[i] by {}
    assert(t.sink_all().ships =~= t.ships);
}

proof fn lemma_all_sunken_count(ships: Seq<ShipView>)
    ensures
        sunken_in(ships) <= ships.len(),
        (forall|i: int| 0 <= i < ships.len() ==> (#[trigger] ships[i]).sunken) <==> sunken_in(ships)
            == ships.len(),
    decreases ships.len(),
{
    if ships.len() > 0 {
        let init = ships.drop_last();
        lemma_all_sunken_count(init);
        if forall|i: int| 0 <= i < ships.len() ==> (#[trigger] ships[i]).sunken {
            assert forall|i: int| 0 <= i < init.len() implies (#[trigger] init[i]).sunken by {
                assert(init[i] == ships[i]);
            }
        }
        if sunken_in(ships) == ships.len() {
            assert forall|i: int| 0 <= i < ships.len() implies (#[trigger] ships[i]).sunken by {
                if i < init.len() {
                    assert(init[i] == ships[i]);
                }
            }
        }
    }
}

/// The game on a board is over exactly when the number of sunken ships equals
/// the number of ships; with a full fleet, that is when all ten are sunken, and
/// never with fewer.
pub proof fn law_game_over_iff_all_sunk(b: BoardView)
    ensures
        b.all_sunken() <==> b.sunken_count() == b.ships.len(),
        b.ships.len() == FLEET_LEN ==> (b.all_sunken() <==> b.sunken_count() == FLEET_LEN),
        b.sunken_count() < b.ships.len() ==> !b.all_sunken(),
{
    lemma_all_sunken_count(b.ships);
}

} // verus!
