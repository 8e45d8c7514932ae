//! What a circuit does to the backend that it assigns its witness on.

use super::Assigned;
use vstd::prelude::*;

verus! {

/// One action of a circuit.
pub enum Action<F> {
    /// A cell of an advice column was assigned.
    Assign {
        /// The index of the column.
        column: usize,
        /// The row.
        row: usize,
        /// What was assigned.
        value: Assigned<F>,
    },
    /// The current phase was ended.
    NextPhase {
        /// The challenges that are known from then on, by their index.
        known: Map<usize, F>,
    },
}

/// The challenges that are known.
pub open spec fn known<F>(history: Seq<Action<F>>) -> Map<usize, F>
    decreases history.len(),
{
    if history.len() == 0 {
        Map::empty()
    } else {
        match history.last() {
            Action::Assign { .. } => known(history.drop_last()),
            Action::NextPhase { known } => known,
        }
    }
}

/// The number of phases that have been ended.
pub open spec fn phases_in<F>(history: Seq<Action<F>>) -> nat
    decreases history.len(),
{
    if history.len() == 0 {
        0
    } else {
        phases_in(history.drop_last()) + if history.last() is NextPhase {
            1nat
        } else {
            0nat
        }
    }
}

/// What the cells of `columns` columns of `rows` rows hold. Cells that were not
/// assigned hold zero.
pub open spec fn cells<F>(columns: nat, rows: nat, history: Seq<Action<F>>) -> Seq<
    Seq<Assigned<F>>,
>
    decreases history.len(),
{
    if history.len() == 0 {
        Seq::new(columns, |c: int| Seq::new(rows, |r: int| Assigned::<F>::Zero))
    } else {
        let before = cells(columns, rows, history.drop_last());
        match history.last() {
            Action::Assign { column, row, value } => before.update(
                column as int,
                before[column as int].update(row as int, value),
            ),
            Action::NextPhase { .. } => before,
        }
    }
}

/// What the cells held when a phase was ended.
pub open spec fn cells_at<F>(
    columns: nat,
    rows: nat,
    history: Seq<Action<F>>,
    phase: nat,
) -> Seq<Seq<Assigned<F>>>
    decreases history.len(),
{
    if history.len() == 0 {
        cells(columns, rows, history)
    } else {
        let before = history.drop_last();
        if history.last() is NextPhase && phases_in(before) == phase {
            cells(columns, rows, before)
        } else {
            cells_at(columns, rows, before, phase)
        }
    }
}

/// What the cells held when a phase was ended, or hold if it was not.
pub open spec fn cells_until<F>(
    columns: nat,
    rows: nat,
    history: Seq<Action<F>>,
    phase: nat,
) -> Seq<Seq<Assigned<F>>> {
    if phase < phases_in(history) {
        cells_at(columns, rows, history, phase)
    } else {
        cells(columns, rows, history)
    }
}

/// A phase that was ended counts from then on.
pub proof fn lemma_phases_in<F>(history: Seq<Action<F>>, k: int)
    requires
        0 <= k <= history.len(),
    ensures
        phases_in(history.take(k)) <= phases_in(history),
        k < history.len() && history[k] is NextPhase ==> phases_in(history.take(k)) < phases_in(
            history,
        ),
    decreases history.len(),
{
    if k == history.len() {
        assert(history.take(k) =~= history);
    } else {
        let before = history.drop_last();
        assert(before.take(k) =~= history.take(k));
        lemma_phases_in(before, k);
        if k == before.len() {
            assert(history.last() == history[k]);
        } else {
            assert(before[k] == history[k]);
        }
    }
}

/// An action does not change what was held in phases that were ended before.
pub proof fn lemma_cells_at<F>(columns: nat, rows: nat, history: Seq<Action<F>>, action: Action<F>)
    ensures
        phases_in(history.push(action)) == phases_in(history) + if action is NextPhase {
            1nat
        } else {
            0nat
        },
        action is NextPhase ==> cells_at(columns, rows, history.push(action), phases_in(history))
            == cells(columns, rows, history),
        forall|p: nat|
            p < phases_in(history) ==> #[trigger] cells_at(
                columns,
                rows,
                history.push(action),
                p,
            ) == cells_at(columns, rows, history, p),
{
    assert(history.push(action).drop_last() =~= history);
}

/// The action assigns this cell.
pub open spec fn assigns_cell<F>(action: Action<F>, c: int, r: int) -> bool {
    action matches Action::Assign { column, row, .. } && column == c && row == r
}

/// Every assignment is to a cell that is there.
pub open spec fn all_in_range<F>(columns: nat, rows: nat, history: Seq<Action<F>>) -> bool {
    forall|k: int|
        0 <= k < history.len() ==> ((#[trigger] history[k]) matches Action::Assign {
            column,
            row,
            ..
        } ==> column < columns && row < rows)
}

/// One more action to a cell that is there keeps all in range.
pub proof fn lemma_still_in_range<F>(
    columns: nat,
    rows: nat,
    history: Seq<Action<F>>,
    action: Action<F>,
)
    requires
        all_in_range(columns, rows, history),
        action matches Action::Assign { column, row, .. } ==> column < columns && row < rows,
    ensures
        all_in_range(columns, rows, history.push(action)),
{
    let all = history.push(action);
    assert forall|k: int| 0 <= k < all.len() implies ((#[trigger] all[k]) matches Action::Assign {
        column,
        row,
        ..
    } ==> column < columns && row < rows) by {
        if k < history.len() {
            assert(all[k] == history[k]);
        }
    }
}

/// A cell holds what was assigned to it last, and zero if nothing was.
pub proof fn lemma_last_assignment<F>(
    columns: nat,
    rows: nat,
    history: Seq<Action<F>>,
    c: int,
    r: int,
    k: int,
)
    requires
        all_in_range(columns, rows, history),
        0 <= c < columns,
        0 <= r < rows,
        -1 <= k < history.len(),
        k >= 0 ==> assigns_cell(history[k], c, r),
        forall|l: int| k < l < history.len() ==> !assigns_cell(#[trigger] history[l], c, r),
    ensures
        cells(columns, rows, history).len() == columns,
        cells(columns, rows, history)[c].len() == rows,
        cells(columns, rows, history)[c][r] == (if k >= 0 {
            history[k]->value
        } else {
            Assigned::<F>::Zero
        }),
    decreases history.len(),
{
    lemma_cells_shape(columns, rows, history);
    if history.len() > 0 {
        let init = history.drop_last();
        let last = history.len() - 1;
        assert(history.last() == history[last]);
        assert(all_in_range(columns, rows, init)) by {
            assert forall|l: int| 0 <= l < init.len() implies ((#[trigger] init[l]) matches
                Action::Assign { column, row, .. } ==> column < columns && row < rows) by {
                assert(init[l] == history[l]);
            }
        }
        lemma_cells_shape(columns, rows, init);
        if k < last {
            assert forall|l: int| k < l < init.len() implies !assigns_cell(
                #[trigger] init[l],
                c,
                r,
            ) by {
                assert(init[l] == history[l]);
            }
            if k >= 0 {
                assert(init[k] == history[k]);
            }
            lemma_last_assignment(columns, rows, init, c, r, k);
            assert(!assigns_cell(history[last], c, r));
        }
    }
}

proof fn lemma_cells_shape<F>(columns: nat, rows: nat, history: Seq<Action<F>>)
    requires
        all_in_range(columns, rows, history),
    ensures
        cells(columns, rows, history).len() == columns,
        forall|c: int|
            0 <= c < columns ==> (#[trigger] cells(columns, rows, history)[c]).len() == rows,
    decreases history.len(),
{
    if history.len() > 0 {
        let init = history.drop_last();
        assert(all_in_range(columns, rows, init)) by {
            assert forall|l: int| 0 <= l < init.len() implies ((#[trigger] init[l]) matches
                Action::Assign { column, row, .. } ==> column < columns && row < rows) by {
                assert(init[l] == history[l]);
            }
        }
        lemma_cells_shape(columns, rows, init);
        assert(history.last() == history[history.len() - 1]);
    }
}

/// What the cells held when a phase was ended is what they held after the actions
/// before its end, whatever was assigned later.
pub proof fn lemma_cells_at_end<F>(columns: nat, rows: nat, history: Seq<Action<F>>, k: int)
    requires
        0 <= k < history.len(),
        history[k] is NextPhase,
    ensures
        phases_in(history.take(k + 1)) == phases_in(history.take(k)) + 1,
        cells_at(columns, rows, history, phases_in(history.take(k))) == cells(
            columns,
            rows,
            history.take(k),
        ),
    decreases history.len(),
{
    let init = history.drop_last();
    let p = phases_in(history.take(k));
    assert(history.take(k + 1).drop_last() =~= history.take(k));
    assert(history.take(k + 1).last() == history[k]);
    if k == init.len() {
        assert(history.take(k) =~= init);
        assert(history.last() == history[k]);
    } else {
        assert(init[k] == history[k]);
        assert(init.take(k) =~= history.take(k));
        lemma_cells_at_end(columns, rows, init, k);
        lemma_phases_in(init, k);
    }
}

/// The challenges that are known are those that became known when a phase was ended
/// last, and there are none before a phase was ended.
pub proof fn lemma_known_last<F>(history: Seq<Action<F>>, k: int)
    requires
        -1 <= k < history.len(),
        k >= 0 ==> history[k] is NextPhase,
        forall|l: int| k < l < history.len() ==> !((#[trigger] history[l]) is NextPhase),
    ensures
        known(history) == (if k >= 0 {
            history[k]->known
        } else {
            Map::<usize, F>::empty()
        }),
    decreases history.len(),
{
    if history.len() > 0 {
        let init = history.drop_last();
        let last = history.len() - 1;
        assert(history.last() == history[last]);
        if k < last {
            assert(!(history[last] is NextPhase));
            assert forall|l: int| k < l < init.len() implies !((#[trigger] init[l]) is NextPhase) by {
                assert(init[l] == history[l]);
            }
            if k >= 0 {
                assert(init[k] == history[k]);
            }
            lemma_known_last(init, k);
        }
    }
}

} // verus!
