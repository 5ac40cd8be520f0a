//! What holds of the order of the catalogue: that its ranks count up from one
//! after every change, that ranking it anew leaves a catalogue in order as it
//! is, makes room for a new step, settles a moved step on its side of the
//! tie, and closes the gap that a deleted step leaves.

use vstd::prelude::*;
use crate::step::{bias, count_before, created, deleted, find_id, goes_before, is_dense,
    lemma_find_id, lemma_reranked_is_reranking, new_rank, reranked, side_of_move, updated,
    with_created, with_updated, without_id, NewStepView, StepView, TieBreak};

verus! {

/// The ranks of a catalogue whose ranks count up from one are the numbers
/// from one to the number of its steps, each of them once: every rank lies
/// in that range, and every number of that range is the rank of one step, the
/// one at that place.
pub proof fn lemma_dense_ranks_are_one_to_n(steps: Seq<StepView>)
    requires
        is_dense(steps),
    ensures
        forall|k: int| 0 <= k < steps.len() ==> 1 <= (#[trigger] steps[k]).rank <= steps.len(),
        forall|rank: int|
            1 <= rank <= steps.len() ==> (#[trigger] steps[rank - 1]).rank == rank,
        forall|j: int, k: int|
            0 <= j < steps.len() && 0 <= k < steps.len() && (#[trigger] steps[j]).rank == (
            #[trigger] steps[k]).rank ==> j == k,
{
}

/// One change to the catalogue.
pub enum Change {
    /// A new step is stored under an id.
    Create { id: i32, new_step: NewStepView },
    /// The step stored under an id is replaced.
    Update { id: i32, step: StepView },
    /// The steps stored under an id are deleted.
    Delete { id: i32 },
}

/// The catalogue after one change.
pub open spec fn after_change(steps: Seq<StepView>, change: Change) -> Seq<StepView> {
    match change {
        Change::Create { id, new_step } => created(steps, id, new_step),
        Change::Update { id, step } => updated(steps, id, step),
        Change::Delete { id } => deleted(steps, id),
    }
}

/// The catalogue after a sequence of changes, made one after the other.
pub open spec fn after_changes(steps: Seq<StepView>, changes: Seq<Change>) -> Seq<StepView>
    decreases changes.len(),
{
    if changes.len() == 0 {
        steps
    } else {
        after_change(after_changes(steps, changes.drop_last()), changes.last())
    }
}

/// A change to a catalogue whose ranks count up from one leaves a catalogue
/// whose ranks count up from one, with at most one step more.
pub proof fn lemma_change_keeps_ranks_dense(steps: Seq<StepView>, change: Change)
    requires
        is_dense(steps),
        steps.len() < i32::MAX,
    ensures
        is_dense(after_change(steps, change)),
        after_change(steps, change).len() <= steps.len() + 1,
{
    match change {
        Change::Create { id, new_step } => {
            lemma_reranked_is_reranking(
                with_created(steps, id, new_step),
                Some((id, TieBreak::Before)),
            );
        },
        Change::Update { id, step } => {
            match find_id(steps, id) {
                None => {},
                Some(a) => {
                    lemma_reranked_is_reranking(
                        with_updated(steps, id, step),
                        Some((id, side_of_move(step.rank, steps[a].rank))),
                    );
                },
            }
        },
        Change::Delete { id } => {
            steps.lemma_filter_len(|s: StepView| s.id != id);
            lemma_reranked_is_reranking(without_id(steps, id), None);
        },
    }
}

/// Whatever steps are created, replaced and deleted, and in whatever order,
/// the ranks of the catalogue count up from one after each change: they are
/// the numbers from one to the number of steps, each of them once.
///
/// Holds from a catalogue whose ranks count up from one, the empty one among
/// them, as long as the ranks fit the integers that hold them.
pub proof fn lemma_changes_keep_ranks_dense(steps: Seq<StepView>, changes: Seq<Change>)
    requires
        is_dense(steps),
        steps.len() + changes.len() <= i32::MAX,
    ensures
        is_dense(after_changes(steps, changes)),
        after_changes(steps, changes).len() <= steps.len() + changes.len(),
    decreases changes.len(),
{
    if changes.len() > 0 {
        lemma_changes_keep_ranks_dense(steps, changes.drop_last());
        lemma_change_keeps_ranks_dense(after_changes(steps, changes.drop_last()), changes.last());
    }
}

/// The number of positions from `from` up to `len` that lie below `limit`.
pub open spec fn positions_below(limit: int, from: int, len: int) -> int {
    if limit <= from {
        0
    } else if limit >= len {
        len - from
    } else {
        limit - from
    }
}

/// Counting the steps ahead of one step in a catalogue where position decides:
/// where every step but the one at `odd` comes ahead of the step at `i`
/// exactly if it stands below `limit`, the count is the number of positions
/// below `limit`, corrected for the step at `odd`.
proof fn lemma_count_by_position(
    steps: Seq<StepView>,
    priority: Option<(i32, TieBreak)>,
    i: int,
    limit: int,
    odd: int,
    from: int,
)
    requires
        0 <= from <= steps.len(),
        forall|j: int|
            from <= j < steps.len() && j != odd ==> (#[trigger] goes_before(steps, priority, j, i)
                <==> j < limit),
    ensures
        count_before(steps, priority, i, from) == positions_below(limit, from, steps.len() as int)
            - (if from <= odd < steps.len() && odd < limit {
            1int
        } else {
            0int
        }) + (if from <= odd < steps.len() && goes_before(steps, priority, odd, i) {
            1int
        } else {
            0int
        }),
    decreases steps.len() - from,
{
    if from < steps.len() {
        lemma_count_by_position(steps, priority, i, limit, odd, from + 1);
    }
}

/// Whether the ranks of a catalogue grow from each row to the next.
pub open spec fn is_ascending(steps: Seq<StepView>) -> bool {
    forall|j: int, k: int|
        0 <= j < k < steps.len() ==> (#[trigger] steps[j]).rank < (#[trigger] steps[k]).rank
}

/// A catalogue whose ranks count up from one is ascending.
pub proof fn lemma_dense_is_ascending(steps: Seq<StepView>)
    requires
        is_dense(steps),
    ensures
        is_ascending(steps),
{
}

/// In an ascending catalogue every step keeps its place, whatever the
/// tie-break: its new rank is its position, counted from one.
pub proof fn lemma_ascending_keeps_places(
    steps: Seq<StepView>,
    priority: Option<(i32, TieBreak)>,
    i: int,
)
    requires
        is_ascending(steps),
        0 <= i < steps.len(),
    ensures
        new_rank(steps, priority, i) == i + 1,
{
    assert forall|j: int| 0 <= j < steps.len() implies (#[trigger] goes_before(
        steps,
        priority,
        j,
        i,
    ) <==> j < i) by {}
    lemma_count_by_position(steps, priority, i, i, -1, 0);
}

/// Ranking anew is idempotent: a catalogue whose ranks count up from one is
/// left as it is, whatever the tie-break.
pub proof fn lemma_dense_catalogue_stays(steps: Seq<StepView>, priority: Option<(i32, TieBreak)>)
    requires
        is_dense(steps),
    ensures
        reranked(steps, priority) == steps,
{
    let after = reranked(steps, priority);
    if steps.len() > 0 {
        assert(steps[steps.len() - 1].rank == steps.len());
    }
    lemma_reranked_is_reranking(steps, priority);
    assert forall|i: int| 0 <= i < steps.len() implies after[i] == steps[i] by {
        lemma_ascending_keeps_places(steps, priority, i);
    }
}

/// The rank at which a new step that asks for `asked` comes to stand in a
/// catalogue of `len` steps: `asked`, brought into the ranks from one to one
/// past the last.
pub open spec fn rank_of_created(asked: int, len: int) -> int {
    if asked < 1 {
        1
    } else if asked > len + 1 {
        len + 1
    } else {
        asked
    }
}

/// A new step that asks for the rank of a step of the catalogue gets that
/// rank, and the step that had it, with every step behind it, moves one rank
/// back. The steps ahead stay.
///
/// Holds of a catalogue whose ranks count up from one and in which the id
/// of the new step is not taken. A rank below the first brings the new step
/// to the front, a rank past the last to the end.
pub proof fn lemma_created_step_takes_its_rank(steps: Seq<StepView>, id: i32, o: NewStepView)
    requires
        is_dense(steps),
        steps.len() < i32::MAX,
        forall|j: int| 0 <= j < steps.len() ==> (#[trigger] steps[j]).id != id,
    ensures
        created(steps, id, o).len() == steps.len() + 1,
        created(steps, id, o)[rank_of_created(o.rank as int, steps.len() as int) - 1]
            == o.trimmed().stored(id).with_rank(
            rank_of_created(o.rank as int, steps.len() as int),
        ),
        forall|i: int|
            0 <= i < steps.len() && i + 1 < rank_of_created(o.rank as int, steps.len() as int)
                ==> created(steps, id, o)[i] == #[trigger] steps[i],
        forall|i: int|
            0 <= i < steps.len() && i + 1 >= rank_of_created(o.rank as int, steps.len() as int)
                ==> created(steps, id, o)[i + 1] == (#[trigger] steps[i]).with_rank(i + 2),
{
    let n = steps.len() as int;
    let t = with_created(steps, id, o);
    let priority = Some((id, TieBreak::Before));
    let after = created(steps, id, o);
    let r = rank_of_created(o.rank as int, n);
    lemma_reranked_is_reranking(t, priority);
    // The new step: the steps of a lower rank come ahead of it.
    assert forall|j: int| 0 <= j < t.len() && j != n implies (#[trigger] goes_before(
        t,
        priority,
        j,
        n,
    ) <==> j < o.rank - 1) by {}
    lemma_count_by_position(t, priority, n, o.rank - 1, n, 0);
    assert(new_rank(t, priority, n) == r);
    // The steps that were there.
    assert forall|i: int| 0 <= i < n implies new_rank(t, priority, i) == (if i + 1 < r {
        i + 1
    } else {
        i + 2
    }) by {
        assert forall|j: int| 0 <= j < t.len() && j != n implies (#[trigger] goes_before(
            t,
            priority,
            j,
            i,
        ) <==> j < i) by {}
        lemma_count_by_position(t, priority, i, i, n, 0);
    }
    assert forall|i: int| 0 <= i < n && i + 1 < r implies after[i] == #[trigger] steps[i] by {
        assert(after[new_rank(t, priority, i) - 1] == t[i].with_rank(new_rank(t, priority, i)));
    }
    assert forall|i: int| 0 <= i < n && i + 1 >= r implies after[i + 1] == (
    #[trigger] steps[i]).with_rank(i + 2) by {
        assert(after[new_rank(t, priority, i) - 1] == t[i].with_rank(new_rank(t, priority, i)));
    }
}

/// The rank at which a step comes to stand that is moved from the rank
/// `had` to the rank `asked`, in a catalogue of `len` steps: `asked`,
/// brought into the ranks from one to the last.
pub open spec fn rank_of_moved(asked: int, had: int, len: int) -> int {
    if asked > had {
        if asked > len {
            len
        } else {
            asked
        }
    } else {
        if asked < 1 {
            1
        } else {
            asked
        }
    }
}

/// The rank of a step that stood at `rank` once another step has moved from
/// `had` to `settled`: the steps between the two ranks close up towards the
/// rank that was left, and the others stay.
pub open spec fn rank_beside_moved(rank: int, had: int, settled: int) -> int {
    if had < rank <= settled {
        rank - 1
    } else if settled <= rank < had {
        rank + 1
    } else {
        rank
    }
}

/// A step that is moved to the rank of another step gets that rank. Moved
/// to a later rank it goes behind the step that had it, which moves one rank
/// forward with the steps between; moved to an earlier rank it goes ahead of
/// the step that had it, which moves one rank back with the steps between.
///
/// Holds of a catalogue whose ranks count up from one and in which no other
/// step has the id of the moved one. `a` is the position of the moved step.
pub proof fn lemma_moved_step_settles(steps: Seq<StepView>, oid: i32, o: StepView, a: int)
    requires
        is_dense(steps),
        0 <= a < steps.len(),
        steps[a].id == oid,
        forall|j: int| 0 <= j < steps.len() && j != a ==> (#[trigger] steps[j]).id != oid,
    ensures
        updated(steps, oid, o).len() == steps.len(),
        updated(steps, oid, o)[rank_of_moved(o.rank as int, a + 1, steps.len() as int) - 1] == (
        StepView { id: oid, ..o.trimmed() }).with_rank(
            rank_of_moved(o.rank as int, a + 1, steps.len() as int),
        ),
        forall|i: int|
            0 <= i < steps.len() && i != a ==> updated(steps, oid, o)[rank_beside_moved(
                i + 1,
                a + 1,
                rank_of_moved(o.rank as int, a + 1, steps.len() as int),
            ) - 1] == (#[trigger] steps[i]).with_rank(
                rank_beside_moved(
                    i + 1,
                    a + 1,
                    rank_of_moved(o.rank as int, a + 1, steps.len() as int),
                ),
            ),
{
    let n = steps.len() as int;
    let t = with_updated(steps, oid, o);
    let side = side_of_move(o.rank, steps[a].rank);
    let priority = Some((oid, side));
    let after = updated(steps, oid, o);
    let settled = rank_of_moved(o.rank as int, a + 1, n);
    lemma_find_id(steps, oid);
    lemma_reranked_is_reranking(t, priority);
    // The moved step.
    let limit = if side == TieBreak::After {
        o.rank as int
    } else {
        o.rank - 1
    };
    assert forall|j: int| 0 <= j < n && j != a implies (#[trigger] goes_before(
        t,
        priority,
        j,
        a,
    ) <==> j < limit) by {}
    lemma_count_by_position(t, priority, a, limit, a, 0);
    assert(new_rank(t, priority, a) == settled);
    // The steps beside it.
    assert forall|i: int| 0 <= i < n && i != a implies after[rank_beside_moved(
        i + 1,
        a + 1,
        settled,
    ) - 1] == (#[trigger] steps[i]).with_rank(rank_beside_moved(i + 1, a + 1, settled)) by {
        assert forall|j: int| 0 <= j < n && j != a implies (#[trigger] goes_before(
            t,
            priority,
            j,
            i,
        ) <==> j < i) by {}
        lemma_count_by_position(t, priority, i, i, a, 0);
        assert(new_rank(t, priority, i) == rank_beside_moved(i + 1, a + 1, settled));
    }
}

/// Taking steps out of an ascending catalogue leaves it ascending.
proof fn lemma_without_id_is_ascending(steps: Seq<StepView>, oid: i32)
    requires
        is_ascending(steps),
    ensures
        is_ascending(without_id(steps, oid)),
        forall|k: int|
            0 <= k < without_id(steps, oid).len() ==> steps.contains(
                #[trigger] without_id(steps, oid)[k],
            ),
    decreases steps.len(),
{
    reveal(Seq::filter);
    let kept = without_id(steps, oid);
    if steps.len() > 0 {
        let front = steps.drop_last();
        let last = steps.last();
        assert forall|j: int, k: int| 0 <= j < k < front.len() implies (#[trigger] front[j]).rank
            < (#[trigger] front[k]).rank by {}
        lemma_without_id_is_ascending(front, oid);
        let kept_front = without_id(front, oid);
        assert forall|k: int| 0 <= k < kept_front.len() implies steps.contains(
            #[trigger] kept_front[k],
        ) && kept_front[k].rank < last.rank by {
            let w = choose|w: int| 0 <= w < front.len() && front[w] == kept_front[k];
        }
        if last.id != oid {
            assert forall|k: int| 0 <= k < kept.len() implies steps.contains(#[trigger] kept[k]) by {}
            assert forall|j: int, k: int| 0 <= j < k < kept.len() implies (#[trigger] kept[j]).rank
                < (#[trigger] kept[k]).rank by {}
        }
    }
}

/// Deleting steps from a catalogue whose ranks count up from one closes the
/// gap: the steps that are left keep their order, and their ranks count up
/// from one.
pub proof fn lemma_delete_closes_the_gap(steps: Seq<StepView>, oid: i32)
    requires
        is_dense(steps),
    ensures
        deleted(steps, oid).len() == without_id(steps, oid).len(),
        forall|i: int|
            0 <= i < deleted(steps, oid).len() ==> #[trigger] deleted(steps, oid)[i] == without_id(
                steps,
                oid,
            )[i].with_rank(i + 1),
{
    let kept = without_id(steps, oid);
    let after = deleted(steps, oid);
    if steps.len() > 0 {
        assert(steps[steps.len() - 1].rank == steps.len());
    }
    steps.lemma_filter_len(|s: StepView| s.id != oid);
    lemma_reranked_is_reranking(kept, None);
    lemma_dense_is_ascending(steps);
    lemma_without_id_is_ascending(steps, oid);
    assert forall|i: int| 0 <= i < after.len() implies #[trigger] after[i] == kept[i].with_rank(
        i + 1,
    ) by {
        lemma_ascending_keeps_places(kept, None, i);
    }
}

} // verus!
