//! The catalogue of steps and the order that it keeps.
//!
//! A step is one clue of the hunt. Its `rank` is its place in the hunt, and
//! after every change to the catalogue the ranks are made to count up from
//! one without a gap: the steps are put in the order of their ranks, a step
//! that was just created or moved wins or loses a tie as the change asks,
//! and the ranks are written anew.

use vstd::prelude::*;
use crate::errors::ServerError;
use crate::text::{trim, trimmed};

verus! {

/// One clue of the hunt, as it is stored. Coordinates are in ten-millionths
/// of a degree.
#[derive(Debug)]
pub struct Step {
    pub id: i32,
    pub rank: i32,
    pub latitude: i32,
    pub longitude: i32,
    pub location_hint: String,
    pub question: String,
    pub shake_message: Option<String>,
    pub answer: String,
    pub is_end: bool,
}

/// A step that is not stored yet, and so has no id.
#[derive(Debug)]
pub struct NewStep {
    pub rank: i32,
    pub latitude: i32,
    pub longitude: i32,
    pub location_hint: String,
    pub question: String,
    pub shake_message: Option<String>,
    pub answer: String,
    pub is_end: bool,
}

/// What a step holds, with its texts as sequences of characters.
pub struct StepView {
    pub id: i32,
    pub rank: i32,
    pub latitude: i32,
    pub longitude: i32,
    pub location_hint: Seq<char>,
    pub question: Seq<char>,
    pub shake_message: Option<Seq<char>>,
    pub answer: Seq<char>,
    pub is_end: bool,
}

/// What a new step holds, with its texts as sequences of characters.
pub struct NewStepView {
    pub rank: i32,
    pub latitude: i32,
    pub longitude: i32,
    pub location_hint: Seq<char>,
    pub question: Seq<char>,
    pub shake_message: Option<Seq<char>>,
    pub answer: Seq<char>,
    pub is_end: bool,
}

/// The characters of a text that may be absent.
pub open spec fn optional_text(text: Option<String>) -> Option<Seq<char>> {
    match text {
        Some(s) => Some(s@),
        None => None,
    }
}

/// A text that may be absent, trimmed where it is there.
pub open spec fn trimmed_optional(text: Option<Seq<char>>) -> Option<Seq<char>> {
    match text {
        Some(s) => Some(trimmed(s)),
        None => None,
    }
}

impl View for Step {
    type V = StepView;

    open spec fn view(&self) -> StepView {
        StepView {
            id: self.id,
            rank: self.rank,
            latitude: self.latitude,
            longitude: self.longitude,
            location_hint: self.location_hint@,
            question: self.question@,
            shake_message: optional_text(self.shake_message),
            answer: self.answer@,
            is_end: self.is_end,
        }
    }
}

impl View for NewStep {
    type V = NewStepView;

    open spec fn view(&self) -> NewStepView {
        NewStepView {
            rank: self.rank,
            latitude: self.latitude,
            longitude: self.longitude,
            location_hint: self.location_hint@,
            question: self.question@,
            shake_message: optional_text(self.shake_message),
            answer: self.answer@,
            is_end: self.is_end,
        }
    }
}

impl StepView {
    /// The step with its texts trimmed.
    pub open spec fn trimmed(self) -> StepView {
        StepView {
            location_hint: trimmed(self.location_hint),
            question: trimmed(self.question),
            shake_message: trimmed_optional(self.shake_message),
            answer: trimmed(self.answer),
            ..self
        }
    }

    /// The step at another rank.
    pub open spec fn with_rank(self, rank: int) -> StepView {
        StepView { rank: rank as i32, ..self }
    }
}

impl NewStepView {
    /// The new step with its texts trimmed.
    pub open spec fn trimmed(self) -> NewStepView {
        NewStepView {
            location_hint: trimmed(self.location_hint),
            question: trimmed(self.question),
            shake_message: trimmed_optional(self.shake_message),
            answer: trimmed(self.answer),
            ..self
        }
    }

    /// The step that the new step becomes when it is stored under `id`.
    pub open spec fn stored(self, id: i32) -> StepView {
        StepView {
            id,
            rank: self.rank,
            latitude: self.latitude,
            longitude: self.longitude,
            location_hint: self.location_hint,
            question: self.question,
            shake_message: self.shake_message,
            answer: self.answer,
            is_end: self.is_end,
        }
    }
}

/// The catalogue that a vector of steps stands for.
pub open spec fn table(steps: Seq<Step>) -> Seq<StepView> {
    steps.map_values(|s: Step| s@)
}

fn trim_optional(text: &Option<String>) -> (r: Option<String>)
    ensures
        optional_text(r) == trimmed_optional(optional_text(*text)),
{
    match text {
        Some(s) => Some(trim(s.as_str())),
        None => None,
    }
}

impl Step {
    /// Strips the whitespace around each text of the step.
    pub fn trim(&mut self)
        ensures
            final(self)@ == old(self)@.trimmed(),
    {
        self.location_hint = trim(self.location_hint.as_str());
        self.question = trim(self.question.as_str());
        self.answer = trim(self.answer.as_str());
        self.shake_message = trim_optional(&self.shake_message);
    }
}

impl NewStep {
    /// Strips the whitespace around each text of the new step.
    pub fn trim(&mut self)
        ensures
            final(self)@ == old(self)@.trimmed(),
    {
        self.location_hint = trim(self.location_hint.as_str());
        self.question = trim(self.question.as_str());
        self.answer = trim(self.answer.as_str());
        self.shake_message = trim_optional(&self.shake_message);
    }
}

impl Clone for Step {
    fn clone(&self) -> (copy: Self)
        ensures
            copy == *self,
    {
        Step {
            id: self.id,
            rank: self.rank,
            latitude: self.latitude,
            longitude: self.longitude,
            location_hint: self.location_hint.clone(),
            question: self.question.clone(),
            shake_message: self.shake_message.clone(),
            answer: self.answer.clone(),
            is_end: self.is_end,
        }
    }
}

impl Clone for NewStep {
    fn clone(&self) -> (copy: Self)
        ensures
            copy == *self,
    {
        NewStep {
            rank: self.rank,
            latitude: self.latitude,
            longitude: self.longitude,
            location_hint: self.location_hint.clone(),
            question: self.question.clone(),
            shake_message: self.shake_message.clone(),
            answer: self.answer.clone(),
            is_end: self.is_end,
        }
    }
}

/// On which side of a step of the same rank a step is put.
#[derive(Clone, Copy, Debug, PartialEq, Eq, Structural)]
pub enum TieBreak {
    /// Ahead of every other step of its rank.
    Before,
    /// Behind every other step of its rank.
    After,
}

/// Where a step stands among the steps of its rank: 0 ahead of the others,
/// 2 behind them, 1 for a step that the change is not about.
pub open spec fn bias(id: i32, priority: Option<(i32, TieBreak)>) -> int {
    match priority {
        Some((target, TieBreak::Before)) => if id == target {
            0
        } else {
            1
        },
        Some((target, TieBreak::After)) => if id == target {
            2
        } else {
            1
        },
        None => 1,
    }
}

/// Whether `a` is ordered ahead of `b` by rank, or by the tie-break where
/// the ranks are the same.
pub open spec fn key_before(a: StepView, b: StepView, priority: Option<(i32, TieBreak)>) -> bool {
    a.rank < b.rank || (a.rank == b.rank && bias(a.id, priority) < bias(b.id, priority))
}

/// Whether neither rank nor tie-break orders `a` and `b`.
pub open spec fn key_same(a: StepView, b: StepView, priority: Option<(i32, TieBreak)>) -> bool {
    a.rank == b.rank && bias(a.id, priority) == bias(b.id, priority)
}

/// Whether the step at position `j` comes ahead of the step at position `i`
/// once the catalogue is put in order: by rank, then by the tie-break, and
/// steps that neither tells apart stay in the order they were in.
pub open spec fn goes_before(
    steps: Seq<StepView>,
    priority: Option<(i32, TieBreak)>,
    j: int,
    i: int,
) -> bool {
    key_before(steps[j], steps[i], priority) || (key_same(steps[j], steps[i], priority) && j < i)
}

/// The number of steps at the positions from `from` on that come ahead of
/// the step at position `i`.
pub open spec fn count_before(
    steps: Seq<StepView>,
    priority: Option<(i32, TieBreak)>,
    i: int,
    from: int,
) -> int
    decreases steps.len() - from,
{
    if from >= steps.len() {
        0
    } else {
        (if goes_before(steps, priority, from, i) {
            1int
        } else {
            0int
        }) + count_before(steps, priority, i, from + 1)
    }
}

/// The rank that the step at position `i` gets: one more than the number of
/// steps that come ahead of it.
pub open spec fn new_rank(steps: Seq<StepView>, priority: Option<(i32, TieBreak)>, i: int) -> int {
    1 + count_before(steps, priority, i, 0)
}

/// Whether the ranks of a catalogue count up from one in the order of its
/// rows: every rank from one to the number of steps is there exactly once.
pub open spec fn is_dense(steps: Seq<StepView>) -> bool {
    forall|k: int| 0 <= k < steps.len() ==> (#[trigger] steps[k]).rank == k + 1
}

/// Whether some step of the catalogue gets the rank `rank`.
pub open spec fn is_rank_given(
    steps: Seq<StepView>,
    priority: Option<(i32, TieBreak)>,
    rank: int,
) -> bool {
    exists|i: int| 0 <= i < steps.len() && new_rank(steps, priority, i) == rank
}

/// Whether `after` is `before` put in order and ranked anew: each step of
/// `before` stands in `after` at its new rank, unchanged but for the rank,
/// every rank from one to the number of steps is given, and the ranks of
/// `after` count up from one.
pub open spec fn is_reranking(
    before: Seq<StepView>,
    priority: Option<(i32, TieBreak)>,
    after: Seq<StepView>,
) -> bool {
    &&& after.len() == before.len()
    &&& forall|i: int|
        0 <= i < before.len() ==> 1 <= #[trigger] new_rank(before, priority, i) <= before.len()
            && after[new_rank(before, priority, i) - 1] == before[i].with_rank(
            new_rank(before, priority, i),
        )
    &&& forall|rank: int|
        1 <= rank <= before.len() ==> #[trigger] is_rank_given(before, priority, rank)
    &&& is_dense(after)
}

/// The position of the step that gets the rank `rank`.
pub open spec fn source_of(
    steps: Seq<StepView>,
    priority: Option<(i32, TieBreak)>,
    rank: int,
) -> int {
    choose|i: int| 0 <= i < steps.len() && new_rank(steps, priority, i) == rank
}

/// The catalogue put in order and ranked anew: at each place stands the step
/// that gets the rank of the place, with that rank.
pub open spec fn reranked(steps: Seq<StepView>, priority: Option<(i32, TieBreak)>) -> Seq<
    StepView,
> {
    Seq::new(steps.len(), |k: int| steps[source_of(steps, priority, k + 1)].with_rank(k + 1))
}

proof fn lemma_count_below_len(
    steps: Seq<StepView>,
    priority: Option<(i32, TieBreak)>,
    i: int,
    from: int,
)
    requires
        0 <= from <= steps.len(),
        0 <= i < steps.len(),
    ensures
        count_before(steps, priority, i, from) <= steps.len() - from - (if from <= i {
            1int
        } else {
            0int
        }),
    decreases steps.len() - from,
{
    if from < steps.len() {
        lemma_count_below_len(steps, priority, i, from + 1);
    }
}

proof fn lemma_count_bounds(
    steps: Seq<StepView>,
    priority: Option<(i32, TieBreak)>,
    i: int,
    from: int,
)
    requires
        0 <= from <= steps.len(),
    ensures
        0 <= count_before(steps, priority, i, from) <= steps.len() - from,
    decreases steps.len() - from,
{
    if from < steps.len() {
        lemma_count_bounds(steps, priority, i, from + 1);
    }
}

fn bias_of(id: i32, priority: &Option<(i32, TieBreak)>) -> (b: u8)
    ensures
        b == bias(id, *priority),
{
    match priority {
        Some((target, TieBreak::Before)) => if id == *target {
            0
        } else {
            1
        },
        Some((target, TieBreak::After)) => if id == *target {
            2
        } else {
            1
        },
        None => 1,
    }
}

fn key_is_before(a: &Step, b: &Step, priority: &Option<(i32, TieBreak)>) -> (r: bool)
    ensures
        r == key_before(a@, b@, *priority),
{
    a.rank < b.rank || (a.rank == b.rank && bias_of(a.id, priority) < bias_of(b.id, priority))
}

/// Whether `order` lists the positions of the catalogue from `from` on, each
/// once, in the order in which their steps come among themselves: the step at
/// a position stands in `order` where the count of the steps ahead of it
/// says.
spec fn is_order_from(
    steps: Seq<StepView>,
    priority: Option<(i32, TieBreak)>,
    order: Seq<int>,
    from: int,
) -> bool {
    &&& 0 <= from <= steps.len()
    &&& order.len() == steps.len() - from
    &&& forall|a: int| 0 <= a < order.len() ==> from <= #[trigger] order[a] < steps.len()
    &&& forall|a: int, b: int| 0 <= a < b < order.len() ==> order[a] != order[b]
    &&& forall|x: int, a: int|
        0 <= x < steps.len() && 0 <= a < order.len() ==> (#[trigger] goes_before(
            steps,
            priority,
            order[a],
            x,
        ) <==> a < count_before(steps, priority, x, from))
    &&& forall|i: int|
        from <= i < steps.len() ==> 0 <= #[trigger] count_before(steps, priority, i, from)
            < order.len() && order[count_before(steps, priority, i, from)] == i
}

/// The place of the step at position `from - 1` among the steps behind it:
/// where the steps ahead of a place in `order` come ahead of that step, and
/// the step at the place does not, the place is the count of the steps that
/// come ahead of it.
proof fn lemma_place_is_count(
    steps: Seq<StepView>,
    priority: Option<(i32, TieBreak)>,
    order: Seq<int>,
    from: int,
    place: int,
)
    requires
        is_order_from(steps, priority, order, from),
        from > 0,
        0 <= place <= order.len(),
        forall|a: int| 0 <= a < place ==> goes_before(steps, priority, #[trigger] order[a], from - 1),
        place < order.len() ==> !goes_before(steps, priority, order[place], from - 1),
    ensures
        place == count_before(steps, priority, from - 1, from),
{
    lemma_count_bounds(steps, priority, from - 1, from);
    if place > 0 {
        assert(goes_before(steps, priority, order[place - 1], from - 1));
    }
}

/// Putting the step at position `from - 1` at its place in `order` gives the
/// order of the positions from `from - 1` on.
proof fn lemma_order_grows(
    steps: Seq<StepView>,
    priority: Option<(i32, TieBreak)>,
    order: Seq<int>,
    from: int,
)
    requires
        is_order_from(steps, priority, order, from),
        from > 0,
    ensures
        is_order_from(
            steps,
            priority,
            order.insert(count_before(steps, priority, from - 1, from), from - 1),
            from - 1,
        ),
{
    let m = from - 1;
    let p = count_before(steps, priority, m, from);
    lemma_count_bounds(steps, priority, m, from);
    let longer = order.insert(p, m);
    assert forall|a: int| 0 <= a < longer.len() implies m <= #[trigger] longer[a] < steps.len() by {
        if a < p {
            assert(longer[a] == order[a]);
        } else if a > p {
            assert(longer[a] == order[a - 1]);
        }
    }
    assert forall|a: int, b: int| 0 <= a < b < longer.len() implies longer[a] != longer[b] by {
        if a != p {
            assert(longer[a] == order[if a < p {
                a
            } else {
                a - 1
            }]);
        }
        if b != p {
            assert(longer[b] == order[if b < p {
                b
            } else {
                b - 1
            }]);
        }
    }
    assert forall|x: int, a: int| 0 <= x < steps.len() && 0 <= a < longer.len() implies (
    #[trigger] goes_before(steps, priority, longer[a], x) <==> a < count_before(
        steps,
        priority,
        x,
        m,
    )) by {
        lemma_count_bounds(steps, priority, x, from);
        let cx = count_before(steps, priority, x, from);
        if a < p {
            assert(longer[a] == order[a]);
            assert(goes_before(steps, priority, order[a], m));
            assert(goes_before(steps, priority, order[a], x) <==> a < cx);
        } else if a == p {
            assert(longer[a] == m);
            if goes_before(steps, priority, m, x) {
                if p > 0 {
                    assert(goes_before(steps, priority, order[p - 1], m));
                    assert(goes_before(steps, priority, order[p - 1], x) <==> p - 1 < cx);
                }
            } else if x != m {
                if p < cx {
                    assert(goes_before(steps, priority, order[p], x) <==> p < cx);
                    assert(goes_before(steps, priority, order[p], m) <==> p < p);
                }
            }
        } else {
            assert(longer[a] == order[a - 1]);
            assert(goes_before(steps, priority, order[a - 1], x) <==> a - 1 < cx);
            assert(goes_before(steps, priority, order[a - 1], m) <==> a - 1 < p);
        }
    }
    assert forall|i: int| m <= i < steps.len() implies 0 <= #[trigger] count_before(
        steps,
        priority,
        i,
        m,
    ) < longer.len() && longer[count_before(steps, priority, i, m)] == i by {
        let ci = count_before(steps, priority, i, from);
        if i > m {
            assert(order[ci] == i);
            if goes_before(steps, priority, m, i) {
                if p > 0 {
                    assert(goes_before(steps, priority, order[p - 1], m));
                    assert(goes_before(steps, priority, order[p - 1], i) <==> p - 1 < ci);
                }
                assert(longer[ci + 1] == order[ci]);
            } else {
                assert(goes_before(steps, priority, order[ci], m) <==> ci < p);
                assert(longer[ci] == order[ci]);
            }
        }
    }
}

/// The order of the positions from `from` on, built from the end of the
/// catalogue.
spec fn order_from(steps: Seq<StepView>, priority: Option<(i32, TieBreak)>, from: int) -> Seq<
    int,
>
    decreases steps.len() - from,
{
    if from >= steps.len() {
        Seq::empty()
    } else {
        order_from(steps, priority, from + 1).insert(
            count_before(steps, priority, from, from + 1),
            from,
        )
    }
}

proof fn lemma_order_from(steps: Seq<StepView>, priority: Option<(i32, TieBreak)>, from: int)
    requires
        0 <= from <= steps.len(),
    ensures
        is_order_from(steps, priority, order_from(steps, priority, from), from),
    decreases steps.len() - from,
{
    if from < steps.len() {
        lemma_order_from(steps, priority, from + 1);
        lemma_order_grows(steps, priority, order_from(steps, priority, from + 1), from + 1);
    }
}

/// Once `order` lists every position, it tells which step gets which rank:
/// the step that came from `order[a]` gets the rank `a + 1`, and no other
/// step does.
proof fn lemma_order_gives_ranks(
    steps: Seq<StepView>,
    priority: Option<(i32, TieBreak)>,
    order: Seq<int>,
)
    requires
        is_order_from(steps, priority, order, 0),
    ensures
        forall|i: int|
            0 <= i < steps.len() ==> 1 <= #[trigger] new_rank(steps, priority, i) <= steps.len()
                && order[new_rank(steps, priority, i) - 1] == i,
        forall|a: int|
            0 <= a < steps.len() ==> new_rank(steps, priority, #[trigger] order[a]) == a + 1,
        forall|rank: int|
            1 <= rank <= steps.len() ==> #[trigger] source_of(steps, priority, rank) == order[rank
                - 1],
{
    assert forall|i: int| 0 <= i < steps.len() implies 1 <= #[trigger] new_rank(
        steps,
        priority,
        i,
    ) <= steps.len() && order[new_rank(steps, priority, i) - 1] == i by {
        assert(order[count_before(steps, priority, i, 0)] == i);
    }
    assert forall|a: int| 0 <= a < steps.len() implies new_rank(
        steps,
        priority,
        #[trigger] order[a],
    ) == a + 1 by {
        let i = order[a];
        assert(order[new_rank(steps, priority, i) - 1] == i);
    }
    assert forall|rank: int| 1 <= rank <= steps.len() implies #[trigger] source_of(
        steps,
        priority,
        rank,
    ) == order[rank - 1] by {
        assert(new_rank(steps, priority, order[rank - 1]) == rank);
        let i = source_of(steps, priority, rank);
        assert(order[new_rank(steps, priority, i) - 1] == i);
    }
}

/// The catalogue ranked anew holds each step at its new rank, unchanged but
/// for the rank, and its ranks count up from one.
pub proof fn lemma_reranked_is_reranking(steps: Seq<StepView>, priority: Option<(i32, TieBreak)>)
    requires
        steps.len() <= i32::MAX,
    ensures
        is_reranking(steps, priority, reranked(steps, priority)),
        is_dense(reranked(steps, priority)),
{
    let order = order_from(steps, priority, 0);
    lemma_order_from(steps, priority, 0);
    lemma_order_gives_ranks(steps, priority, order);
    assert forall|rank: int| 1 <= rank <= steps.len() implies #[trigger] is_rank_given(
        steps,
        priority,
        rank,
    ) by {
        assert(new_rank(steps, priority, order[rank - 1]) == rank);
    }
    assert forall|i: int| 0 <= i < steps.len() implies reranked(steps, priority)[new_rank(
        steps,
        priority,
        i,
    ) - 1] == steps[i].with_rank(#[trigger] new_rank(steps, priority, i)) by {
        let rank = new_rank(steps, priority, i);
        assert(source_of(steps, priority, rank) == order[rank - 1]);
    }
}

/// Ranking a catalogue anew has one result only.
pub proof fn lemma_reranking_is_unique(
    before: Seq<StepView>,
    priority: Option<(i32, TieBreak)>,
    after: Seq<StepView>,
)
    requires
        is_reranking(before, priority, after),
    ensures
        after == reranked(before, priority),
{
    assert forall|k: int| 0 <= k < after.len() implies after[k] == reranked(
        before,
        priority,
    )[k] by {
        assert(is_rank_given(before, priority, k + 1));
        let i = source_of(before, priority, k + 1);
        assert(after[new_rank(before, priority, i) - 1] == before[i].with_rank(k + 1));
    }
    assert(after =~= reranked(before, priority));
}

/// Puts the catalogue in order and writes the ranks anew, from one upward.
///
/// The steps are ordered by rank. Where `priority` names a step and a side,
/// that step goes ahead of, or behind, the other steps of its rank; steps
/// that are still tied keep the order they came in.
pub fn rerank(steps: &mut Vec<Step>, priority: Option<(i32, TieBreak)>)
    requires
        old(steps).len() <= i32::MAX,
    ensures
        table(final(steps)@) == reranked(table(old(steps)@), priority),
        is_dense(table(final(steps)@)),
        final(steps).len() == old(steps).len(),
{
    let ghost orig = steps@;
    let ghost before = table(orig);
    // The steps are taken from the end of the catalogue and put in order one
    // by one; `order` holds the positions that they came from.
    let mut sorted: Vec<Step> = Vec::new();
    let ghost mut order: Seq<int> = Seq::empty();
    while steps.len() > 0
        invariant
            before == table(orig),
            steps@ == orig.take(steps.len() as int),
            sorted.len() == order.len(),
            is_order_from(before, priority, order, steps.len() as int),
            forall|a: int| 0 <= a < order.len() ==> #[trigger] sorted@[a] == orig[order[a]],
        decreases steps.len(),
    {
        let ghost from = steps.len() as int;
        let step = steps.pop().unwrap();
        assert(before[from - 1] == step@);
        let mut place: usize = 0;
        while place < sorted.len() && key_is_before(&sorted[place], &step, &priority)
            invariant
                place <= sorted.len(),
                forall|a: int| 0 <= a < place ==> key_before(#[trigger] sorted@[a]@, step@, priority),
            decreases sorted.len() - place,
        {
            place += 1;
        }
        proof {
            assert forall|a: int| 0 <= a < place implies goes_before(
                before,
                priority,
                #[trigger] order[a],
                from - 1,
            ) by {
                assert(before[order[a]] == sorted@[a]@);
            }
            if place < order.len() {
                assert(before[order[place as int]] == sorted@[place as int]@);
            }
            lemma_place_is_count(before, priority, order, from, place as int);
            lemma_order_grows(before, priority, order, from);
            order = order.insert(place as int, from - 1);
        }
        sorted.insert(place, step);
    }
    let mut k: usize = 0;
    while k < sorted.len()
        invariant
            k <= sorted.len(),
            sorted.len() == order.len() == orig.len(),
            orig.len() <= i32::MAX,
            forall|a: int| 0 <= a < order.len() ==> 0 <= #[trigger] order[a] < orig.len(),
            forall|a: int|
                0 <= a < k ==> (#[trigger] sorted@[a])@ == orig[order[a]]@.with_rank(a + 1),
            forall|a: int| k <= a < sorted.len() ==> #[trigger] sorted@[a] == orig[order[a]],
        decreases sorted.len() - k,
    {
        sorted[k].rank = (k + 1) as i32;
        k += 1;
    }
    proof {
        let after = table(sorted@);
        lemma_order_gives_ranks(before, priority, order);
        assert forall|a: int| 0 <= a < after.len() implies after[a] == reranked(
            before,
            priority,
        )[a] by {
            assert(after[a] == sorted@[a]@);
            assert(source_of(before, priority, a + 1) == order[a]);
        }
        assert(after =~= reranked(before, priority));
    }
    *steps = sorted;
}

/// The catalogue with a new step stored under `id`, its texts trimmed.
pub open spec fn with_created(steps: Seq<StepView>, id: i32, o: NewStepView) -> Seq<StepView> {
    steps.push(o.trimmed().stored(id))
}

/// The catalogue with every step stored under `oid` replaced by `o`, its
/// texts trimmed. The id stays.
pub open spec fn with_updated(steps: Seq<StepView>, oid: i32, o: StepView) -> Seq<StepView> {
    steps.map_values(
        |s: StepView|
            if s.id == oid {
                StepView { id: oid, ..o.trimmed() }
            } else {
                s
            },
    )
}

/// The catalogue without the steps stored under `oid`.
pub open spec fn without_id(steps: Seq<StepView>, oid: i32) -> Seq<StepView> {
    steps.filter(|s: StepView| s.id != oid)
}

/// The catalogue after a new step is stored under `id`: the new step goes
/// ahead of a step that has the rank it asks for.
pub open spec fn created(steps: Seq<StepView>, id: i32, o: NewStepView) -> Seq<StepView> {
    reranked(with_created(steps, id, o), Some((id, TieBreak::Before)))
}

/// The catalogue after the steps stored under `oid` are deleted.
pub open spec fn deleted(steps: Seq<StepView>, oid: i32) -> Seq<StepView> {
    reranked(without_id(steps, oid), None)
}

/// The first position at which a step is stored under `id`.
pub open spec fn find_id(steps: Seq<StepView>, id: i32) -> Option<int>
    decreases steps.len(),
{
    if steps.len() == 0 {
        None
    } else {
        match find_id(steps.drop_last(), id) {
            Some(i) => Some(i),
            None => if steps.last().id == id {
                Some(steps.len() - 1)
            } else {
                None
            },
        }
    }
}

/// `find_id` gives the least position with the id, and none where no step
/// has it.
pub proof fn lemma_find_id(steps: Seq<StepView>, id: i32)
    ensures
        match find_id(steps, id) {
            Some(i) => 0 <= i < steps.len() && steps[i].id == id && forall|j: int|
                0 <= j < i ==> (#[trigger] steps[j]).id != id,
            None => forall|j: int| 0 <= j < steps.len() ==> (#[trigger] steps[j]).id != id,
        },
    decreases steps.len(),
{
    if steps.len() > 0 {
        let front = steps.drop_last();
        lemma_find_id(front, id);
        assert forall|j: int| 0 <= j < front.len() implies front[j] == steps[j] by {}
        match find_id(front, id) {
            Some(i) => {
                assert forall|j: int| 0 <= j < i implies (#[trigger] steps[j]).id != id by {
                    assert(front[j] == steps[j]);
                }
            },
            None => {
                assert forall|j: int| 0 <= j < steps.len() - 1 implies (#[trigger] steps[j]).id
                    != id by {
                    assert(front[j] == steps[j]);
                }
            },
        }
    }
}

/// The side that a step takes in a tie when its rank is changed: behind the
/// others where it moves to a later rank, ahead of them otherwise.
pub open spec fn side_of_move(requested: i32, initial: i32) -> TieBreak {
    if requested > initial {
        TieBreak::After
    } else {
        TieBreak::Before
    }
}

/// The catalogue after the step stored under `oid` is replaced by `o`: as it
/// was where no step is stored under `oid`, and otherwise with the step on
/// the side of a tie that the change of its rank asks for.
pub open spec fn updated(steps: Seq<StepView>, oid: i32, o: StepView) -> Seq<StepView> {
    match find_id(steps, oid) {
        None => steps,
        Some(a) => reranked(
            with_updated(steps, oid, o),
            Some((oid, side_of_move(o.rank, steps[a].rank))),
        ),
    }
}

/// The first position in `steps` at which a step is stored under `id`.
pub fn position_of(steps: &Vec<Step>, id: i32) -> (found: Option<usize>)
    ensures
        match found {
            Some(i) => i < steps.len() && find_id(table(steps@), id) == Some(i as int),
            None => find_id(table(steps@), id) is None,
        },
{
    let ghost t = table(steps@);
    let mut i: usize = 0;
    while i < steps.len()
        invariant
            i <= steps.len(),
            t == table(steps@),
            forall|j: int| 0 <= j < i ==> (#[trigger] t[j]).id != id,
        decreases steps.len() - i,
    {
        if steps[i].id == id {
            proof {
                lemma_find_id(t, id);
                assert(t[i as int].id == id);
            }
            return Some(i);
        }
        i += 1;
    }
    proof {
        lemma_find_id(t, id);
    }
    None
}

/// The rank that the step at position `i` gets when `steps` is ranked anew.
pub fn rank_after(steps: &Vec<Step>, priority: &Option<(i32, TieBreak)>, i: usize) -> (rank:
    usize)
    requires
        i < steps.len(),
    ensures
        rank == new_rank(table(steps@), *priority, i as int),
        1 <= rank <= steps.len(),
{
    let ghost t = table(steps@);
    let mut ahead: usize = 0;
    let mut j: usize = steps.len();
    while j > 0
        invariant
            j <= steps.len(),
            i < steps.len(),
            t == table(steps@),
            ahead == count_before(t, *priority, i as int, j as int),
            ahead <= steps.len() - j,
        decreases j,
    {
        j -= 1;
        let before = key_is_before(&steps[j], &steps[i], priority);
        let same = steps[j].rank == steps[i].rank && bias_of(steps[j].id, priority) == bias_of(
            steps[i].id,
            priority,
        );
        if before || (same && j < i) {
            ahead += 1;
        }
    }
    proof {
        lemma_count_bounds(t, *priority, i as int, 0);
        // The step itself does not come ahead of itself.
        lemma_count_below_len(t, *priority, i as int, 0);
    }
    ahead + 1
}

/// Stores a new step under `id` and ranks the catalogue anew. Where the new
/// step asks for a rank that is taken, it goes ahead of the step that has it.
/// Returns the step as it is stored.
pub fn create(steps: &mut Vec<Step>, id: i32, o: NewStep) -> (stored: Step)
    requires
        old(steps).len() < i32::MAX,
    ensures
        table(final(steps)@) == created(table(old(steps)@), id, o@),
        is_dense(table(final(steps)@)),
        final(steps).len() == old(steps).len() + 1,
        stored@ == o@.trimmed().stored(id).with_rank(
            new_rank(
                with_created(table(old(steps)@), id, o@),
                Some((id, TieBreak::Before)),
                old(steps).len() as int,
            ),
        ),
{
    let ghost given = o@;
    let mut o = o;
    o.trim();
    let step = Step {
        id,
        rank: o.rank,
        latitude: o.latitude,
        longitude: o.longitude,
        location_hint: o.location_hint,
        question: o.question,
        shake_message: o.shake_message,
        answer: o.answer,
        is_end: o.is_end,
    };
    let last = steps.len();
    proof {
        assert(table(steps@.push(step)) =~= with_created(table(steps@), id, given));
    }
    steps.push(step);
    let priority = Some((id, TieBreak::Before));
    let rank = rank_after(steps, &priority, last);
    proof {
        lemma_reranked_is_reranking(table(steps@), priority);
    }
    rerank(steps, priority);
    steps[rank - 1].clone()
}

/// Decides the side of a tie for a step whose rank is changed from `initial`
/// to `requested`.
pub fn tie_break_of_move(requested: i32, initial: i32) -> (side: TieBreak)
    ensures
        side == side_of_move(requested, initial),
{
    if requested > initial {
        TieBreak::After
    } else {
        TieBreak::Before
    }
}

/// Replaces the step stored under `oid` by `o`, whose own id is not looked
/// at, and ranks the catalogue anew. A step that asks for a later rank than
/// it had goes behind the step that has it, any other goes ahead of it.
/// Returns the step as it is stored, or `NotFound` where no step is stored
/// under `oid`; the catalogue is then left as it was.
pub fn update(steps: &mut Vec<Step>, oid: i32, o: Step) -> (r: Result<Step, ServerError>)
    requires
        old(steps).len() <= i32::MAX,
    ensures
        table(final(steps)@) == updated(table(old(steps)@), oid, o@),
        final(steps).len() == old(steps).len(),
        match find_id(table(old(steps)@), oid) {
            None => r matches Err(e) && e == ServerError::NotFound && final(steps)@ == old(steps)@,
            Some(a) => {
                let changed = with_updated(table(old(steps)@), oid, o@);
                let priority = Some((oid, side_of_move(o.rank, table(old(steps)@)[a].rank)));
                &&& is_dense(table(final(steps)@))
                &&& r matches Ok(stored) && stored@ == changed[a].with_rank(
                    new_rank(changed, priority, a),
                )
            },
        },
{
    let ghost given = o@;
    let ghost orig = steps@;
    let mut o = o;
    o.trim();
    let a = match position_of(steps, oid) {
        None => {
            return Err(ServerError::NotFound);
        },
        Some(a) => a,
    };
    proof {
        lemma_find_id(table(orig), oid);
    }
    let side = tie_break_of_move(o.rank, steps[a].rank);
    let mut i: usize = 0;
    while i < steps.len()
        invariant
            i <= steps.len(),
            steps.len() == orig.len(),
            o@ == given.trimmed(),
            forall|j: int|
                0 <= j < i ==> (#[trigger] steps@[j])@ == if orig[j].id == oid {
                    StepView { id: oid, ..given.trimmed() }
                } else {
                    orig[j]@
                },
            forall|j: int| i <= j < steps.len() ==> #[trigger] steps@[j] == orig[j],
        decreases steps.len() - i,
    {
        if steps[i].id == oid {
            let mut row = o.clone();
            row.id = oid;
            steps[i] = row;
        }
        i += 1;
    }
    proof {
        assert(table(steps@) =~= with_updated(table(orig), oid, given));
    }
    let priority = Some((oid, side));
    let rank = rank_after(steps, &priority, a);
    proof {
        lemma_reranked_is_reranking(table(steps@), priority);
    }
    rerank(steps, priority);
    Ok(steps[rank - 1].clone())
}

/// Taking the steps of an id out of a catalogue, step by step.
proof fn lemma_without_id_push(steps: Seq<StepView>, last: StepView, oid: i32)
    ensures
        without_id(steps.push(last), oid) == if last.id != oid {
            without_id(steps, oid).push(last)
        } else {
            without_id(steps, oid)
        },
{
    steps.lemma_filter_push(last, |s: StepView| s.id != oid);
}

/// Removes the steps stored under `oid` and ranks the catalogue anew, which
/// closes the gap. Returns how many steps were removed, or `NotFound` where
/// there was none; the catalogue is ranked anew in either case.
pub fn delete(steps: &mut Vec<Step>, oid: i32) -> (r: Result<usize, ServerError>)
    requires
        old(steps).len() <= i32::MAX,
    ensures
        table(final(steps)@) == deleted(table(old(steps)@), oid),
        is_dense(table(final(steps)@)),
        final(steps).len() == without_id(table(old(steps)@), oid).len(),
        r == if final(steps).len() == old(steps).len() {
            Err::<usize, ServerError>(ServerError::NotFound)
        } else {
            Ok::<usize, ServerError>((old(steps).len() - final(steps).len()) as usize)
        },
{
    let ghost orig = steps@;
    let mut kept: Vec<Step> = Vec::new();
    let mut i: usize = 0;
    proof {
        reveal(Seq::filter);
        assert(table(orig.take(0)) =~= Seq::<StepView>::empty());
    }
    while i < steps.len()
        invariant
            i <= steps.len(),
            steps@ == orig,
            kept.len() <= i,
            table(kept@) == without_id(table(orig.take(i as int)), oid),
        decreases steps.len() - i,
    {
        proof {
            lemma_without_id_push(table(orig.take(i as int)), orig[i as int]@, oid);
            assert(table(orig.take(i + 1)) =~= table(orig.take(i as int)).push(orig[i as int]@));
        }
        if steps[i].id != oid {
            let copy = steps[i].clone();
            proof {
                assert(table(kept@.push(copy)) =~= table(kept@).push(copy@));
            }
            kept.push(copy);
        }
        i += 1;
    }
    proof {
        assert(orig.take(orig.len() as int) =~= orig);
    }
    let deleted = steps.len() - kept.len();
    assert(kept.len() == table(kept@).len());
    rerank(&mut kept, None);
    *steps = kept;
    if deleted == 0 {
        Err(ServerError::NotFound)
    } else {
        Ok(deleted)
    }
}

/// The first position at which a step has the rank `rank`.
pub open spec fn find_rank(steps: Seq<StepView>, rank: int) -> Option<int>
    decreases steps.len(),
{
    if steps.len() == 0 {
        None
    } else {
        match find_rank(steps.drop_last(), rank) {
            Some(i) => Some(i),
            None => if steps.last().rank == rank {
                Some(steps.len() - 1)
            } else {
                None
            },
        }
    }
}

/// `find_rank` gives the least position with the rank, and none where no
/// step has it.
pub proof fn lemma_find_rank(steps: Seq<StepView>, rank: int)
    ensures
        match find_rank(steps, rank) {
            Some(i) => 0 <= i < steps.len() && steps[i].rank == rank && forall|j: int|
                0 <= j < i ==> (#[trigger] steps[j]).rank != rank,
            None => forall|j: int| 0 <= j < steps.len() ==> (#[trigger] steps[j]).rank != rank,
        },
    decreases steps.len(),
{
    if steps.len() > 0 {
        let front = steps.drop_last();
        lemma_find_rank(front, rank);
        match find_rank(front, rank) {
            Some(i) => {
                assert forall|j: int| 0 <= j < i implies (#[trigger] steps[j]).rank != rank by {
                    assert(front[j] == steps[j]);
                }
            },
            None => {
                assert forall|j: int| 0 <= j < steps.len() - 1 implies (#[trigger] steps[j]).rank
                    != rank by {
                    assert(front[j] == steps[j]);
                }
            },
        }
    }
}

/// The first position in `steps` at which a step has the rank `rank`.
pub fn position_of_rank(steps: &Vec<Step>, rank: i32) -> (found: Option<usize>)
    ensures
        match found {
            Some(i) => i < steps.len() && find_rank(table(steps@), rank as int) == Some(i as int),
            None => find_rank(table(steps@), rank as int) is None,
        },
{
    let ghost t = table(steps@);
    let mut i: usize = 0;
    while i < steps.len()
        invariant
            i <= steps.len(),
            t == table(steps@),
            forall|j: int| 0 <= j < i ==> (#[trigger] t[j]).rank != rank,
        decreases steps.len() - i,
    {
        if steps[i].rank == rank {
            proof {
                lemma_find_rank(t, rank as int);
                assert(t[i as int].rank == rank);
            }
            return Some(i);
        }
        i += 1;
    }
    proof {
        lemma_find_rank(t, rank as int);
    }
    None
}

} // verus!
