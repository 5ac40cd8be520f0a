//! What holds of the judging of an attempt: the order of the checks, the
//! threshold of the distance, and that a player moves by one rank or not at
//! all.

use vstd::prelude::*;
use crate::errors::ServerError;
use crate::step::{find_rank, lemma_find_rank, StepView};
use crate::password::password_verifies;
use crate::user::{advanced, attempt_outcome, find_user, judged, late_outcome, lemma_find_user,
    outcome, AnswerView, MessageView, UserView, MAX_DISTANCE};

verus! {

/// A wrong password decides the outcome, whatever the other checks would
/// find: whether or not there is a step to solve, however far away the
/// attempt was made, and whether or not the answer is right.
pub proof fn lemma_password_is_judged_first(
    current: Option<StepView>,
    distance: u64,
    answer_ok: bool,
    next: Option<StepView>,
)
    ensures
        outcome(false, current, distance, answer_ok, next) == Ok::<MessageView, ServerError>(
            MessageView::WrongPassword,
        ),
{
}

/// An attempt with a password that verifies against the stored hash, as the
/// password does that the hash was made from, is never judged to have the
/// wrong password.
pub proof fn lemma_right_password_passes(user: UserView, steps: Seq<StepView>, answer: AnswerView)
    requires
        password_verifies(answer.password, user.password),
    ensures
        attempt_outcome(user, steps, answer) != Ok::<MessageView, ServerError>(
            MessageView::WrongPassword,
        ),
{
}

/// With the right password and a step to solve, an attempt from too far
/// away is in the wrong place, whether or not the answer is right and
/// whether or not a step follows.
pub proof fn lemma_place_is_judged_before_answer(
    current: StepView,
    distance: u64,
    answer_ok: bool,
    next: Option<StepView>,
)
    requires
        distance > MAX_DISTANCE,
    ensures
        outcome(true, Some(current), distance, answer_ok, next) == Ok::<MessageView, ServerError>(
            MessageView::WrongPlace { distance },
        ),
{
}

/// The threshold of the distance: with the right password and a step to
/// solve, an attempt from more than `MAX_DISTANCE` away is in the wrong
/// place, and the outcome holds the distance; an attempt from `MAX_DISTANCE`
/// or less is judged by its answer, and is never in the wrong place.
pub proof fn lemma_distance_threshold(
    current: StepView,
    distance: u64,
    answer_ok: bool,
    next: Option<StepView>,
)
    ensures
        distance > MAX_DISTANCE ==> outcome(true, Some(current), distance, answer_ok, next) == Ok::<
            MessageView,
            ServerError,
        >(MessageView::WrongPlace { distance }),
        distance <= MAX_DISTANCE ==> outcome(true, Some(current), distance, answer_ok, next)
            == late_outcome(answer_ok, next),
        distance <= MAX_DISTANCE ==> !(outcome(true, Some(current), distance, answer_ok, next)
            matches Ok(MessageView::WrongPlace { .. })),
{
}

/// An attempt that succeeds moves the player by one rank, to the step that
/// it returns, and leaves the players of other ids where they are. Any other
/// attempt leaves every player where they are.
pub proof fn lemma_progress_is_one_rank(
    users: Seq<UserView>,
    steps: Seq<StepView>,
    oid: i32,
    answer: AnswerView,
)
    ensures
        advanced(users, steps, oid, answer).len() == users.len(),
        match judged(users, steps, oid, answer) {
            Ok(MessageView::Success(next)) => {
                &&& find_user(users, oid) matches Some(u)
                &&& next.rank == users[u].current_step + 1
                &&& advanced(users, steps, oid, answer)[u] == (UserView {
                    current_step: (users[u].current_step + 1) as i32,
                    ..users[u]
                })
                &&& forall|j: int|
                    0 <= j < users.len() && users[j].id != oid ==> #[trigger] advanced(
                        users,
                        steps,
                        oid,
                        answer,
                    )[j] == users[j]
            },
            _ => advanced(users, steps, oid, answer) == users,
        },
{
    lemma_find_user(users, oid);
    match find_user(users, oid) {
        Some(u) => {
            lemma_find_rank(steps, users[u].current_step + 1);
        },
        None => {},
    }
}

/// Whether no two players have the same id.
pub open spec fn has_distinct_ids(users: Seq<UserView>) -> bool {
    forall|j: int, k: int|
        0 <= j < k < users.len() ==> (#[trigger] users[j]).id != (#[trigger] users[k]).id
}

/// One attempt: who made it, what they sent, and the catalogue at the time.
pub struct Attempt {
    pub oid: i32,
    pub answer: AnswerView,
    pub steps: Seq<StepView>,
}

/// The players after a sequence of attempts, made one after the other.
pub open spec fn after_attempts(users: Seq<UserView>, attempts: Seq<Attempt>) -> Seq<UserView>
    decreases attempts.len(),
{
    if attempts.len() == 0 {
        users
    } else {
        advanced(
            after_attempts(users, attempts.drop_last()),
            attempts.last().steps,
            attempts.last().oid,
            attempts.last().answer,
        )
    }
}

/// Whatever attempts are made, by whichever players and against whatever
/// catalogues, no player is ever moved back: the players stay who they are,
/// and the rank that each of them stands at only grows.
///
/// Holds of players of whom no two have the same id.
pub proof fn lemma_players_never_move_back(users: Seq<UserView>, attempts: Seq<Attempt>)
    requires
        has_distinct_ids(users),
    ensures
        after_attempts(users, attempts).len() == users.len(),
        forall|j: int|
            0 <= j < users.len() ==> (#[trigger] after_attempts(users, attempts)[j]).id
                == users[j].id && after_attempts(users, attempts)[j].name == users[j].name
                && after_attempts(users, attempts)[j].password == users[j].password
                && after_attempts(users, attempts)[j].current_step >= users[j].current_step,
    decreases attempts.len(),
{
    if attempts.len() > 0 {
        let earlier = after_attempts(users, attempts.drop_last());
        let last = attempts.last();
        lemma_players_never_move_back(users, attempts.drop_last());
        assert forall|j: int, k: int| 0 <= j < k < earlier.len() implies (#[trigger] earlier[j]).id
            != (#[trigger] earlier[k]).id by {}
        lemma_progress_is_one_rank(earlier, last.steps, last.oid, last.answer);
        lemma_find_user(earlier, last.oid);
    }
}

} // verus!
