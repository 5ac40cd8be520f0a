//! The players and their progression through the hunt.
//!
//! A player stands at one step, named by its rank. An attempt to advance is
//! judged in a fixed order: the password, the step that the player stands
//! at, the distance to it, the answer, and the step that follows. The first
//! check that fails decides the outcome, and only an attempt that passes them
//! all moves the player, by one rank.
//!
//! An attempt holds the distance between the place where it was made and
//! the step that the player stands at, in millimetres, as whoever took the
//! attempt measured it.

use vstd::prelude::*;
use crate::errors::ServerError;
use crate::matcher::{answers_match, is_right_answer};
use crate::password::{hash, password_verifies, verify};
use crate::step::{find_rank, lemma_find_rank, position_of_rank, table, Step, StepView};
use crate::text::{trim, trimmed};

verus! {

/// The rank of the step that a new player stands at.
pub const FIRST_STEP: i32 = 1;

/// The greatest distance from a step, in millimetres, at which an answer to
/// it is heard: fifty metres.
pub const MAX_DISTANCE: u64 = 50_000;

/// A player, as stored. `password` holds the hash of the password, and
/// `current_step` the rank of the step that the player is to solve.
#[derive(Debug)]
pub struct User {
    pub id: i32,
    pub name: String,
    pub password: String,
    pub current_step: i32,
}

/// A player who is not stored yet. `password` holds the password itself
/// until `trim` puts its hash there.
#[derive(Debug)]
pub struct NewUser {
    pub name: String,
    pub password: String,
}

/// An attempt to advance: the password of the player, the distance in
/// millimetres between the place of the attempt and the step that the player
/// stands at, and the answer to the question of that step.
#[derive(Default, Debug, PartialEq)]
pub struct Answer {
    pub password: String,
    pub distance: u64,
    pub answer: String,
}

/// How an attempt to advance was judged.
#[derive(Debug)]
pub enum Message {
    /// The password is not the player's.
    WrongPassword,
    /// The attempt was made too far from the step, at this distance in
    /// millimetres.
    WrongPlace { distance: u64 },
    /// The answer is not the one that the step asks for.
    WrongAnswer,
    /// The player has advanced to this step.
    Success(Step),
}

/// What a player holds, with the texts as sequences of characters.
pub struct UserView {
    pub id: i32,
    pub name: Seq<char>,
    pub password: Seq<char>,
    pub current_step: i32,
}

/// What a new player holds, with the texts as sequences of characters.
pub struct NewUserView {
    pub name: Seq<char>,
    pub password: Seq<char>,
}

/// What an attempt holds, with the texts as sequences of characters.
pub struct AnswerView {
    pub password: Seq<char>,
    pub distance: u64,
    pub answer: Seq<char>,
}

/// How an attempt was judged, with the step as its view.
pub enum MessageView {
    WrongPassword,
    WrongPlace { distance: u64 },
    WrongAnswer,
    Success(StepView),
}

impl View for User {
    type V = UserView;

    open spec fn view(&self) -> UserView {
        UserView {
            id: self.id,
            name: self.name@,
            password: self.password@,
            current_step: self.current_step,
        }
    }
}

impl View for NewUser {
    type V = NewUserView;

    open spec fn view(&self) -> NewUserView {
        NewUserView { name: self.name@, password: self.password@ }
    }
}

impl View for Answer {
    type V = AnswerView;

    open spec fn view(&self) -> AnswerView {
        AnswerView { password: self.password@, distance: self.distance, answer: self.answer@ }
    }
}

impl View for Message {
    type V = MessageView;

    open spec fn view(&self) -> MessageView {
        match self {
            Message::WrongPassword => MessageView::WrongPassword,
            Message::WrongPlace { distance } => MessageView::WrongPlace { distance: *distance },
            Message::WrongAnswer => MessageView::WrongAnswer,
            Message::Success(step) => MessageView::Success(step@),
        }
    }
}

impl Clone for User {
    fn clone(&self) -> (copy: Self)
        ensures
            copy == *self,
    {
        User {
            id: self.id,
            name: self.name.clone(),
            password: self.password.clone(),
            current_step: self.current_step,
        }
    }
}

impl Clone for NewUser {
    fn clone(&self) -> (copy: Self)
        ensures
            copy == *self,
    {
        NewUser { name: self.name.clone(), password: self.password.clone() }
    }
}

impl Clone for Answer {
    fn clone(&self) -> (copy: Self)
        ensures
            copy == *self,
    {
        Answer {
            password: self.password.clone(),
            distance: self.distance,
            answer: self.answer.clone(),
        }
    }
}

/// The players that a vector of users stands for.
pub open spec fn roster(users: Seq<User>) -> Seq<UserView> {
    users.map_values(|u: User| u@)
}

/// The first position at which a player is stored under `id`.
pub open spec fn find_user(users: Seq<UserView>, id: i32) -> Option<int>
    decreases users.len(),
{
    if users.len() == 0 {
        None
    } else {
        match find_user(users.drop_last(), id) {
            Some(i) => Some(i),
            None => if users.last().id == id {
                Some(users.len() - 1)
            } else {
                None
            },
        }
    }
}

/// `find_user` gives the least position with the id, and none where no
/// player has it.
pub proof fn lemma_find_user(users: Seq<UserView>, id: i32)
    ensures
        match find_user(users, id) {
            Some(i) => 0 <= i < users.len() && users[i].id == id && forall|j: int|
                0 <= j < i ==> (#[trigger] users[j]).id != id,
            None => forall|j: int| 0 <= j < users.len() ==> (#[trigger] users[j]).id != id,
        },
    decreases users.len(),
{
    if users.len() > 0 {
        let front = users.drop_last();
        lemma_find_user(front, id);
        match find_user(front, id) {
            Some(i) => {
                assert forall|j: int| 0 <= j < i implies (#[trigger] users[j]).id != id by {
                    assert(front[j] == users[j]);
                }
            },
            None => {
                assert forall|j: int| 0 <= j < users.len() - 1 implies (#[trigger] users[j]).id
                    != id by {
                    assert(front[j] == users[j]);
                }
            },
        }
    }
}

/// The first position in `users` at which a player is stored under `id`.
pub fn position_of_user(users: &Vec<User>, id: i32) -> (found: Option<usize>)
    ensures
        match found {
            Some(i) => i < users.len() && find_user(roster(users@), id) == Some(i as int),
            None => find_user(roster(users@), id) is None,
        },
{
    let ghost all = roster(users@);
    let mut i: usize = 0;
    while i < users.len()
        invariant
            i <= users.len(),
            all == roster(users@),
            forall|j: int| 0 <= j < i ==> (#[trigger] all[j]).id != id,
        decreases users.len() - i,
    {
        if users[i].id == id {
            proof {
                lemma_find_user(all, id);
                assert(all[i as int].id == id);
            }
            return Some(i);
        }
        i += 1;
    }
    proof {
        lemma_find_user(all, id);
    }
    None
}

/// The step that a player stands at: the first step whose rank is the
/// player's `current_step`.
pub open spec fn step_of(users: Seq<UserView>, steps: Seq<StepView>, oid: i32) -> Result<
    StepView,
    ServerError,
> {
    match find_user(users, oid) {
        None => Err(ServerError::NotFound),
        Some(u) => match find_rank(steps, users[u].current_step as int) {
            None => Err(ServerError::NotFound),
            Some(c) => Ok(steps[c]),
        },
    }
}

/// Looks up the step that the player stored under `oid` stands at. No
/// password is asked for. `NotFound` where there is no such player, or no
/// step at the player's rank, as when the hunt is finished.
pub fn current_step(users: &Vec<User>, steps: &Vec<Step>, oid: i32) -> (r: Result<
    Step,
    ServerError,
>)
    ensures
        match step_of(roster(users@), table(steps@), oid) {
            Ok(step) => r matches Ok(found) && found@ == step,
            Err(e) => r matches Err(reason) && reason == e,
        },
{
    let u = match position_of_user(users, oid) {
        None => {
            return Err(ServerError::NotFound);
        },
        Some(u) => u,
    };
    match position_of_rank(steps, users[u].current_step) {
        None => Err(ServerError::NotFound),
        Some(c) => Ok(steps[c].clone()),
    }
}

/// The step of a catalogue at a position that a search gave, if it gave one.
pub open spec fn step_at(steps: Seq<StepView>, position: Option<int>) -> Option<StepView> {
    match position {
        Some(i) => Some(steps[i]),
        None => None,
    }
}

/// What the checks that come before the answer make of an attempt: wrong
/// password, then no step to solve, then too far away. `None` where the
/// attempt passes them all.
pub open spec fn early_outcome(password_ok: bool, current: Option<StepView>, distance: u64)
    -> Option<Result<MessageView, ServerError>> {
    if !password_ok {
        Some(Ok(MessageView::WrongPassword))
    } else if current is None {
        Some(Err(ServerError::NotFound))
    } else if distance > MAX_DISTANCE {
        Some(Ok(MessageView::WrongPlace { distance }))
    } else {
        None
    }
}

/// What the answer and the step that follows make of an attempt that has
/// passed the earlier checks.
pub open spec fn late_outcome(answer_ok: bool, next: Option<StepView>) -> Result<
    MessageView,
    ServerError,
> {
    if !answer_ok {
        Ok(MessageView::WrongAnswer)
    } else {
        match next {
            None => Err(ServerError::NotFound),
            Some(step) => Ok(MessageView::Success(step)),
        }
    }
}

/// How an attempt is judged, from what each check found.
pub open spec fn outcome(
    password_ok: bool,
    current: Option<StepView>,
    distance: u64,
    answer_ok: bool,
    next: Option<StepView>,
) -> Result<MessageView, ServerError> {
    match early_outcome(password_ok, current, distance) {
        Some(decided) => decided,
        None => late_outcome(answer_ok, next),
    }
}

/// How the attempt `answer` of the player `user` is judged against the
/// catalogue `steps`.
pub open spec fn attempt_outcome(user: UserView, steps: Seq<StepView>, answer: AnswerView)
    -> Result<MessageView, ServerError> {
    let current = step_at(steps, find_rank(steps, user.current_step as int));
    outcome(
        password_verifies(answer.password, user.password),
        current,
        answer.distance,
        current matches Some(step) && is_right_answer(answer.answer, step.answer),
        step_at(steps, find_rank(steps, user.current_step + 1)),
    )
}

/// The players with every player stored under `oid` moved to the rank `rank`.
pub open spec fn moved_to(users: Seq<UserView>, oid: i32, rank: i32) -> Seq<UserView> {
    users.map_values(
        |u: UserView|
            if u.id == oid {
                UserView { current_step: rank, ..u }
            } else {
                u
            },
    )
}

/// The players after an attempt of the player stored under `oid` that was
/// judged as `judged`: moved where it succeeded, and as they were otherwise.
pub open spec fn after_attempt(
    users: Seq<UserView>,
    oid: i32,
    judged: Result<MessageView, ServerError>,
) -> Seq<UserView> {
    match judged {
        Ok(MessageView::Success(next)) => moved_to(users, oid, next.rank),
        _ => users,
    }
}

/// How the attempt `answer` of the player stored under `oid` is judged:
/// `NotFound` where there is no such player.
pub open spec fn judged(users: Seq<UserView>, steps: Seq<StepView>, oid: i32, answer: AnswerView)
    -> Result<MessageView, ServerError> {
    match find_user(users, oid) {
        None => Err(ServerError::NotFound),
        Some(u) => attempt_outcome(users[u], steps, answer),
    }
}

/// The players after the attempt `answer` of the player stored under `oid`.
pub open spec fn advanced(
    users: Seq<UserView>,
    steps: Seq<StepView>,
    oid: i32,
    answer: AnswerView,
) -> Seq<UserView> {
    after_attempt(users, oid, judged(users, steps, oid, answer))
}

/// Judges an attempt by the checks that come before the answer: whether the
/// password was right, the step that the player stands at, if there is one,
/// and the distance to it. `None` where the attempt passes them all.
pub fn check_place(password_ok: bool, current: Option<&Step>, distance: u64) -> (r: Option<
    Result<Message, ServerError>,
>)
    ensures
        match early_outcome(
            password_ok,
            match current {
                Some(step) => Some(step@),
                None => None,
            },
            distance,
        ) {
            None => r is None,
            Some(Ok(m)) => r matches Some(Ok(got)) && got@ == m,
            Some(Err(e)) => r matches Some(Err(got)) && got == e,
        },
{
    if !password_ok {
        return Some(Ok(Message::WrongPassword));
    }
    if current.is_none() {
        return Some(Err(ServerError::NotFound));
    }
    if distance > MAX_DISTANCE {
        return Some(Ok(Message::WrongPlace { distance }));
    }
    None
}

/// Judges an attempt that has passed the earlier checks: by whether the
/// answer was right and by the step that follows, if there is one.
pub fn check_answer(answer_ok: bool, next: Option<&Step>) -> (r: Result<Message, ServerError>)
    ensures
        match late_outcome(
            answer_ok,
            match next {
                Some(step) => Some(step@),
                None => None,
            },
        ) {
            Ok(m) => r matches Ok(got) && got@ == m,
            Err(e) => r matches Err(got) && got == e,
        },
{
    if !answer_ok {
        return Ok(Message::WrongAnswer);
    }
    match next {
        None => Err(ServerError::NotFound),
        Some(step) => Ok(Message::Success(step.clone())),
    }
}

fn step_ref(steps: &Vec<Step>, position: Option<usize>) -> (step: Option<&Step>)
    requires
        position matches Some(i) ==> i < steps.len(),
    ensures
        match position {
            Some(i) => step == Some(&steps@[i as int]),
            None => step is None,
        },
{
    match position {
        Some(i) => Some(&steps[i]),
        None => None,
    }
}

/// Moves every player stored under `oid` to the rank `rank`.
fn move_to(users: &mut Vec<User>, oid: i32, rank: i32)
    ensures
        roster(final(users)@) == moved_to(roster(old(users)@), oid, rank),
{
    let ghost before = users@;
    let mut i: usize = 0;
    while i < users.len()
        invariant
            i <= users.len(),
            users.len() == before.len(),
            forall|j: int|
                0 <= j < i ==> (#[trigger] users@[j])@ == if before[j].id == oid {
                    UserView { current_step: rank, ..before[j]@ }
                } else {
                    before[j]@
                },
            forall|j: int| i <= j < users.len() ==> #[trigger] users@[j] == before[j],
        decreases users.len() - i,
    {
        if users[i].id == oid {
            users[i].current_step = rank;
        }
        i += 1;
    }
}

/// Judges the attempt `answer` of the player stored under `oid`.
///
/// The checks are made in this order, and the first that fails decides: the
/// player exists (`NotFound`); the password is the player's
/// (`WrongPassword`); a step has the player's rank (`NotFound`); the distance
/// is at most `MAX_DISTANCE` (`WrongPlace`, with the distance); the answer is
/// right (`WrongAnswer`); a step has the next rank (`NotFound`). An attempt
/// that passes them all moves the player to that step and returns it. Any
/// other leaves the players as they were.
pub fn advance(users: &mut Vec<User>, steps: &Vec<Step>, oid: i32, answer: &Answer) -> (r: Result<
    Message,
    ServerError,
>)
    ensures
        match judged(roster(old(users)@), table(steps@), oid, answer@) {
            Ok(m) => r matches Ok(got) && got@ == m,
            Err(e) => r matches Err(got) && got == e,
        },
        roster(final(users)@) == advanced(roster(old(users)@), table(steps@), oid, answer@),
        !(r matches Ok(Message::Success(_))) ==> final(users)@ == old(users)@,
{
    let u = match position_of_user(users, oid) {
        None => {
            return Err(ServerError::NotFound);
        },
        Some(u) => u,
    };
    let password_ok = verify(answer.password.as_str(), users[u].password.as_str());
    let current = position_of_rank(steps, users[u].current_step);
    match check_place(password_ok, step_ref(steps, current), answer.distance) {
        Some(decided) => {
            return decided;
        },
        None => {},
    }
    let c = current.unwrap();
    let answer_ok = answers_match(answer.answer.as_str(), steps[c].answer.as_str());
    let next = match users[u].current_step.checked_add(1) {
        Some(rank) => position_of_rank(steps, rank),
        None => {
            proof {
                lemma_find_rank(table(steps@), users[u as int].current_step + 1);
            }
            None
        },
    };
    let judged = check_answer(answer_ok, step_ref(steps, next))?;
    match &judged {
        Message::Success(step) => {
            move_to(users, oid, step.rank);
        },
        _ => {},
    }
    Ok(judged)
}

/// Puts the hash that the hasher gave in the place of a password, or says
/// that the hasher refused the password and leaves it where it is.
pub fn store_hash(password: &mut String, hashed: Result<String, ServerError>) -> (r: Result<
    (),
    ServerError,
>)
    ensures
        match hashed {
            Ok(h) => r is Ok && final(password)@ == h@,
            Err(_) => r == Err::<(), ServerError>(ServerError::UnacceptablePassword) && final(password)@ == old(password)@,
        },
{
    match hashed {
        Ok(h) => {
            *password = h;
            Ok(())
        },
        Err(_) => Err(ServerError::UnacceptablePassword),
    }
}

/// Trims a name, and puts the hash of a password, trimmed, in its place. An
/// empty password is refused before the hasher sees it.
fn prepare(name: &mut String, password: &mut String) -> (r: Result<(), ServerError>)
    ensures
        final(name)@ == trimmed(old(name)@),
        old(password)@.len() == 0 ==> r == Err::<(), ServerError>(ServerError::EmptyPassword),
        old(password)@.len() > 0 ==> r is Ok || r == Err::<(), ServerError>(
            ServerError::UnacceptablePassword,
        ),
        r is Ok ==> password_verifies(trimmed(old(password)@), final(password)@),
        r is Err ==> final(password)@ == old(password)@,
{
    *name = trim(name.as_str());
    if password.as_str().is_empty() {
        return Err(ServerError::EmptyPassword);
    }
    let plain = trim(password.as_str());
    let hashed = hash(plain.as_str());
    store_hash(password, hashed)
}

impl NewUser {
    /// Trims the name and puts a hash of the password, trimmed, in the place
    /// of the password: a hash that the trimmed password verifies against.
    /// `EmptyPassword` where the password is empty, `UnacceptablePassword`
    /// where the hasher refuses it; the password is then left as it was.
    pub fn trim(&mut self) -> (r: Result<(), ServerError>)
        ensures
            final(self).name@ == trimmed(old(self).name@),
            old(self).password@.len() == 0 ==> r == Err::<(), ServerError>(
                ServerError::EmptyPassword,
            ),
            old(self).password@.len() > 0 ==> r is Ok || r == Err::<(), ServerError>(
                ServerError::UnacceptablePassword,
            ),
            r is Ok ==> password_verifies(trimmed(old(self).password@), final(self).password@),
            r is Err ==> final(self).password@ == old(self).password@,
    {
        prepare(&mut self.name, &mut self.password)
    }
}

impl User {
    /// Trims the name and puts a hash of the password, trimmed, in the place
    /// of the password: a hash that the trimmed password verifies against.
    /// `EmptyPassword` where the password is empty, `UnacceptablePassword`
    /// where the hasher refuses it; the password is then left as it was.
    pub fn trim(&mut self) -> (r: Result<(), ServerError>)
        ensures
            final(self).name@ == trimmed(old(self).name@),
            final(self).id == old(self).id,
            final(self).current_step == old(self).current_step,
            old(self).password@.len() == 0 ==> r == Err::<(), ServerError>(
                ServerError::EmptyPassword,
            ),
            old(self).password@.len() > 0 ==> r is Ok || r == Err::<(), ServerError>(
                ServerError::UnacceptablePassword,
            ),
            r is Ok ==> password_verifies(trimmed(old(self).password@), final(self).password@),
            r is Err ==> final(self).password@ == old(self).password@,
    {
        prepare(&mut self.name, &mut self.password)
    }
}

/// Stores a player under `id`, with the name and the password as they are,
/// at the first step. Returns the player as stored.
pub fn insert(users: &mut Vec<User>, id: i32, o: NewUser) -> (stored: User)
    ensures
        stored@ == (UserView {
            id,
            name: o@.name,
            password: o@.password,
            current_step: FIRST_STEP,
        }),
        roster(final(users)@) == roster(old(users)@).push(stored@),
{
    let user = User { id, name: o.name, password: o.password, current_step: FIRST_STEP };
    let stored = user.clone();
    users.push(user);
    stored
}

/// Stores a new player under `id`: the name trimmed, the password hashed,
/// at the first step. Returns the player as stored. `EmptyPassword` where
/// the password is empty, `UnacceptablePassword` where the hasher refuses
/// it; the players are then left as they were.
pub fn create(users: &mut Vec<User>, id: i32, o: NewUser) -> (r: Result<User, ServerError>)
    ensures
        o@.password.len() == 0 ==> (r matches Err(e) && e == ServerError::EmptyPassword),
        o@.password.len() > 0 ==> r is Ok || (r matches Err(e) && e
            == ServerError::UnacceptablePassword),
        match r {
            Ok(stored) => {
                &&& stored@.id == id
                &&& stored@.name == trimmed(o@.name)
                &&& stored@.current_step == FIRST_STEP
                &&& password_verifies(trimmed(o@.password), stored@.password)
                &&& roster(final(users)@) == roster(old(users)@).push(stored@)
            },
            Err(_) => final(users)@ == old(users)@,
        },
{
    let mut o = o;
    match o.trim() {
        Err(e) => Err(e),
        Ok(_) => Ok(insert(users, id, o)),
    }
}

/// The players with every player stored under `oid` given the name, the
/// password and the current step of `o`. The id stays.
pub open spec fn replaced(users: Seq<UserView>, oid: i32, o: UserView) -> Seq<UserView> {
    users.map_values(
        |u: UserView|
            if u.id == oid {
                UserView { id: oid, ..o }
            } else {
                u
            },
    )
}

/// Gives every player stored under `oid` the name, the password and the
/// current step of `o`, as they are. Returns the first such player as
/// stored, or `NotFound` where there is none.
pub fn replace(users: &mut Vec<User>, oid: i32, o: &User) -> (r: Result<User, ServerError>)
    ensures
        roster(final(users)@) == replaced(roster(old(users)@), oid, o@),
        match find_user(roster(old(users)@), oid) {
            None => r matches Err(e) && e == ServerError::NotFound,
            Some(_) => r matches Ok(stored) && stored@ == (UserView { id: oid, ..o@ }),
        },
{
    let ghost before = users@;
    let mut first: Option<usize> = None;
    let mut i: usize = 0;
    while i < users.len()
        invariant
            i <= users.len(),
            users.len() == before.len(),
            forall|j: int|
                0 <= j < i ==> (#[trigger] users@[j])@ == if before[j].id == oid {
                    UserView { id: oid, ..o@ }
                } else {
                    before[j]@
                },
            forall|j: int| i <= j < users.len() ==> #[trigger] users@[j] == before[j],
            match first {
                Some(f) => f < i && before[f as int].id == oid,
                None => forall|j: int| 0 <= j < i ==> (#[trigger] roster(before)[j]).id != oid,
            },
        decreases users.len() - i,
    {
        if users[i].id == oid {
            let mut row = o.clone();
            row.id = oid;
            users[i] = row;
            if first.is_none() {
                first = Some(i);
            }
        }
        i += 1;
    }
    proof {
        lemma_find_user(roster(before), oid);
        match first {
            Some(f) => {
                assert(roster(before)[f as int].id == oid);
            },
            None => {},
        }
    }
    match first {
        Some(f) => Ok(users[f].clone()),
        None => Err(ServerError::NotFound),
    }
}

/// Changes the player stored under `oid` to `o`, whose own id is not looked
/// at. The name is trimmed. An empty password keeps the stored hash; any
/// other is trimmed and hashed. Returns the player as stored.
///
/// `NotFound` where no player is stored under `oid`,
/// `UnacceptablePassword` where the hasher refuses the password; the
/// players are then left as they were.
pub fn update(users: &mut Vec<User>, oid: i32, o: User) -> (r: Result<User, ServerError>)
    ensures
        match find_user(roster(old(users)@), oid) {
            None => r matches Err(e) && e == ServerError::NotFound && final(users)@ == old(users)@,
            Some(u) => match r {
                Ok(stored) => {
                    &&& stored@.id == oid
                    &&& stored@.name == trimmed(o@.name)
                    &&& stored@.current_step == o.current_step
                    &&& o@.password.len() == 0 ==> stored@.password == roster(
                        old(users)@,
                    )[u].password
                    &&& o@.password.len() > 0 ==> password_verifies(
                        trimmed(o@.password),
                        stored@.password,
                    )
                    &&& roster(final(users)@) == replaced(roster(old(users)@), oid, stored@)
                },
                Err(e) => {
                    &&& e == ServerError::UnacceptablePassword
                    &&& o@.password.len() > 0
                    &&& final(users)@ == old(users)@
                },
            },
        },
{
    let u = match position_of_user(users, oid) {
        None => {
            return Err(ServerError::NotFound);
        },
        Some(u) => u,
    };
    let mut o = o;
    if o.password.as_str().is_empty() {
        o.password = users[u].password.clone();
        o.name = trim(o.name.as_str());
    } else {
        match o.trim() {
            Err(e) => {
                return Err(e);
            },
            Ok(_) => {},
        }
    }
    replace(users, oid, &o)
}

} // verus!
