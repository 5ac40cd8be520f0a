use scavenger_hunt::errors::ServerError;
use scavenger_hunt::password;
use scavenger_hunt::step::{position_of_rank, Step};
use scavenger_hunt::user::{
    advance, check_answer, check_place, create, current_step, insert, position_of_user, replace,
    store_hash, update, Answer, Message, NewUser, User, FIRST_STEP, MAX_DISTANCE,
};

const HASH_OF_PASSWORD: &str =
    "$argon2id$v=19$m=256,t=2,p=1$c29tZXNhbHQ$nf65EOgLrQMR/uIPnA4rEsF5h7TKyQwu9U1bMCHGi/4";

fn step(id: i32, rank: i32, latitude: i32, longitude: i32, answer: &str) -> Step {
    Step {
        id,
        rank,
        latitude,
        longitude,
        location_hint: "go there".to_string(),
        question: "what?".to_string(),
        shake_message: None,
        answer: answer.to_string(),
        is_end: false,
    }
}

fn two_steps() -> Vec<Step> {
    vec![
        step(11, 1, 457484600, 48467100, "blue"),
        step(12, 2, 451666700, 57166700, "Le Parc de la T\u{ea}te d'Or"),
    ]
}

fn user(id: i32, current_step: i32) -> User {
    User {
        id,
        name: "Test name".to_string(),
        password: HASH_OF_PASSWORD.to_string(),
        current_step,
    }
}

fn attempt(password: &str, distance: u64, answer: &str) -> Answer {
    Answer { password: password.to_string(), distance, answer: answer.to_string() }
}

fn places(users: &Vec<User>) -> Vec<(i32, i32)> {
    users.iter().map(|u| (u.id, u.current_step)).collect()
}

/// Great-circle distance in metres between two points given in degrees.
fn get_dist(lat1: f64, lng1: f64, lat2: f64, lng2: f64) -> f64 {
    let part_one = (90.0 - lat1).to_radians().cos() * (90.0 - lat2).to_radians().cos();
    let part_two = (90.0 - lat1).to_radians().sin()
        * (90.0 - lat2).to_radians().sin()
        * (lng1 - lng2).to_radians().cos();
    (part_one + part_two).clamp(-1.0, 1.0).acos() * 6371.0 * 1000.0
}

fn millimetres(metres: f64) -> u64 {
    (metres * 1000.0).ceil() as u64
}

#[test]
fn end_to_end_scenario() {
    let (lat_a, lng_a) = (45.74846, 4.84671);
    let (lat_b, lng_b) = (45.16667, 5.71667);
    let steps = two_steps();
    let mut users = Vec::new();
    let new_user = NewUser {
        name: "  Test name  ".to_string(),
        password: "    Test password       ".to_string(),
    };
    let created = create(&mut users, 1, new_user).unwrap();
    assert_eq!(created.name, "Test name");
    assert_eq!(created.current_step, 1);
    assert_ne!(created.password, "Test password");
    assert_ne!(created.password, "    Test password       ");
    assert_eq!(current_step(&users, &steps, 1).unwrap().id, 11);

    let at_a = millimetres(get_dist(lat_a, lng_a, lat_a, lng_a));
    let at_b_from_a = get_dist(lat_b, lng_b, lat_a, lng_a);
    assert_eq!(at_a, 0);
    assert!((at_b_from_a - 93749.5).abs() < 0.1);

    // Wrong password: decided before the place and the answer are looked at.
    let r = advance(&mut users, &steps, 1, &attempt("Wrong test password", at_a, "yellow"));
    assert!(matches!(r, Ok(Message::WrongPassword)));
    assert_eq!(users[0].current_step, 1);

    // Right password at the place of the second step: wrong place, with the distance.
    let far = millimetres(at_b_from_a);
    let r = advance(&mut users, &steps, 1, &attempt("Test password", far, "parc tete dor"));
    match r {
        Ok(Message::WrongPlace { distance }) => {
            assert_eq!(distance, far);
            assert_eq!(distance / 1000, 93749);
        }
        _ => panic!("the attempt was not judged to be in the wrong place"),
    }
    assert_eq!(users[0].current_step, 1);

    // Right password, right place, wrong answer.
    let r = advance(&mut users, &steps, 1, &attempt("Test password", at_a, "yellow"));
    assert!(matches!(r, Ok(Message::WrongAnswer)));
    assert_eq!(users[0].current_step, 1);

    // Right password, right place, right answer: the player moves to the second step.
    let r = advance(&mut users, &steps, 1, &attempt("Test password", at_a, "blue"));
    match r {
        Ok(Message::Success(next)) => {
            assert_eq!(next.id, 12);
            assert_eq!(next.rank, 2);
            assert_eq!(next.latitude, 451666700);
            assert_eq!(next.longitude, 57166700);
            assert_eq!(next.answer, "Le Parc de la T\u{ea}te d'Or");
        }
        _ => panic!("the attempt did not succeed"),
    }
    assert_eq!(users[0].current_step, 2);
    assert_eq!(current_step(&users, &steps, 1).unwrap().id, 12);

    // A close answer at the second step is right, and no step follows.
    let at_b = millimetres(get_dist(lat_b, lng_b, lat_b, lng_b));
    let r = advance(&mut users, &steps, 1, &attempt("Test password", at_b, "parc tete dor"));
    assert!(matches!(r, Err(ServerError::NotFound)));
    assert_eq!(users[0].current_step, 2);
}

#[test]
fn advance_of_a_missing_player_is_not_found() {
    let steps = two_steps();
    let mut users = vec![user(1, 1)];
    let r = advance(&mut users, &steps, 2, &attempt("password", 0, "blue"));
    assert!(matches!(r, Err(ServerError::NotFound)));
    assert_eq!(places(&users), vec![(1, 1)]);
    let mut nobody: Vec<User> = Vec::new();
    let r = advance(&mut nobody, &steps, 1, &attempt("password", 0, "blue"));
    assert!(matches!(r, Err(ServerError::NotFound)));
}

#[test]
fn wrong_password_is_judged_first() {
    let steps = two_steps();
    // Too far away and with a wrong answer as well.
    let mut users = vec![user(1, 1)];
    let r = advance(&mut users, &steps, 1, &attempt("sassword", 93_749_540, "yellow"));
    assert!(matches!(r, Ok(Message::WrongPassword)));
    assert_eq!(places(&users), vec![(1, 1)]);
    // And where the player has no step left to solve.
    let mut users = vec![user(1, 3)];
    let r = advance(&mut users, &steps, 1, &attempt("sassword", 0, "blue"));
    assert!(matches!(r, Ok(Message::WrongPassword)));
    assert_eq!(places(&users), vec![(1, 3)]);
}

#[test]
fn wrong_place_is_judged_before_the_answer() {
    let steps = two_steps();
    let mut users = vec![user(1, 1)];
    let r = advance(&mut users, &steps, 1, &attempt("password", 60_000, "yellow"));
    assert!(matches!(r, Ok(Message::WrongPlace { distance: 60_000 })));
    let r = advance(&mut users, &steps, 1, &attempt("password", 60_000, "blue"));
    assert!(matches!(r, Ok(Message::WrongPlace { distance: 60_000 })));
    // And where no step follows.
    let mut users = vec![user(1, 2)];
    let r = advance(&mut users, &steps, 1, &attempt("password", 60_000, "parc tete dor"));
    assert!(matches!(r, Ok(Message::WrongPlace { distance: 60_000 })));
    assert_eq!(places(&users), vec![(1, 2)]);
}

#[test]
fn fifty_metres_is_near_enough() {
    assert_eq!(MAX_DISTANCE, 50_000);
    let steps = two_steps();
    let mut users = vec![user(1, 1)];
    let r = advance(&mut users, &steps, 1, &attempt("password", 50_001, "blue"));
    assert!(matches!(r, Ok(Message::WrongPlace { distance: 50_001 })));
    assert_eq!(places(&users), vec![(1, 1)]);
    let r = advance(&mut users, &steps, 1, &attempt("password", u64::MAX, "blue"));
    assert!(matches!(r, Ok(Message::WrongPlace { distance: u64::MAX })));
    let r = advance(&mut users, &steps, 1, &attempt("password", 50_000, "yellow"));
    assert!(matches!(r, Ok(Message::WrongAnswer)));
    let r = advance(&mut users, &steps, 1, &attempt("password", 50_000, "blue"));
    assert!(matches!(r, Ok(Message::Success(_))));
    assert_eq!(places(&users), vec![(1, 2)]);
}

#[test]
fn player_without_a_step_is_not_found() {
    let steps = two_steps();
    let mut users = vec![user(1, 3)];
    let r = advance(&mut users, &steps, 1, &attempt("password", 0, "blue"));
    assert!(matches!(r, Err(ServerError::NotFound)));
    assert!(matches!(current_step(&users, &steps, 1), Err(ServerError::NotFound)));
    assert_eq!(places(&users), vec![(1, 3)]);
    let r = advance(&mut users, &Vec::new(), 1, &attempt("password", 0, "blue"));
    assert!(matches!(r, Err(ServerError::NotFound)));
}

#[test]
fn last_step_has_no_next() {
    let steps = two_steps();
    let mut users = vec![user(1, 2)];
    let r = advance(&mut users, &steps, 1, &attempt("password", 0, "yellow"));
    assert!(matches!(r, Ok(Message::WrongAnswer)));
    let r = advance(&mut users, &steps, 1, &attempt("password", 0, "parc tete dor"));
    assert!(matches!(r, Err(ServerError::NotFound)));
    assert_eq!(places(&users), vec![(1, 2)]);
}

#[test]
fn greatest_rank_has_no_next() {
    let steps = vec![step(1, i32::MAX, 0, 0, "blue"), step(2, i32::MIN, 0, 0, "red")];
    let mut users = vec![user(1, i32::MAX)];
    let r = advance(&mut users, &steps, 1, &attempt("password", 0, "blue"));
    assert!(matches!(r, Err(ServerError::NotFound)));
    assert_eq!(places(&users), vec![(1, i32::MAX)]);
}

#[test]
fn success_moves_the_player_by_one_rank() {
    let steps = vec![
        step(5, 3, 0, 0, "three"),
        step(6, 1, 0, 0, "one"),
        step(7, 2, 0, 0, "two"),
    ];
    let mut users = vec![user(1, 1), user(2, 2), user(3, 1)];
    let r = advance(&mut users, &steps, 2, &attempt("password", 10, "two"));
    match r {
        Ok(Message::Success(next)) => {
            assert_eq!(next.id, 5);
            assert_eq!(next.rank, 3);
            assert_eq!(next.answer, "three");
        }
        _ => panic!("the attempt did not succeed"),
    }
    assert_eq!(places(&users), vec![(1, 1), (2, 3), (3, 1)]);
    let r = advance(&mut users, &steps, 3, &attempt("password", 10, "one"));
    assert!(matches!(r, Ok(Message::Success(_))));
    assert_eq!(places(&users), vec![(1, 1), (2, 3), (3, 2)]);
}

#[test]
fn current_step_asks_for_no_password() {
    let steps = two_steps();
    let users = vec![user(1, 2), user(2, 1)];
    let found = current_step(&users, &steps, 1).unwrap();
    assert_eq!(found.id, 12);
    assert_eq!(found.rank, 2);
    assert_eq!(found.latitude, 451666700);
    assert_eq!(found.answer, "Le Parc de la T\u{ea}te d'Or");
    assert_eq!(current_step(&users, &steps, 2).unwrap().id, 11);
    assert!(matches!(current_step(&users, &steps, 3), Err(ServerError::NotFound)));
}

#[test]
fn checks_before_the_answer() {
    let s = step(11, 1, 0, 0, "blue");
    assert!(matches!(check_place(false, Some(&s), 0), Some(Ok(Message::WrongPassword))));
    assert!(matches!(check_place(false, None, 0), Some(Ok(Message::WrongPassword))));
    assert!(matches!(check_place(false, Some(&s), 50_001), Some(Ok(Message::WrongPassword))));
    assert!(matches!(check_place(true, None, 0), Some(Err(ServerError::NotFound))));
    assert!(matches!(check_place(true, None, 50_001), Some(Err(ServerError::NotFound))));
    assert!(matches!(
        check_place(true, Some(&s), 50_001),
        Some(Ok(Message::WrongPlace { distance: 50_001 }))
    ));
    assert!(check_place(true, Some(&s), 50_000).is_none());
    assert!(check_place(true, Some(&s), 0).is_none());
}

#[test]
fn checks_of_the_answer() {
    let s = step(12, 2, 3, 4, "green");
    assert!(matches!(check_answer(false, Some(&s)), Ok(Message::WrongAnswer)));
    assert!(matches!(check_answer(false, None), Ok(Message::WrongAnswer)));
    assert!(matches!(check_answer(true, None), Err(ServerError::NotFound)));
    match check_answer(true, Some(&s)) {
        Ok(Message::Success(next)) => {
            assert_eq!(next.id, 12);
            assert_eq!(next.rank, 2);
            assert_eq!(next.latitude, 3);
            assert_eq!(next.longitude, 4);
            assert_eq!(next.answer, "green");
        }
        _ => panic!("the attempt did not succeed"),
    }
}

#[test]
fn new_player_starts_at_the_first_step() {
    assert_eq!(FIRST_STEP, 1);
    let mut users = Vec::new();
    let o = NewUser { name: "01_name".to_string(), password: "01_password".to_string() };
    let first = create(&mut users, 1, o).unwrap();
    assert_eq!(first.id, 1);
    assert_eq!(first.name, "01_name");
    assert_eq!(first.current_step, 1);
    assert!(password::verify("01_password", &first.password));
    assert_eq!(users.len(), 1);
    assert_eq!(users[0].id, 1);
    assert_eq!(users[0].password, first.password);
}

#[test]
fn new_player_needs_a_password() {
    let mut users = vec![user(1, 1)];
    let o = NewUser { name: "  Test name  ".to_string(), password: String::new() };
    let r = create(&mut users, 2, o);
    assert!(matches!(r, Err(ServerError::EmptyPassword)));
    assert_eq!(places(&users), vec![(1, 1)]);
}

#[test]
fn password_of_spaces_is_hashed_as_the_empty_one() {
    let mut o = NewUser { name: " n ".to_string(), password: "   ".to_string() };
    assert!(o.trim().is_ok());
    assert_eq!(o.name, "n");
    assert!(password::verify("", &o.password));
}

#[test]
fn trim_of_a_player_hashes_the_trimmed_password() {
    let mut u = User {
        id: 4,
        name: "  Patched test name   ".to_string(),
        password: "    Patched test password       ".to_string(),
        current_step: 2,
    };
    assert!(u.trim().is_ok());
    assert_eq!(u.id, 4);
    assert_eq!(u.name, "Patched test name");
    assert_eq!(u.current_step, 2);
    assert!(password::verify("Patched test password", &u.password));
    assert!(!password::verify("    Patched test password       ", &u.password));

    let mut u = User { id: 4, name: " a ".to_string(), password: String::new(), current_step: 2 };
    assert!(matches!(u.trim(), Err(ServerError::EmptyPassword)));
    assert_eq!(u.name, "a");
    assert_eq!(u.password, "");
}

#[test]
fn store_hash_takes_what_the_hasher_gave() {
    let mut password = "plain".to_string();
    assert!(store_hash(&mut password, Ok("hashed".to_string())).is_ok());
    assert_eq!(password, "hashed");
    let mut password = "plain".to_string();
    let r = store_hash(&mut password, Err(ServerError::UnacceptablePassword));
    assert!(matches!(r, Err(ServerError::UnacceptablePassword)));
    assert_eq!(password, "plain");
    let r = store_hash(&mut password, Err(ServerError::NotFound));
    assert!(matches!(r, Err(ServerError::UnacceptablePassword)));
    assert_eq!(password, "plain");
}

#[test]
fn insert_stores_the_player_as_given() {
    let mut users = vec![user(1, 4)];
    let o = NewUser { name: " n ".to_string(), password: "h".to_string() };
    let stored = insert(&mut users, 9, o);
    assert_eq!(stored.id, 9);
    assert_eq!(stored.name, " n ");
    assert_eq!(stored.password, "h");
    assert_eq!(stored.current_step, 1);
    assert_eq!(places(&users), vec![(1, 4), (9, 1)]);
    assert_eq!(users[1].name, " n ");
}

#[test]
fn update_with_a_password_hashes_it() {
    let mut users = vec![user(1, 1), user(2, 1)];
    let o = User {
        id: 77,
        name: "  Patched test name   ".to_string(),
        password: "    Patched test password       ".to_string(),
        current_step: 2,
    };
    let stored = update(&mut users, 2, o).unwrap();
    assert_eq!(stored.id, 2);
    assert_eq!(stored.name, "Patched test name");
    assert_eq!(stored.current_step, 2);
    assert!(password::verify("Patched test password", &stored.password));
    assert_eq!(places(&users), vec![(1, 1), (2, 2)]);
    assert_eq!(users[1].name, "Patched test name");
    assert_eq!(users[1].password, stored.password);
    assert_eq!(users[0].name, "Test name");
    assert_eq!(users[0].password, HASH_OF_PASSWORD);
}

#[test]
fn update_without_a_password_keeps_the_hash() {
    let mut users = vec![user(1, 1)];
    let o = User { id: 1, name: " New name ".to_string(), password: String::new(), current_step: 5 };
    let stored = update(&mut users, 1, o).unwrap();
    assert_eq!(stored.name, "New name");
    assert_eq!(stored.password, HASH_OF_PASSWORD);
    assert_eq!(stored.current_step, 5);
    assert_eq!(users[0].name, "New name");
    assert_eq!(users[0].password, HASH_OF_PASSWORD);
    assert_eq!(places(&users), vec![(1, 5)]);
}

#[test]
fn update_of_a_missing_player_is_not_found() {
    let mut users = vec![user(1, 1)];
    let o = User { id: 2, name: "n".to_string(), password: "p".to_string(), current_step: 5 };
    assert!(matches!(update(&mut users, 2, o), Err(ServerError::NotFound)));
    assert_eq!(places(&users), vec![(1, 1)]);
    assert_eq!(users[0].name, "Test name");
}

#[test]
fn replace_changes_every_player_of_the_id() {
    let mut users = vec![user(1, 1), user(2, 1), user(1, 3)];
    let o = User { id: 50, name: "n".to_string(), password: "p".to_string(), current_step: 7 };
    let stored = replace(&mut users, 1, &o).unwrap();
    assert_eq!(stored.id, 1);
    assert_eq!(stored.name, "n");
    assert_eq!(stored.password, "p");
    assert_eq!(stored.current_step, 7);
    assert_eq!(places(&users), vec![(1, 7), (2, 1), (1, 7)]);
    assert_eq!(users[1].name, "Test name");
    assert!(matches!(replace(&mut users, 3, &o), Err(ServerError::NotFound)));
    assert_eq!(places(&users), vec![(1, 7), (2, 1), (1, 7)]);
}

#[test]
fn players_and_steps_are_found_by_id_and_rank() {
    let users = vec![user(4, 1), user(5, 1), user(4, 2)];
    assert_eq!(position_of_user(&users, 4), Some(0));
    assert_eq!(position_of_user(&users, 5), Some(1));
    assert_eq!(position_of_user(&users, 6), None);
    let steps = vec![step(1, 2, 0, 0, ""), step(2, 1, 0, 0, ""), step(3, 2, 0, 0, "")];
    assert_eq!(position_of_rank(&steps, 2), Some(0));
    assert_eq!(position_of_rank(&steps, 1), Some(1));
    assert_eq!(position_of_rank(&steps, 3), None);
}
