use erps::engine::{ErrorKind, Event, Reply, Request};
use erps::model::{Mode, RoomState, ScoreInfo};
use erps::topic::EventKind;
use erps::world::World;

fn modes() -> Vec<Mode> {
    vec![
        Mode { name: "ng1v1".to_string(), team_size: 1, ranked: true },
        Mode { name: "rk2v2".to_string(), team_size: 2, ranked: true },
        Mode { name: "fun1v1".to_string(), team_size: 1, ranked: false },
    ]
}

fn world_with(users: &[&str]) -> World {
    let mut w = World::new(modes()).unwrap();
    for u in users {
        assert_eq!(w.login(u), Reply::Done);
    }
    w
}

fn room_of(w: &World, user: &str) -> Option<u64> {
    w.users[w.find_user(user).unwrap()].room
}

fn state_of(w: &World, room: u64) -> RoomState {
    w.rooms[w.find_room(room).unwrap()].state
}

fn score_of(w: &World, user: &str, mode: usize) -> ScoreInfo {
    w.users[w.find_user(user).unwrap()].rank[mode]
}

fn queue_solo(w: &mut World, user: &str, mode: &str, now: u64) -> u64 {
    let room = match w.create(now, user) {
        Reply::Created { room } => room,
        other => panic!("{:?}", other),
    };
    assert_eq!(w.start_queue(now, user, mode), Reply::Done);
    room
}

#[test]
fn login_creates_a_user_with_the_starting_rating() {
    let w = world_with(&["alice"]);
    let u = &w.users[0];
    assert_eq!(u.id, "alice");
    assert_eq!(u.hero, "default name");
    assert_eq!(u.honor, 50);
    assert!(u.online);
    assert_eq!(u.rank, vec![ScoreInfo { score: 1000, wins: 0, losses: 0 }; 3]);
    assert_eq!(u.room, None);
    assert!(u.black_list.is_empty());
}

#[test]
fn second_login_refreshes_and_keeps_the_rating() {
    let mut w = world_with(&["alice"]);
    w.users[0].rank[0].score = 1234;
    w.users[0].online = false;
    assert_eq!(w.login("alice"), Reply::Done);
    assert_eq!(w.users.len(), 1);
    assert!(w.users[0].online);
    assert_eq!(w.users[0].rank[0].score, 1234);
}

#[test]
fn create_makes_the_user_master_of_an_idle_room() {
    let mut w = world_with(&["alice"]);
    assert_eq!(w.create(7, "alice"), Reply::Created { room: 1 });
    assert_eq!(w.rooms.len(), 1);
    assert_eq!(w.rooms[0].members, vec![0]);
    assert_eq!(w.rooms[0].state, RoomState::Idle);
    assert_eq!(w.rooms[0].created_at, 7);
    assert_eq!(room_of(&w, "alice"), Some(1));
    assert_eq!(w.create(8, "alice"), Reply::Failed(ErrorKind::Conflict));
    assert_eq!(w.create(8, "nobody"), Reply::Failed(ErrorKind::NotFound));
    assert_eq!(w.rooms.len(), 1);
}

#[test]
fn user_is_in_one_room_at_most() {
    let mut w = world_with(&["alice", "bob"]);
    assert_eq!(w.create(0, "alice"), Reply::Created { room: 1 });
    assert_eq!(w.create(0, "bob"), Reply::Created { room: 2 });
    assert_eq!(w.join("bob", 1), Reply::Failed(ErrorKind::Conflict));
    assert_eq!(w.leave("bob"), Reply::Done);
    assert_eq!(w.join("bob", 1), Reply::Done);
    let holding: Vec<u64> =
        w.rooms.iter().filter(|r| r.members.contains(&1)).map(|r| r.id).collect();
    assert_eq!(holding, vec![1]);
    assert_eq!(room_of(&w, "bob"), Some(1));
}

#[test]
fn join_needs_an_idle_room_with_a_place_left() {
    let mut w = world_with(&["a", "b", "c", "d"]);
    assert_eq!(w.create(0, "a"), Reply::Created { room: 1 });
    assert_eq!(w.join("b", 9), Reply::Failed(ErrorKind::NotFound));
    assert_eq!(w.join("zed", 1), Reply::Failed(ErrorKind::NotFound));
    assert_eq!(w.join("b", 1), Reply::Done);
    assert_eq!(w.join("c", 1), Reply::Failed(ErrorKind::Conflict));
    assert_eq!(w.start_queue(1, "a", "rk2v2"), Reply::Done);
    assert_eq!(w.leave("b"), Reply::Done);
    assert_eq!(state_of(&w, 1), RoomState::Idle);
    assert_eq!(w.start_queue(1, "a", "ng1v1"), Reply::Done);
    assert_eq!(w.join("d", 1), Reply::Failed(ErrorKind::StateViolation));
}

#[test]
fn master_black_list_keeps_a_user_out() {
    let mut w = world_with(&["a", "b"]);
    assert_eq!(w.add_black_list("a", "b"), Reply::Done);
    assert_eq!(w.add_black_list("a", "b"), Reply::Done);
    assert_eq!(w.query_black_list("a"), Some(vec!["b".to_string()]));
    assert_eq!(w.create(0, "a"), Reply::Created { room: 1 });
    assert_eq!(w.join("b", 1), Reply::Failed(ErrorKind::Conflict));
    assert_eq!(w.remove_black_list("a", "b"), Reply::Done);
    assert_eq!(w.query_black_list("a"), Some(vec![]));
    assert_eq!(w.join("b", 1), Reply::Done);
    assert_eq!(w.query_black_list("nobody"), None);
}

#[test]
fn leave_promotes_the_next_oldest_and_closes_the_empty_room() {
    let mut w = world_with(&["a", "b"]);
    assert_eq!(w.create(0, "a"), Reply::Created { room: 1 });
    assert_eq!(w.join("b", 1), Reply::Done);
    assert_eq!(w.leave("a"), Reply::Done);
    assert_eq!(w.rooms[0].members, vec![1]);
    assert_eq!(room_of(&w, "a"), None);
    assert_eq!(w.leave("a"), Reply::Failed(ErrorKind::NotFound));
    assert_eq!(w.leave("b"), Reply::Done);
    assert!(w.rooms.is_empty());
    assert_eq!(room_of(&w, "b"), None);
}

#[test]
fn close_is_for_the_master() {
    let mut w = world_with(&["a", "b"]);
    assert_eq!(w.create(0, "a"), Reply::Created { room: 1 });
    assert_eq!(w.join("b", 1), Reply::Done);
    assert_eq!(w.close("b"), Reply::Failed(ErrorKind::Conflict));
    assert_eq!(w.start_queue(0, "a", "rk2v2"), Reply::Done);
    assert_eq!(w.close("a"), Reply::Done);
    assert!(w.rooms.is_empty());
    assert!(w.queue.is_empty());
    assert_eq!(room_of(&w, "a"), None);
    assert_eq!(room_of(&w, "b"), None);
}

#[test]
fn queued_room_has_one_entry_and_others_have_none() {
    let mut w = world_with(&["a", "b", "c"]);
    let ra = queue_solo(&mut w, "a", "ng1v1", 10);
    assert_eq!(w.create(0, "b"), Reply::Created { room: 2 });
    let count = |w: &World, id: u64| w.queue.iter().filter(|e| e.room_id == id).count();
    assert_eq!(count(&w, ra), 1);
    assert_eq!(count(&w, 2), 0);
    assert_eq!(w.queue[0].mode, 0);
    assert_eq!(w.queue[0].party_size, 1);
    assert_eq!(w.queue[0].team_score_avg, 1000);
    assert_eq!(w.queue[0].entered_at, 10);
    assert_eq!(w.start_queue(11, "a", "ng1v1"), Reply::Failed(ErrorKind::Conflict));
    assert_eq!(w.start_queue(11, "b", "nope"), Reply::Failed(ErrorKind::NotFound));
    assert_eq!(w.start_queue(11, "c", "ng1v1"), Reply::Failed(ErrorKind::NotFound));
    assert_eq!(w.cancel_queue("b"), Reply::Failed(ErrorKind::StateViolation));
    assert_eq!(w.cancel_queue("a"), Reply::Done);
    assert_eq!(count(&w, ra), 0);
    assert_eq!(state_of(&w, ra), RoomState::Idle);
}

#[test]
fn queue_is_ordered_by_age_then_room_id() {
    let mut w = world_with(&["a", "b", "c"]);
    assert_eq!(w.create(0, "a"), Reply::Created { room: 1 });
    assert_eq!(w.create(0, "b"), Reply::Created { room: 2 });
    assert_eq!(w.create(0, "c"), Reply::Created { room: 3 });
    assert_eq!(w.start_queue(500, "c", "rk2v2"), Reply::Done);
    assert_eq!(w.start_queue(500, "b", "rk2v2"), Reply::Done);
    assert_eq!(w.start_queue(100, "a", "rk2v2"), Reply::Done);
    let order: Vec<u64> = w.queue.iter().map(|e| e.room_id).collect();
    assert_eq!(order, vec![1, 2, 3]);
}

#[test]
fn party_larger_than_the_team_may_not_queue() {
    let mut w = world_with(&["a", "b"]);
    assert_eq!(w.create(0, "a"), Reply::Created { room: 1 });
    assert_eq!(w.join("b", 1), Reply::Done);
    assert_eq!(w.start_queue(0, "a", "ng1v1"), Reply::Failed(ErrorKind::Conflict));
    assert_eq!(w.start_queue(0, "b", "rk2v2"), Reply::Failed(ErrorKind::Conflict));
    assert_eq!(w.start_queue(0, "a", "rk2v2"), Reply::Done);
}

#[test]
fn login_create_queue_match() {
    let mut w = world_with(&["alice", "bob"]);
    let ra = queue_solo(&mut w, "alice", "ng1v1", 1000);
    let rb = queue_solo(&mut w, "bob", "ng1v1", 1100);
    let report = w.tick(1500);
    assert_eq!(report.proposed, vec![1]);
    assert!(report.expired.is_empty());
    assert_eq!(state_of(&w, ra), RoomState::Prestart);
    assert_eq!(state_of(&w, rb), RoomState::Prestart);
    assert!(w.queue.is_empty());
    assert_eq!(w.games.len(), 1);
    assert_eq!(w.games[0].players, vec![0, 1]);
    assert_eq!(w.games[0].deadline, 11_500);
    assert!(!w.games[0].started);
    assert_eq!(w.prestart(1600, "alice", true), Reply::Done);
    assert_eq!(state_of(&w, ra), RoomState::Prestart);
    assert_eq!(w.prestart(2000, "bob", true), Reply::Done);
    assert_eq!(state_of(&w, ra), RoomState::InGame);
    assert_eq!(state_of(&w, rb), RoomState::InGame);
    assert_eq!(w.games.len(), 1);
    assert!(w.games[0].started);
    assert_eq!(w.games[0].started_at, 2000);
    assert_eq!(w.prestart(2100, "bob", true), Reply::Failed(ErrorKind::StateViolation));
}

#[test]
fn elo_update_on_game_over() {
    let mut w = world_with(&["alice", "bob"]);
    w.users[1].rank[0].score = 1200;
    queue_solo(&mut w, "alice", "ng1v1", 0);
    queue_solo(&mut w, "bob", "ng1v1", 0);
    assert!(w.tick(8000).proposed.len() == 1);
    assert_eq!(w.prestart(8001, "alice", true), Reply::Done);
    assert_eq!(w.prestart(8002, "bob", true), Reply::Done);
    assert_eq!(w.game_over(1, true), Reply::Settled { game: 1, delta_a: 24, delta_b: -24 });
    assert_eq!(score_of(&w, "alice", 0), ScoreInfo { score: 1024, wins: 1, losses: 0 });
    assert_eq!(score_of(&w, "bob", 0), ScoreInfo { score: 1176, wins: 0, losses: 1 });
    assert_eq!(score_of(&w, "alice", 1), ScoreInfo { score: 1000, wins: 0, losses: 0 });
    assert!(w.rooms.is_empty());
    assert_eq!(room_of(&w, "alice"), None);
    assert_eq!(w.games[0].result, Some(true));
    assert_eq!(w.game_over(1, true), Reply::Failed(ErrorKind::Conflict));
    assert_eq!(w.game_over(1, false), Reply::Failed(ErrorKind::Conflict));
    assert_eq!(score_of(&w, "alice", 0).score, 1024);
    assert_eq!(w.archive(1), Reply::Done);
    assert!(w.games.is_empty());
    assert_eq!(w.game_over(1, true), Reply::Failed(ErrorKind::NotFound));
    assert_eq!(w.archive(1), Reply::Failed(ErrorKind::NotFound));
}

#[test]
fn rating_changes_only_for_the_players_of_the_game() {
    let mut w = world_with(&["a", "b", "c"]);
    queue_solo(&mut w, "a", "ng1v1", 0);
    queue_solo(&mut w, "b", "ng1v1", 0);
    w.tick(1);
    let before: Vec<Vec<ScoreInfo>> = w.users.iter().map(|u| u.rank.clone()).collect();
    assert_eq!(w.prestart(2, "a", true), Reply::Done);
    assert_eq!(w.prestart(2, "b", true), Reply::Done);
    assert_eq!(w.create(3, "c"), Reply::Created { room: 3 });
    assert_eq!(w.choose_hero("c", "mage"), Reply::Done);
    assert_eq!(w.users[2].hero, "mage");
    assert_eq!(w.logout("c"), Reply::Done);
    let unchanged: Vec<Vec<ScoreInfo>> = w.users.iter().map(|u| u.rank.clone()).collect();
    assert_eq!(before, unchanged);
    assert_eq!(w.game_over(1, false), Reply::Settled { game: 1, delta_a: -16, delta_b: 16 });
    assert_eq!(w.users[2].rank, before[2]);
    assert_eq!(score_of(&w, "a", 0).score, 984);
    assert_eq!(score_of(&w, "b", 0).score, 1016);
}

#[test]
fn unranked_mode_changes_no_rating() {
    let mut w = world_with(&["a", "b"]);
    queue_solo(&mut w, "a", "fun1v1", 0);
    queue_solo(&mut w, "b", "fun1v1", 0);
    assert_eq!(w.tick(1).proposed, vec![1]);
    assert_eq!(w.prestart(2, "a", true), Reply::Done);
    assert_eq!(w.prestart(2, "b", true), Reply::Done);
    assert_eq!(w.game_over(1, true), Reply::Settled { game: 1, delta_a: 0, delta_b: 0 });
    assert_eq!(score_of(&w, "a", 2), ScoreInfo { score: 1000, wins: 0, losses: 0 });
}

#[test]
fn game_over_needs_a_started_game() {
    let mut w = world_with(&["a", "b"]);
    queue_solo(&mut w, "a", "ng1v1", 0);
    queue_solo(&mut w, "b", "ng1v1", 0);
    w.tick(1);
    assert_eq!(w.game_over(1, true), Reply::Failed(ErrorKind::StateViolation));
    assert_eq!(w.archive(1), Reply::Failed(ErrorKind::StateViolation));
    assert_eq!(w.game_over(5, true), Reply::Failed(ErrorKind::NotFound));
}

#[test]
fn blacklist_exclusion() {
    let mut w = world_with(&["x", "y", "z"]);
    assert_eq!(w.add_black_list("x", "y"), Reply::Done);
    let rx = queue_solo(&mut w, "x", "ng1v1", 0);
    let ry = queue_solo(&mut w, "y", "ng1v1", 0);
    for t in 1..40 {
        let report = w.tick(t * 1000);
        assert!(report.proposed.is_empty());
    }
    assert_eq!(state_of(&w, rx), RoomState::Queued);
    assert_eq!(state_of(&w, ry), RoomState::Queued);
    let rz = queue_solo(&mut w, "z", "ng1v1", 40_000);
    assert_eq!(w.tick(40_500).proposed, vec![1]);
    assert_eq!(state_of(&w, rx), RoomState::Prestart);
    assert_eq!(state_of(&w, rz), RoomState::Prestart);
    assert_eq!(state_of(&w, ry), RoomState::Queued);
    assert_eq!(w.games[0].players, vec![0, 2]);
}

#[test]
fn blacklist_counts_both_ways() {
    let mut w = world_with(&["x", "y"]);
    assert_eq!(w.add_black_list("y", "x"), Reply::Done);
    queue_solo(&mut w, "x", "ng1v1", 0);
    queue_solo(&mut w, "y", "ng1v1", 0);
    assert!(w.tick(500).proposed.is_empty());
}

#[test]
fn prestart_timeout() {
    let mut w = world_with(&["a", "b", "c", "d"]);
    let rooms: Vec<u64> =
        ["a", "b", "c", "d"].iter().map(|u| queue_solo(&mut w, u, "rk2v2", 0)).collect();
    let report = w.tick(500);
    assert_eq!(report.proposed, vec![1]);
    assert_eq!(w.games[0].players, vec![0, 1, 2, 3]);
    for u in ["a", "b", "c"] {
        assert_eq!(w.prestart(600, u, true), Reply::Done);
    }
    let silent: Vec<usize> =
        (0..4).filter(|k| !w.games[0].acks[*k]).map(|k| w.games[0].players[k]).collect();
    assert_eq!(silent, vec![3]);
    assert_eq!(w.users[3].id, "d");
    assert!(w.tick(10_499).expired.is_empty());
    assert_eq!(state_of(&w, rooms[0]), RoomState::Prestart);
    let report = w.tick(10_500);
    assert_eq!(report.expired, vec![1]);
    assert!(report.proposed.is_empty());
    for r in rooms {
        assert_eq!(state_of(&w, r), RoomState::Idle);
    }
    assert!(w.games.is_empty());
    assert!(w.queue.is_empty());
}

#[test]
fn decline_sends_every_room_back_to_idle() {
    let mut w = world_with(&["a", "b", "c", "d"]);
    let rooms: Vec<u64> =
        ["a", "b", "c", "d"].iter().map(|u| queue_solo(&mut w, u, "rk2v2", 0)).collect();
    assert_eq!(w.tick(500).proposed, vec![1]);
    assert_eq!(w.prestart(600, "a", true), Reply::Done);
    assert_eq!(w.prestart(700, "c", false), Reply::Done);
    for r in rooms {
        assert_eq!(state_of(&w, r), RoomState::Idle);
    }
    assert!(w.games.is_empty());
    assert_eq!(w.prestart(800, "b", true), Reply::Failed(ErrorKind::StateViolation));
}

#[test]
fn parties_far_apart_meet_once_the_window_has_grown() {
    let mut w = world_with(&["a", "b"]);
    w.users[1].rank[0].score = 1200;
    queue_solo(&mut w, "a", "ng1v1", 0);
    queue_solo(&mut w, "b", "ng1v1", 0);
    assert!(w.tick(500).proposed.is_empty());
    assert!(w.tick(7_999).proposed.is_empty());
    assert_eq!(w.tick(8_000).proposed, vec![1]);
}

#[test]
fn parties_fill_a_side_together() {
    let mut w = world_with(&["a", "b", "c", "d"]);
    assert_eq!(w.create(0, "a"), Reply::Created { room: 1 });
    assert_eq!(w.join("b", 1), Reply::Done);
    assert_eq!(w.start_queue(0, "a", "rk2v2"), Reply::Done);
    queue_solo(&mut w, "c", "rk2v2", 1);
    assert!(w.tick(100).proposed.is_empty());
    queue_solo(&mut w, "d", "rk2v2", 2);
    assert_eq!(w.tick(200).proposed, vec![1]);
    assert_eq!(w.games[0].players, vec![0, 1, 2, 3]);
    assert_eq!(w.games[0].mode, 1);
}

#[test]
fn modes_do_not_mix() {
    let mut w = world_with(&["a", "b"]);
    queue_solo(&mut w, "a", "ng1v1", 0);
    queue_solo(&mut w, "b", "fun1v1", 0);
    assert!(w.tick(60_000).proposed.is_empty());
    assert_eq!(w.queue.len(), 2);
}

#[test]
fn leaving_is_refused_while_a_proposal_or_a_game_is_on() {
    let mut w = world_with(&["a", "b"]);
    queue_solo(&mut w, "a", "ng1v1", 0);
    queue_solo(&mut w, "b", "ng1v1", 0);
    w.tick(1);
    assert_eq!(w.leave("a"), Reply::Failed(ErrorKind::StateViolation));
    assert_eq!(w.close("a"), Reply::Failed(ErrorKind::StateViolation));
    assert_eq!(w.cancel_queue("a"), Reply::Failed(ErrorKind::StateViolation));
    assert_eq!(w.logout("a"), Reply::Done);
    assert!(!w.users[0].online);
    assert_eq!(room_of(&w, "a"), Some(1));
    assert_eq!(w.logout("a"), Reply::Failed(ErrorKind::Conflict));
}

#[test]
fn logout_leaves_the_room() {
    let mut w = world_with(&["a"]);
    queue_solo(&mut w, "a", "ng1v1", 0);
    assert_eq!(w.logout("a"), Reply::Done);
    assert!(w.rooms.is_empty());
    assert!(w.queue.is_empty());
    assert!(!w.users[0].online);
    assert_eq!(w.logout("nobody"), Reply::Failed(ErrorKind::NotFound));
}

#[test]
fn reset_wipes_rooms_and_keeps_users() {
    let mut w = world_with(&["a", "b"]);
    w.users[0].rank[0].score = 7;
    queue_solo(&mut w, "a", "ng1v1", 0);
    queue_solo(&mut w, "b", "ng1v1", 0);
    w.tick(1);
    assert_eq!(w.reset(), Reply::Done);
    assert!(w.rooms.is_empty() && w.queue.is_empty() && w.games.is_empty() && w.seen.is_empty());
    assert_eq!(w.users.len(), 2);
    assert_eq!(room_of(&w, "a"), None);
    assert_eq!(score_of(&w, "a", 0).score, 7);
}

fn request(user: &str, verb: EventKind, now: u64, id: Option<u64>, event: Event) -> Request {
    Request { user: user.to_string(), verb, now, request: id, event }
}

#[test]
fn duplicate_create() {
    let mut w = world_with(&["alice"]);
    let first = w.handle(&request("alice", EventKind::Create, 100, Some(7), Event::Create));
    assert_eq!(first, Reply::Created { room: 1 });
    let second = w.handle(&request("alice", EventKind::Create, 5_000, Some(7), Event::Create));
    assert_eq!(second, Reply::Created { room: 1 });
    assert_eq!(w.rooms.len(), 1);
    assert_eq!(w.seen.len(), 1);
}

#[test]
fn replay_within_the_window_changes_nothing() {
    let mut w = world_with(&["a"]);
    assert_eq!(w.create(0, "a"), Reply::Created { room: 1 });
    let leave = request("a", EventKind::Leave, 1_000, Some(3), Event::Leave);
    assert_eq!(w.handle(&leave), Reply::Done);
    let rooms = w.rooms.len();
    let again = request("a", EventKind::Leave, 61_000, Some(3), Event::Leave);
    assert_eq!(w.handle(&again), Reply::Done);
    assert_eq!(w.rooms.len(), rooms);
    assert_eq!(w.seen.len(), 1);
    let late = request("a", EventKind::Leave, 61_001, Some(3), Event::Leave);
    assert_eq!(w.handle(&late), Reply::Failed(ErrorKind::NotFound));
    assert_eq!(w.seen.len(), 2);
}

#[test]
fn requests_differ_by_user_verb_and_id() {
    let mut w = world_with(&["a", "b"]);
    assert_eq!(
        w.handle(&request("a", EventKind::Create, 0, Some(1), Event::Create)),
        Reply::Created { room: 1 }
    );
    assert_eq!(
        w.handle(&request("b", EventKind::Create, 0, Some(1), Event::Create)),
        Reply::Created { room: 2 }
    );
    assert_eq!(
        w.handle(&request("a", EventKind::Create, 0, Some(2), Event::Create)),
        Reply::Failed(ErrorKind::Conflict)
    );
    assert_eq!(w.handle(&request("a", EventKind::Leave, 0, Some(1), Event::Leave)), Reply::Done);
    assert_eq!(
        w.handle(&request("a", EventKind::Create, 0, None, Event::Create)),
        Reply::Created { room: 3 }
    );
    assert_eq!(w.seen.len(), 4);
}

#[test]
fn handle_dispatches_every_event() {
    let mut w = World::new(modes()).unwrap();
    let go = |w: &mut World, user: &str, verb: EventKind, event: Event| {
        w.handle(&request(user, verb, 0, None, event))
    };
    assert_eq!(go(&mut w, "a", EventKind::Login, Event::Login), Reply::Done);
    assert_eq!(go(&mut w, "b", EventKind::Login, Event::Login), Reply::Done);
    assert_eq!(
        go(&mut w, "a", EventKind::ChooseHero, Event::ChooseHero { hero: "orc".to_string() }),
        Reply::Done
    );
    assert_eq!(w.users[0].hero, "orc");
    assert_eq!(
        go(&mut w, "a", EventKind::AddBlackList, Event::AddBlackList { other: "q".to_string() }),
        Reply::Done
    );
    assert_eq!(
        go(&mut w, "a", EventKind::RemoveBlackList, Event::RemoveBlackList { other: "q".to_string() }),
        Reply::Done
    );
    assert_eq!(go(&mut w, "a", EventKind::Create, Event::Create), Reply::Created { room: 1 });
    assert_eq!(go(&mut w, "b", EventKind::Join, Event::Join { room: 1 }), Reply::Done);
    assert_eq!(go(&mut w, "b", EventKind::Leave, Event::Leave), Reply::Done);
    assert_eq!(
        go(&mut w, "a", EventKind::StartQueue, Event::StartQueue { mode: "ng1v1".to_string() }),
        Reply::Done
    );
    assert_eq!(go(&mut w, "a", EventKind::CancelQueue, Event::CancelQueue), Reply::Done);
    assert_eq!(
        go(&mut w, "a", EventKind::Prestart, Event::Prestart { accept: true }),
        Reply::Failed(ErrorKind::StateViolation)
    );
    assert_eq!(
        go(&mut w, "g", EventKind::GameOver, Event::GameOver { game: 1, team_a_won: true }),
        Reply::Failed(ErrorKind::NotFound)
    );
    assert_eq!(
        go(&mut w, "g", EventKind::GameClose, Event::GameClose { game: 1 }),
        Reply::Failed(ErrorKind::NotFound)
    );
    assert_eq!(go(&mut w, "a", EventKind::Close, Event::Close), Reply::Done);
    assert_eq!(go(&mut w, "a", EventKind::Status, Event::Other), Reply::Done);
    assert_eq!(go(&mut w, "0", EventKind::ServerLogin, Event::ServerDead), Reply::Done);
    assert_eq!(go(&mut w, "a", EventKind::Logout, Event::Logout), Reply::Done);
    assert_eq!(go(&mut w, "a", EventKind::Status, Event::Reset), Reply::Done);
    assert_eq!(w.users.len(), 2);
}

#[test]
fn room_is_in_game_only_after_everyone_accepted() {
    let mut w = world_with(&["a", "b", "c", "d"]);
    for u in ["a", "b", "c", "d"] {
        queue_solo(&mut w, u, "rk2v2", 0);
    }
    w.tick(1);
    for (k, u) in ["a", "b", "c"].iter().enumerate() {
        assert_eq!(w.prestart(2, u, true), Reply::Done);
        assert!(w.rooms.iter().all(|r| r.state == RoomState::Prestart), "after {}", k);
        w.tick(3);
        assert!(w.rooms.iter().all(|r| r.state == RoomState::Prestart));
    }
    assert_eq!(w.prestart(4, "d", true), Reply::Done);
    assert!(w.rooms.iter().all(|r| r.state == RoomState::InGame));
    assert!(w.games[0].acks.iter().all(|a| *a));
    w.tick(1_000_000);
    assert!(w.rooms.iter().all(|r| r.state == RoomState::InGame));
    assert_eq!(w.games.len(), 1);
}

#[test]
fn forget_drops_answers_older_than_the_window() {
    let mut w = world_with(&["a"]);
    assert_eq!(
        w.handle(&request("a", EventKind::Create, 1_000, Some(1), Event::Create)),
        Reply::Created { room: 1 }
    );
    assert_eq!(w.handle(&request("a", EventKind::Leave, 30_000, Some(2), Event::Leave)), Reply::Done);
    w.forget(61_000);
    assert_eq!(w.seen.len(), 2);
    w.forget(61_001);
    assert_eq!(w.seen.len(), 1);
    assert_eq!(w.seen[0].request, 2);
    assert_eq!(w.recall("a", EventKind::Leave, 2, 61_001), Some(Reply::Done));
    assert_eq!(w.recall("a", EventKind::Create, 1, 61_001), None);
}

#[test]
fn error_kinds_have_codes_and_names() {
    let all = [
        ErrorKind::Decode,
        ErrorKind::UnknownTopic,
        ErrorKind::StateViolation,
        ErrorKind::NotFound,
        ErrorKind::Conflict,
        ErrorKind::Busy,
        ErrorKind::Transient,
    ];
    let codes: Vec<u32> = all.iter().map(|e| e.code()).collect();
    assert_eq!(codes, vec![1, 2, 3, 4, 5, 6, 7]);
    assert_eq!(ErrorKind::StateViolation.name(), "state_violation");
    assert!(ErrorKind::Conflict.is_reported());
    assert!(!ErrorKind::Transient.is_reported());
}

#[test]
fn room_ids_run_out_with_busy() {
    let mut w = world_with(&["a"]);
    w.next_room = u64::MAX;
    assert_eq!(w.create(0, "a"), Reply::Failed(ErrorKind::Busy));
}

#[test]
fn the_party_that_waited_longer_is_drawn_first() {
    let mut w = world_with(&["a", "b", "c"]);
    let ra = queue_solo(&mut w, "a", "ng1v1", 0);
    let rb = queue_solo(&mut w, "b", "ng1v1", 1);
    let rc = queue_solo(&mut w, "c", "ng1v1", 2);
    assert_eq!(w.tick(10).proposed, vec![1]);
    assert_eq!(state_of(&w, ra), RoomState::Prestart);
    assert_eq!(state_of(&w, rb), RoomState::Prestart);
    assert_eq!(state_of(&w, rc), RoomState::Queued);
    assert_eq!(w.queue.len(), 1);
    assert_eq!(w.queue[0].room_id, rc);
}

#[test]
fn draw_one_proposes_one_match_at_a_time() {
    let mut w = world_with(&["a", "b", "c", "d"]);
    for (t, u) in ["a", "b", "c", "d"].iter().enumerate() {
        queue_solo(&mut w, u, "ng1v1", t as u64);
    }
    assert_eq!(w.draw_one(1, 10), None);
    assert_eq!(w.draw_one(0, 10), Some(1));
    assert_eq!(w.queue.len(), 2);
    assert_eq!(w.draw_one(0, 10), Some(2));
    assert_eq!(w.draw_one(0, 10), None);
    assert_eq!(w.games[0].players, vec![0, 1]);
    assert_eq!(w.games[1].players, vec![2, 3]);
    w.next_game = u64::MAX;
    assert_eq!(w.cancel_queue("a"), Reply::Failed(ErrorKind::StateViolation));
}

#[test]
fn one_tick_draws_every_match_there_is() {
    let mut w = world_with(&["a", "b", "c", "d", "e"]);
    for u in ["a", "b", "c", "d", "e"] {
        queue_solo(&mut w, u, "ng1v1", 0);
    }
    assert_eq!(w.tick(1).proposed, vec![1, 2]);
    assert_eq!(w.queue.len(), 1);
}

#[test]
fn queries_name_the_users() {
    let mut w = world_with(&["a", "b", "c"]);
    assert_eq!(w.create(0, "a"), Reply::Created { room: 1 });
    assert_eq!(w.join("b", 1), Reply::Done);
    assert_eq!(w.members_of(1), Some(vec!["a".to_string(), "b".to_string()]));
    assert_eq!(w.members_of(2), None);
    assert_eq!(w.room_of("b"), Some(1));
    assert_eq!(w.room_of("c"), None);
    assert_eq!(w.room_of("nobody"), None);
    assert_eq!(w.state_of(1), RoomState::Idle);
    assert_eq!(w.state_of(9), RoomState::Closed);
    assert_eq!(w.leave("b"), Reply::Done);
    queue_solo(&mut w, "c", "ng1v1", 0);
    assert_eq!(w.start_queue(0, "a", "ng1v1"), Reply::Done);
    assert_eq!(w.tick(5).proposed, vec![1]);
    assert_eq!(w.players_of(1), Some(vec!["a".to_string(), "c".to_string()]));
    assert_eq!(w.silent_of(1), Some(vec!["a".to_string(), "c".to_string()]));
    assert_eq!(w.prestart(6, "a", true), Reply::Done);
    assert_eq!(w.silent_of(1), Some(vec!["c".to_string()]));
    assert!(w.lapsing(10_004).is_empty());
    assert_eq!(w.lapsing(10_005), vec![1]);
    assert_eq!(w.players_of(7), None);
    assert_eq!(w.silent_of(7), None);
}

#[test]
fn modes_of_one_name_make_no_world() {
    let twice = vec![
        Mode { name: "ng1v1".to_string(), team_size: 1, ranked: true },
        Mode { name: "rk2v2".to_string(), team_size: 2, ranked: true },
        Mode { name: "ng1v1".to_string(), team_size: 5, ranked: false },
    ];
    assert!(World::new(twice).is_none());
    assert!(World::new(vec![]).is_some());
}

#[test]
fn every_user_has_one_standing_for_each_mode_name() {
    let w = world_with(&["a", "b"]);
    assert!(w.users.iter().all(|u| u.rank.len() == 3));
}

#[test]
fn results_of_a_game_name_each_player_with_change_and_standing() {
    let mut w = world_with(&["alice", "bob", "carol"]);
    w.users[1].rank[0].score = 1200;
    queue_solo(&mut w, "alice", "ng1v1", 0);
    queue_solo(&mut w, "bob", "ng1v1", 0);
    assert_eq!(w.tick(8000).proposed, vec![1]);
    assert_eq!(w.prestart(8001, "alice", true), Reply::Done);
    assert_eq!(w.prestart(8002, "bob", true), Reply::Done);
    assert!(w.results_of(Reply::Settled { game: 1, delta_a: 24, delta_b: -24 }).is_empty());
    let reply = w.game_over(1, true);
    assert_eq!(reply, Reply::Settled { game: 1, delta_a: 24, delta_b: -24 });
    let results = w.results_of(reply);
    assert_eq!(results.len(), 2);
    assert_eq!(results[0].user, "alice");
    assert_eq!(results[0].mode, "ng1v1");
    assert_eq!(results[0].delta, 24);
    assert_eq!(results[0].standing, ScoreInfo { score: 1024, wins: 1, losses: 0 });
    assert_eq!(results[1].user, "bob");
    assert_eq!(results[1].delta, -24);
    assert_eq!(results[1].standing, ScoreInfo { score: 1176, wins: 0, losses: 1 });
    match results[1].write() {
        erps::sqlqueue::SqlOp::UpdateScore { user, mode, score, wins, losses } => {
            assert_eq!((user.as_str(), mode.as_str(), score, wins, losses), ("bob", "ng1v1", 1176, 0, 1));
        },
        _ => panic!("wrong write"),
    }
    assert!(w.results_of(Reply::Done).is_empty());
    assert!(w.results_of(Reply::Settled { game: 9, delta_a: 1, delta_b: -1 }).is_empty());
    assert_eq!(w.archive(1), Reply::Done);
    assert!(w.results_of(reply).is_empty());
}

#[test]
fn tick_draws_both_solo_rooms_into_one_game_and_nothing_else() {
    let mut w = world_with(&["a", "b", "c"]);
    let ra = queue_solo(&mut w, "a", "ng1v1", 1000);
    let rb = queue_solo(&mut w, "b", "ng1v1", 1100);
    assert_eq!(w.create(1100, "c"), Reply::Created { room: 3 });
    let report = w.tick(1500);
    assert_eq!(report.proposed, vec![1]);
    assert_eq!(w.games.len(), 1);
    assert_eq!(w.games[0].id, 1);
    assert_eq!(w.games[0].mode, 0);
    assert_eq!(w.games[0].players, vec![0, 1]);
    assert_eq!(w.games[0].acks, vec![false, false]);
    assert_eq!((w.rooms[0].id, w.rooms[0].state, w.rooms[0].game), (ra, RoomState::Prestart, 1));
    assert_eq!((w.rooms[1].id, w.rooms[1].state, w.rooms[1].game), (rb, RoomState::Prestart, 1));
    assert_eq!(w.rooms[2].state, RoomState::Idle);
    assert_eq!(w.next_game, 2);
}

#[test]
fn tick_keeps_the_games_that_have_not_lapsed_in_order() {
    let mut w = world_with(&["a", "b", "c", "d", "e", "f"]);
    queue_solo(&mut w, "a", "ng1v1", 0);
    queue_solo(&mut w, "b", "ng1v1", 0);
    assert_eq!(w.tick(100).proposed, vec![1]);
    queue_solo(&mut w, "c", "ng1v1", 5000);
    queue_solo(&mut w, "d", "ng1v1", 5000);
    assert_eq!(w.tick(5100).proposed, vec![2]);
    assert_eq!(w.prestart(5200, "c", true), Reply::Done);
    assert_eq!(w.prestart(5200, "d", true), Reply::Done);
    queue_solo(&mut w, "e", "ng1v1", 9000);
    queue_solo(&mut w, "f", "ng1v1", 9000);
    assert_eq!(w.tick(9100).proposed, vec![3]);
    let report = w.tick(10_100);
    assert_eq!(report.expired, vec![1]);
    let left: Vec<u64> = w.games.iter().map(|g| g.id).collect();
    assert_eq!(left, vec![2, 3]);
}

#[test]
fn restored_user_keeps_the_stored_standings_through_login() {
    let mut w = World::new(modes()).unwrap();
    let stored = vec![
        ScoreInfo { score: 1310, wins: 20, losses: 7 },
        ScoreInfo { score: 990, wins: 1, losses: 2 },
        ScoreInfo { score: 1000, wins: 0, losses: 0 },
    ];
    assert_eq!(w.restore("alice", "orc", 48, stored.clone()), Reply::Done);
    assert_eq!(w.users.len(), 1);
    assert_eq!(w.users[0].id, "alice");
    assert_eq!(w.users[0].hero, "orc");
    assert_eq!(w.users[0].honor, 48);
    assert!(!w.users[0].online);
    assert_eq!(w.users[0].rank, stored);
    assert_eq!(w.login("alice"), Reply::Done);
    assert!(w.users[0].online);
    assert_eq!(w.users[0].rank, stored);
    assert_eq!(w.login("bob"), Reply::Done);
    assert_eq!(w.users[1].rank, vec![ScoreInfo { score: 1000, wins: 0, losses: 0 }; 3]);
    assert_eq!(w.users.len(), 2);
}

#[test]
fn restore_leaves_a_live_user_alone_and_refuses_a_row_that_does_not_fit() {
    let mut w = world_with(&["alice"]);
    w.users[0].rank[0].score = 1500;
    let stored = vec![ScoreInfo { score: 1, wins: 0, losses: 0 }; 3];
    assert_eq!(w.restore("alice", "orc", 1, stored), Reply::Failed(ErrorKind::Conflict));
    assert_eq!(w.users[0].rank[0].score, 1500);
    assert_eq!(w.users[0].hero, "default name");
    let short = vec![ScoreInfo { score: 1, wins: 0, losses: 0 }; 2];
    assert_eq!(w.restore("bob", "orc", 1, short), Reply::Failed(ErrorKind::Decode));
    assert_eq!(w.users.len(), 1);
}

#[test]
fn standby_that_took_over_serves_a_login_like_a_primary() {
    let mut s = erps::supervisor::Supervisor::new(true);
    assert_eq!(s.on_check(), erps::supervisor::Verdict::Quiet);
    assert_eq!(s.on_check(), erps::supervisor::Verdict::ServerDead);
    assert!(s.is_active());
    let mut w = World::new(modes()).unwrap();
    assert_eq!(
        w.handle(&request("0", EventKind::ServerLogin, 0, None, Event::ServerDead)),
        Reply::Done
    );
    assert!(w.users.is_empty());
    assert_eq!(w.restore("old", "orc", 50, vec![ScoreInfo { score: 1200, wins: 3, losses: 1 }; 3]), Reply::Done);
    assert_eq!(w.handle(&request("old", EventKind::Login, 1, None, Event::Login)), Reply::Done);
    assert_eq!(w.handle(&request("new", EventKind::Login, 1, None, Event::Login)), Reply::Done);
    assert_eq!(w.users.len(), 2);
    assert!(w.users[0].online && w.users[0].rank[0].score == 1200);
    assert!(w.users[1].online && w.users[1].rank[0].score == 1000);
}

#[test]
fn upsert_stores_the_user_as_the_world_holds_it() {
    let mut w = World::new(modes()).unwrap();
    assert_eq!(w.restore("alice", "orc", 48, vec![ScoreInfo { score: 1, wins: 0, losses: 0 }; 3]), Reply::Done);
    assert_eq!(w.login("alice"), Reply::Done);
    match w.upsert_of("alice") {
        Some(erps::sqlqueue::SqlOp::UpsertUser { user, hero, honor }) => {
            assert_eq!((user.as_str(), hero.as_str(), honor), ("alice", "orc", 48));
        },
        _ => panic!("no upsert"),
    }
    assert_eq!(w.login("bob"), Reply::Done);
    assert_eq!(w.choose_hero("bob", "mage"), Reply::Done);
    match w.upsert_of("bob") {
        Some(erps::sqlqueue::SqlOp::UpsertUser { user, hero, honor }) => {
            assert_eq!((user.as_str(), hero.as_str(), honor), ("bob", "mage", 50));
        },
        _ => panic!("no upsert"),
    }
    assert!(w.upsert_of("nobody").is_none());
}

#[test]
fn routing_of_a_message() {
    let r = erps::engine::route;
    let quiet = erps::engine::Routing { beat: false, serve: false, relay: false };
    let beat = erps::engine::Routing { beat: true, serve: false, relay: false };
    let serve = erps::engine::Routing { beat: false, serve: true, relay: false };
    let relay = erps::engine::Routing { beat: false, serve: true, relay: true };
    assert_eq!(r(true, EventKind::Heartbeat, &Event::Other), beat);
    assert_eq!(r(false, EventKind::Heartbeat, &Event::Other), beat);
    assert_eq!(r(false, EventKind::Login, &Event::Login), quiet);
    assert_eq!(r(false, EventKind::NewEqu, &Event::Other), quiet);
    assert_eq!(r(true, EventKind::Login, &Event::Login), serve);
    assert_eq!(r(true, EventKind::Status, &Event::Other), serve);
    assert_eq!(r(true, EventKind::GameInfo, &Event::Other), serve);
    assert_eq!(r(true, EventKind::NewEqu, &Event::Other), relay);
    assert_eq!(r(true, EventKind::DeleteOption, &Event::Other), relay);
}

#[test]
fn players_of_a_game_are_all_different() {
    let mut w = world_with(&["a", "b", "c", "d"]);
    assert_eq!(w.create(0, "a"), Reply::Created { room: 1 });
    assert_eq!(w.join("b", 1), Reply::Done);
    assert_eq!(w.start_queue(0, "a", "rk2v2"), Reply::Done);
    assert_eq!(w.create(0, "c"), Reply::Created { room: 2 });
    assert_eq!(w.join("d", 2), Reply::Done);
    assert_eq!(w.start_queue(1, "c", "rk2v2"), Reply::Done);
    assert_eq!(w.tick(2).proposed, vec![1]);
    let mut players = w.games[0].players.clone();
    players.sort();
    players.dedup();
    assert_eq!(players.len(), 4);
}

#[test]
fn logout_takes_the_user_out_and_keeps_the_others_in_order() {
    let mut w = world_with(&["a", "b", "c", "d"]);
    assert_eq!(w.create(0, "a"), Reply::Created { room: 1 });
    assert_eq!(w.create(0, "d"), Reply::Created { room: 2 });
    let mut ws = World::new(vec![Mode { name: "m3".to_string(), team_size: 3, ranked: true }]).unwrap();
    for u in ["a", "b", "c"] {
        assert_eq!(ws.login(u), Reply::Done);
    }
    assert_eq!(ws.create(0, "a"), Reply::Created { room: 1 });
    assert_eq!(ws.join("b", 1), Reply::Done);
    assert_eq!(ws.join("c", 1), Reply::Done);
    assert_eq!(ws.start_queue(5, "a", "m3"), Reply::Done);
    assert_eq!(ws.logout("b"), Reply::Done);
    assert_eq!(ws.rooms[0].members, vec![0, 2]);
    assert_eq!(ws.rooms[0].state, RoomState::Idle);
    assert!(ws.queue.is_empty());
    assert_eq!(ws.users[1].room, None);
    assert_eq!(ws.users[0].room, Some(1));
    assert_eq!(ws.users[2].room, Some(1));
    assert_eq!(w.start_queue(3, "a", "ng1v1"), Reply::Done);
    assert_eq!(w.start_queue(4, "d", "rk2v2"), Reply::Done);
    assert_eq!(w.logout("a"), Reply::Done);
    assert_eq!(w.rooms.len(), 1);
    assert_eq!((w.rooms[0].id, w.rooms[0].state), (2, RoomState::Queued));
    assert_eq!(w.queue.len(), 1);
    assert_eq!(w.queue[0].room_id, 2);
}
