use erps::engine::{ErrorKind, Event, Request};
use erps::event_member::{login, logout};
use erps::payload::{decode, decode_payload, read_message, read_payload, Payload};
use erps::sqlqueue::SqlOp;
use erps::topic::EventKind;

fn value(text: &str) -> serde_json::Value {
    serde_json::from_str(text).unwrap()
}

fn empty() -> Payload {
    Payload {
        id: None,
        hero: None,
        black: None,
        mode: None,
        room: None,
        game: None,
        accept: None,
        win: None,
        request: None,
    }
}

fn event_of(r: Result<Request, ErrorKind>) -> Result<String, ErrorKind> {
    r.map(|q| match q.event {
        Event::Login => "login".to_string(),
        Event::Logout => "logout".to_string(),
        Event::ChooseHero { hero } => format!("hero {}", hero),
        Event::AddBlackList { other } => format!("add {}", other),
        Event::RemoveBlackList { other } => format!("remove {}", other),
        Event::Create => "create".to_string(),
        Event::Close => "close".to_string(),
        Event::Join { room } => format!("join {}", room),
        Event::Leave => "leave".to_string(),
        Event::StartQueue { mode } => format!("queue {}", mode),
        Event::CancelQueue => "cancel".to_string(),
        Event::Prestart { accept } => format!("prestart {}", accept),
        Event::GameOver { game, team_a_won } => format!("over {} {}", game, team_a_won),
        Event::GameClose { game } => format!("archive {}", game),
        Event::Reset => "reset".to_string(),
        Event::ServerDead => "dead".to_string(),
        Event::Other => "other".to_string(),
    })
}

#[test]
fn read_payload_picks_the_members_by_type() {
    let p = read_payload(&value(
        r#"{"id":"alice","hero":"orc","black":"bob","mode":"ng1v1","room":7,"game":9,
            "accept":true,"win":false,"request":12,"unknown":[1,2]}"#,
    ));
    assert_eq!(p.id.as_deref(), Some("alice"));
    assert_eq!(p.hero.as_deref(), Some("orc"));
    assert_eq!(p.black.as_deref(), Some("bob"));
    assert_eq!(p.mode.as_deref(), Some("ng1v1"));
    assert_eq!(p.room, Some(7));
    assert_eq!(p.game, Some(9));
    assert_eq!(p.accept, Some(true));
    assert_eq!(p.win, Some(false));
    assert_eq!(p.request, Some(12));
}

#[test]
fn read_payload_ignores_members_of_the_wrong_type() {
    let p = read_payload(&value(r#"{"id":5,"room":"7","accept":"yes","game":-1,"request":1.5}"#));
    assert_eq!(p.id, None);
    assert_eq!(p.room, None);
    assert_eq!(p.accept, None);
    assert_eq!(p.game, None);
    assert_eq!(p.request, None);
    let q = read_payload(&value("[1,2,3]"));
    assert_eq!(q.id, None);
    assert_eq!(q.request, None);
}

#[test]
fn decode_makes_the_request() {
    let r = decode(EventKind::Join, "bob", 42, r#"{"room": 3, "request": 8}"#).unwrap();
    assert_eq!(r.user, "bob");
    assert_eq!(r.verb, EventKind::Join);
    assert_eq!(r.now, 42);
    assert_eq!(r.request, Some(8));
    assert!(matches!(r.event, Event::Join { room: 3 }));
}

#[test]
fn decode_rejects_what_is_not_json() {
    assert!(matches!(decode(EventKind::Create, "bob", 0, "{"), Err(ErrorKind::Decode)));
    assert!(matches!(decode(EventKind::Create, "bob", 0, ""), Err(ErrorKind::Decode)));
    assert!(matches!(decode(EventKind::Create, "bob", 0, "{}"), Ok(_)));
    assert!(matches!(decode(EventKind::Create, "bob", 0, "null"), Ok(_)));
}

#[test]
fn decode_rejects_a_payload_without_the_member_it_needs() {
    let kinds = [
        EventKind::Login,
        EventKind::Logout,
        EventKind::ChooseHero,
        EventKind::AddBlackList,
        EventKind::RemoveBlackList,
        EventKind::Join,
        EventKind::StartQueue,
        EventKind::Prestart,
        EventKind::GameOver,
        EventKind::GameClose,
    ];
    for kind in kinds {
        assert_eq!(event_of(decode_payload(kind, "u", 0, &empty())), Err(ErrorKind::Decode));
    }
    let half = Payload { game: Some(1), ..empty() };
    assert_eq!(event_of(decode_payload(EventKind::GameOver, "u", 0, &half)), Err(ErrorKind::Decode));
}

#[test]
fn decode_payload_maps_each_kind_to_its_event() {
    let p = Payload {
        id: Some("alice".to_string()),
        hero: Some("orc".to_string()),
        black: Some("bob".to_string()),
        mode: Some("rk2v2".to_string()),
        room: Some(4),
        game: Some(6),
        accept: Some(false),
        win: Some(true),
        request: None,
    };
    let cases = [
        (EventKind::Login, "login"),
        (EventKind::Logout, "logout"),
        (EventKind::ChooseHero, "hero orc"),
        (EventKind::AddBlackList, "add bob"),
        (EventKind::RemoveBlackList, "remove bob"),
        (EventKind::Create, "create"),
        (EventKind::Close, "close"),
        (EventKind::Join, "join 4"),
        (EventKind::Leave, "leave"),
        (EventKind::StartQueue, "queue rk2v2"),
        (EventKind::CancelQueue, "cancel"),
        (EventKind::Prestart, "prestart false"),
        (EventKind::GameOver, "over 6 true"),
        (EventKind::GameClose, "archive 6"),
        (EventKind::Status, "other"),
        (EventKind::Heartbeat, "other"),
        (EventKind::NewOption, "other"),
        (EventKind::GameLeave, "other"),
    ];
    for (kind, want) in cases {
        assert_eq!(event_of(decode_payload(kind, "u", 0, &p)), Ok(want.to_string()));
    }
    assert_eq!(event_of(decode_payload(EventKind::Create, "u", 0, &empty())), Ok("create".to_string()));
}

#[test]
fn login_builds_the_user_for_each_mode() {
    let modes = vec!["ng1v1".to_string(), "rk5v5".to_string()];
    let data = login("alice".to_string(), &value(r#"{"id":"a-1"}"#), &modes).ok().unwrap();
    assert_eq!(data.dataid, "a-1");
    assert_eq!(data.u.id, "alice");
    assert_eq!(data.u.hero, "default name");
    assert_eq!(data.u.honor, 50);
    assert!(data.u.online);
    assert_eq!(data.u.rank.len(), 2);
    assert!(data.u.rank.iter().all(|s| s.score == 1000 && s.wins == 0 && s.losses == 0));
    assert!(matches!(login("alice".to_string(), &value("{}"), &modes), Err(ErrorKind::Decode)));
}

#[test]
fn logout_marks_the_user_who_logs_out_offline() {
    let (event, write) = logout("u-1".to_string(), &value(r#"{"id":"u-2"}"#)).ok().unwrap();
    assert_eq!(event.id, "u-1");
    match write {
        SqlOp::SetStatus { user, online } => {
            assert_eq!(user, "u-1");
            assert!(!online);
        },
        _ => panic!("wrong write"),
    }
    assert!(matches!(logout("alice".to_string(), &value(r#"{"id":1}"#)), Err(ErrorKind::Decode)));
    assert!(matches!(logout("alice".to_string(), &value("{}")), Err(ErrorKind::Decode)));
}

#[test]
fn logout_keeps_what_the_payload_says_out_of_the_write() {
    let (event, write) =
        logout("bob".to_string(), &value(r#"{"id":"x' or '1'='1"}"#)).ok().unwrap();
    assert_eq!(event.id, "bob");
    assert!(matches!(write, SqlOp::SetStatus { ref user, online: false } if user == "bob"));
}

#[test]
fn logout_refuses_a_user_whose_identifier_is_none() {
    let payload = value(r#"{"id":"bob"}"#);
    for id in ["x' or '1'='1", "", "a--b", "-a", "a'", "a\\", "a b", "é"] {
        assert!(matches!(logout(id.to_string(), &payload), Err(ErrorKind::Decode)), "{}", id);
    }
}

#[test]
fn login_gives_one_standing_for_each_different_mode_name() {
    let v = value(r#"{"id":"a"}"#);
    let twice = vec!["ng1v1".to_string(), "rk5v5".to_string(), "ng1v1".to_string()];
    assert_eq!(login("a".to_string(), &v, &twice).ok().unwrap().u.rank.len(), 2);
    let same = vec!["m".to_string(), "m".to_string(), "m".to_string()];
    assert_eq!(login("a".to_string(), &v, &same).ok().unwrap().u.rank.len(), 1);
    assert_eq!(login("a".to_string(), &v, &vec![]).ok().unwrap().u.rank.len(), 0);
    let three = vec!["a".to_string(), "b".to_string(), "c".to_string()];
    let user = login("a".to_string(), &v, &three).ok().unwrap().u;
    assert_eq!(user.rank.len(), 3);
    assert!(user.rank.iter().all(|s| s.score == 1000 && s.wins == 0 && s.losses == 0));
    assert_eq!(three.len(), 3);
}

#[test]
fn read_message_goes_from_topic_and_payload_to_request() {
    let r = read_message("room/bob/send/start_queue", 9, r#"{"mode":"ng1v1","request":3}"#).unwrap();
    assert_eq!(r.user, "bob");
    assert_eq!(r.verb, EventKind::StartQueue);
    assert_eq!(r.now, 9);
    assert_eq!(r.request, Some(3));
    assert!(matches!(&r.event, Event::StartQueue { mode } if mode == "ng1v1"));
}

#[test]
fn read_message_tells_an_unknown_topic_from_a_bad_payload() {
    assert!(matches!(read_message("room/bob/send/dance", 0, "{}"), Err(ErrorKind::UnknownTopic)));
    assert!(matches!(read_message("nonsense", 0, "{"), Err(ErrorKind::UnknownTopic)));
    assert!(matches!(read_message("room/bob/send/join", 0, "{"), Err(ErrorKind::Decode)));
    assert!(matches!(read_message("room/bob/send/join", 0, "{}"), Err(ErrorKind::Decode)));
    assert!(matches!(read_message("room/bob/send/join", 0, r#"{"room":1}"#), Ok(_)));
}
