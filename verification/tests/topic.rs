use erps::topic::{
    classify, mentions_reset, request_topic, response_topic, subscription, Category, EventKind,
    KIND_COUNT,
};

#[test]
fn classify_member_login() {
    assert_eq!(classify("member/alice/send/login"), Some((EventKind::Login, "alice".to_string())));
}

#[test]
fn classify_server_login_is_its_own_kind() {
    assert_eq!(classify("server/0/send/login"), Some((EventKind::ServerLogin, "0".to_string())));
}

#[test]
fn classify_heartbeat_is_a_response_topic() {
    assert_eq!(classify("server/0/res/heartbeat"), Some((EventKind::Heartbeat, "0".to_string())));
    assert_eq!(classify("server/0/send/heartbeat"), None);
}

#[test]
fn classify_keeps_hyphens_inside_the_id() {
    assert_eq!(
        classify("room/936da01f-9abd-4d9d/send/create"),
        Some((EventKind::Create, "936da01f-9abd-4d9d".to_string()))
    );
}

#[test]
fn classify_rejects_hyphens_at_the_edges_of_the_id() {
    assert_eq!(classify("room/-abc/send/create"), None);
    assert_eq!(classify("room/abc-/send/create"), None);
    assert_eq!(classify("room/a--b/send/create"), None);
    assert_eq!(classify("room//send/create"), None);
}

#[test]
fn classify_tells_leave_of_room_from_leave_of_game() {
    assert_eq!(classify("room/r1/send/leave"), Some((EventKind::Leave, "r1".to_string())));
    assert_eq!(classify("game/g1/send/leave"), Some((EventKind::GameLeave, "g1".to_string())));
}

#[test]
fn classify_tells_prestart_from_prestart_get() {
    assert_eq!(classify("room/u/send/prestart"), Some((EventKind::Prestart, "u".to_string())));
    assert_eq!(classify("room/u/send/prestart_get"), Some((EventKind::PrestartGet, "u".to_string())));
}

#[test]
fn classify_tells_choose_from_choose_hero() {
    assert_eq!(classify("game/u/send/choose"), Some((EventKind::Choose, "u".to_string())));
    assert_eq!(classify("member/u/send/choose_hero"), Some((EventKind::ChooseHero, "u".to_string())));
}

#[test]
fn classify_rejects_a_verb_under_the_wrong_category() {
    assert_eq!(classify("member/u/send/create"), None);
    assert_eq!(classify("room/u/send/login"), None);
    assert_eq!(classify("manager/u/send/game_over"), None);
}

#[test]
fn classify_rejects_unknown_and_malformed_topics() {
    assert_eq!(classify(""), None);
    assert_eq!(classify("member/u/send"), None);
    assert_eq!(classify("member/u/send/login/extra"), None);
    assert_eq!(classify("member/u/res/login"), None);
    assert_eq!(classify("member/u/send/dance"), None);
    assert_eq!(classify("prefix member/u/send/login"), None);
    assert_eq!(classify("member/ü/send/login"), None);
    assert_eq!(classify("member/a b/send/login"), None);
}

#[test]
fn every_kind_round_trips_through_its_topic() {
    for i in 0..KIND_COUNT {
        let kind = EventKind::at(i);
        let topic = request_topic(kind, "user-42");
        assert_eq!(classify(&topic), Some((kind, "user-42".to_string())), "{}", topic);
    }
}

#[test]
fn kinds_of_the_table_are_all_different() {
    for i in 0..KIND_COUNT {
        for j in 0..KIND_COUNT {
            assert_eq!(EventKind::at(i) == EventKind::at(j), i == j);
        }
    }
}

#[test]
fn response_topic_mirrors_the_request() {
    assert_eq!(response_topic(EventKind::Login, "alice"), "member/alice/res/login");
    assert_eq!(response_topic(EventKind::Create, "alice"), "room/alice/res/create");
    assert_eq!(request_topic(EventKind::Create, "alice"), "room/alice/send/create");
}

#[test]
fn subscription_covers_every_id() {
    assert_eq!(subscription(EventKind::Heartbeat), "server/+/res/heartbeat");
    assert_eq!(subscription(EventKind::GameOver), "game/+/send/game_over");
    assert_eq!(subscription(EventKind::ModifyUserEqu), "manager/+/send/modify_userequ");
}

#[test]
fn categories_have_their_names() {
    assert_eq!(Category::Member.name_text(), "member");
    assert_eq!(Category::Manager.name_text(), "manager");
    assert_eq!(EventKind::RankgameStatus.category_of(), Category::Game);
    assert_eq!(EventKind::RankgameStatus.verb_text(), "rankgame_status");
}

#[test]
fn reset_is_asked_for_by_any_topic_that_holds_the_word() {
    assert!(mentions_reset("reset"));
    assert!(mentions_reset("server/0/send/reset"));
    assert!(mentions_reset("xxresetxx"));
    assert!(mentions_reset("rreset"));
    assert!(mentions_reset("résumé/reset"));
    assert!(!mentions_reset("rese"));
    assert!(!mentions_reset("reseT"));
    assert!(!mentions_reset("res/et"));
    assert!(!mentions_reset(""));
    assert!(!mentions_reset("member/u/send/login"));
}
