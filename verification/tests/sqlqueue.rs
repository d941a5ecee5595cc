use erps::sqlqueue::{backoff_ms, status_statement, Pushed, SqlBuffer, SqlOp};

fn score(user: &str) -> SqlOp {
    SqlOp::UpdateScore { user: user.to_string(), mode: "ng1v1".to_string(), score: 1, wins: 0, losses: 0 }
}

fn status(user: &str) -> SqlOp {
    SqlOp::SetStatus { user: user.to_string(), online: true }
}

fn tag(op: &SqlOp) -> String {
    match op {
        SqlOp::UpsertUser { user, .. } => format!("upsert {}", user),
        SqlOp::SetStatus { user, .. } => format!("status {}", user),
        SqlOp::UpdateScore { user, .. } => format!("score {}", user),
        SqlOp::InsertGame { game, .. } => format!("game {}", game),
        SqlOp::Relay { topic, .. } => format!("relay {}", topic),
    }
}

fn tags(b: &SqlBuffer) -> Vec<String> {
    b.pending.iter().map(tag).collect()
}

#[test]
fn writes_leave_in_the_order_they_came() {
    let mut b = SqlBuffer::new(3);
    assert_eq!(b.push(status("a")).0, Pushed::Stored);
    assert_eq!(b.push(score("b")).0, Pushed::Stored);
    assert_eq!(b.push(status("c")).0, Pushed::Stored);
    assert_eq!(b.len(), 3);
    assert_eq!(b.pop().map(|o| tag(&o)), Some("status a".to_string()));
    assert_eq!(b.pop().map(|o| tag(&o)), Some("score b".to_string()));
    assert_eq!(b.pop().map(|o| tag(&o)), Some("status c".to_string()));
    assert!(b.pop().is_none());
}

#[test]
fn full_buffer_drops_the_oldest_score_update() {
    let mut b = SqlBuffer::new(3);
    b.push(status("a"));
    b.push(score("b"));
    b.push(score("c"));
    let (pushed, back) = b.push(status("d"));
    assert_eq!(pushed, Pushed::Replaced);
    assert!(back.is_none());
    assert_eq!(tags(&b), vec!["status a", "score c", "status d"]);
    assert_eq!(b.push(score("e")).0, Pushed::Replaced);
    assert_eq!(tags(&b), vec!["status a", "status d", "score e"]);
}

#[test]
fn full_buffer_of_account_writes_blocks_and_hands_the_write_back() {
    let mut b = SqlBuffer::new(2);
    b.push(status("a"));
    b.push(SqlOp::UpsertUser { user: "b".to_string(), hero: "h".to_string(), honor: 50 });
    let (pushed, back) = b.push(SqlOp::InsertGame {
        game: 4,
        mode: "m".to_string(),
        team_a_won: true,
        started_at: 1,
        ended_at: 2,
    });
    assert_eq!(pushed, Pushed::Blocked);
    assert_eq!(back.map(|o| tag(&o)), Some("game 4".to_string()));
    assert_eq!(tags(&b), vec!["status a", "upsert b"]);
    let (pushed, back) = b.push(score("c"));
    assert_eq!(pushed, Pushed::Dropped);
    assert!(back.is_none());
    assert_eq!(tags(&b), vec!["status a", "upsert b"]);
}

#[test]
fn buffer_without_room_stores_nothing() {
    let mut b = SqlBuffer::new(0);
    assert_eq!(b.push(score("a")).0, Pushed::Dropped);
    assert_eq!(b.push(status("a")).0, Pushed::Blocked);
    assert_eq!(b.len(), 0);
}

#[test]
fn only_score_updates_may_be_dropped() {
    assert!(!score("a").is_critical());
    assert!(status("a").is_critical());
    assert!(SqlOp::Relay { topic: "t".to_string(), payload: "p".to_string() }.is_critical());
}

#[test]
fn backoff_doubles_up_to_thirty_seconds() {
    let waits: Vec<u64> = (0..8).map(backoff_ms).collect();
    assert_eq!(waits, vec![1000, 1000, 2000, 4000, 8000, 16000, 30000, 30000]);
    assert_eq!(backoff_ms(1000), 30000);
}

#[test]
fn status_statement_is_the_update_of_the_user_table() {
    assert_eq!(
        status_statement("alice", false).as_deref(),
        Some("update user set status='offline' where userid='alice';")
    );
    assert_eq!(
        status_statement("bob-2", true).as_deref(),
        Some("update user set status='online' where userid='bob-2';")
    );
}

#[test]
fn there_is_no_statement_for_what_is_not_an_identifier() {
    for user in ["x' or '1'='1", "a'", "a\\'", "", "a;b", "a b", "-a", "a-", "a--b", "é"] {
        assert_eq!(status_statement(user, false), None, "{}", user);
    }
}
