use erps::ident::{client_id_from, generate_client_id};
use erps::msg::MqttMsg;

#[test]
fn client_id_takes_the_first_eight_characters() {
    let id = client_id_from("936da01f-9abd-4d9d-80c7-02af85c822a8");
    assert_eq!(id, "Elo_Pub_936da01f");
}

#[test]
fn generated_client_id_has_sixteen_characters() {
    let a = generate_client_id();
    assert_eq!(a.len(), 16);
    assert!(a.starts_with("Elo_Pub_"));
    assert!(a[8..].chars().all(|c| c.is_ascii_hexdigit() && !c.is_ascii_uppercase()));
}

#[test]
fn default_message_is_empty() {
    let m = MqttMsg::default();
    assert_eq!(m.topic, "");
    assert_eq!(m.msg, "");
    assert!(!m.is_publishable());
}

#[test]
fn short_topics_are_not_published() {
    assert!(!MqttMsg::new("ab".to_string(), "x".to_string()).is_publishable());
    assert!(MqttMsg::new("abc".to_string(), "x".to_string()).is_publishable());
}

#[test]
fn the_length_of_a_topic_is_counted_in_bytes() {
    assert!(!MqttMsg::new("é".to_string(), "x".to_string()).is_publishable());
    assert!(MqttMsg::new("éa".to_string(), "x".to_string()).is_publishable());
    assert!(MqttMsg::new("€".to_string(), "x".to_string()).is_publishable());
}

#[test]
fn generated_client_id_ends_in_eight_hexadecimal_digits() {
    for _ in 0..50 {
        let id = generate_client_id();
        assert!(id[8..].chars().all(|c| matches!(c, '0'..='9' | 'a'..='f')), "{}", id);
    }
}

#[test]
fn stamped_message_carries_the_time_it_is_given() {
    let at = std::time::UNIX_EPOCH + std::time::Duration::from_millis(1234);
    let m = MqttMsg::stamped("a/b".to_string(), "{}".to_string(), at);
    assert_eq!(m.topic, "a/b");
    assert_eq!(m.msg, "{}");
    assert_eq!(m.time, at);
    let empty = MqttMsg::stamped(String::new(), String::new(), at);
    assert_eq!((empty.topic.as_str(), empty.msg.as_str(), empty.time), ("", "", at));
    assert!(!empty.is_publishable());
}

#[test]
fn message_is_stamped_with_a_reading_of_the_clock() {
    let before = std::time::SystemTime::now();
    let m = MqttMsg::default();
    let n = MqttMsg::new("abc".to_string(), "x".to_string());
    let after = std::time::SystemTime::now();
    assert!(before <= m.time && m.time <= n.time && n.time <= after);
}
