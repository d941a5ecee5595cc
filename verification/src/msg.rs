//! The unit that travels on the outbound queue: a topic, a payload, and the
//! moment the message was made.

use std::time::SystemTime;
use vstd::prelude::*;

verus! {

/// `std::time::SystemTime`, carried through without looking inside.
#[verifier::external_type_specification]
#[verifier::external_body]
pub struct ExSystemTime(SystemTime);

/// `SystemTime::clone`: a `SystemTime` is `Copy`, and its clone is the value itself.
pub assume_specification[ <SystemTime as Clone>::clone ](t: &SystemTime) -> (r: SystemTime)
    ensures
        r == *t,
;

/// One outbound publish.
#[derive(Clone, Debug)]
pub struct MqttMsg {
    pub topic: String,
    pub msg: String,
    pub time: SystemTime,
}

/// `SystemTime::now`: the reading of the system clock. Nothing is known of it.
#[verifier::external_body]
fn clock_now() -> (t: SystemTime) {
    SystemTime::now()
}

impl MqttMsg {
    /// A message for `topic` with payload `msg`, made at `time`.
    pub fn stamped(topic: String, msg: String, time: SystemTime) -> (m: MqttMsg)
        ensures
            m.topic == topic,
            m.msg == msg,
            m.time == time,
    {
        MqttMsg { topic, msg, time }
    }

    /// A message for `topic` with payload `msg`, stamped with the reading of
    /// the clock that the call takes.
    pub fn new(topic: String, msg: String) -> (m: MqttMsg)
        ensures
            m.topic == topic,
            m.msg == msg,
    {
        MqttMsg::stamped(topic, msg, clock_now())
    }

    /// Whether a publisher should hand this message to the broker: topics of
    /// two bytes or fewer are placeholders and are never sent.
    pub fn is_publishable(&self) -> (b: bool)
        ensures
            b == (vstd::utf8::encode_utf8(self.topic@).len() > 2),
    {
        self.topic.as_str().as_bytes().len() > 2
    }
}

impl Default for MqttMsg {
    /// The empty message: no topic, no payload, stamped with the reading of
    /// the clock that the call takes.
    fn default() -> (m: MqttMsg)
        ensures
            m.topic@ == Seq::<char>::empty(),
            m.msg@ == Seq::<char>::empty(),
    {
        MqttMsg::stamped(String::new(), String::new(), clock_now())
    }
}

} // verus!
