//! Coordination core of a matchmaking and room-lifecycle service that talks
//! to its clients over a publish/subscribe broker.
//!
//! A message arrives on a topic and carries a payload. The topic says what
//! kind of request it is and who sends it ([`topic`]), the payload says the
//! rest ([`payload`]). The request goes to the engine ([`engine`]), the one
//! owner of the world model ([`world`], [`model`]): users, rooms, the queue
//! and the games. A scheduler tick ([`ticking`]) draws waiting parties into
//! matches ([`matchmaking`], [`seeding`]) and withdraws proposals that were
//! not accepted in time ([`prestart`]). A finished game changes the ratings
//! of its players ([`scoring`], [`rating`]). What holds of every request is
//! stated in [`laws`].
//!
//! Around the engine stand the supervisor of a standby instance
//! ([`supervisor`]), the buffer of the database worker ([`sqlqueue`]), the
//! settings ([`config`]) and the outbound message ([`msg`]).

pub mod config;
pub mod engine;
pub mod event_member;
pub mod ident;
pub mod laws;
pub mod matchmaking;
pub mod members;
pub mod model;
pub mod msg;
pub mod pairing;
pub mod payload;
pub mod prestart;
pub mod queries;
pub mod queue;
pub mod rating;
pub mod rooms;
pub mod scoring;
pub mod seeding;
pub mod sqlqueue;
pub mod supervisor;
pub mod ticking;
pub mod topic;
pub mod world;
