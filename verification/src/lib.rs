//! The hub of an MQTT broker: sessions, subscriptions, deliveries, retained messages, and the
//! part of a broker in a cluster.
//!
//! A [`Hub`](hub::Hub) is a state machine. [`dispatch`](hub::Hub::dispatch) takes one command,
//! changes the state, and appends to a log what the world around the hub is asked to do: packets
//! to write, frames to send, calls to the store. What comes of a call arrives as another command.
//! The hub waits for nothing and reads no clock.
//!
//! Every type has a model, its deep view, made of sequences and plain values, and every operation
//! is described by a function on models: the hub after a command is
//! [`HubView::after`](hub::HubView::after) of the hub before it. What holds across operations is
//! stated and proved by the functions whose names begin with `law_`.
//!
//! Where to look:
//!
//! - [`dispatch`] has the commands, [`effects`] has what the hub asks for;
//! - [`attaching`], [`recovery`], [`resuming`], [`session`] and [`sweeps`] keep sessions;
//! - [`subscribing`], [`subscriptions`], [`shared`], [`topic`] say who wants what;
//! - [`delivery`], [`inflight`], [`lanes`], [`completions`], [`exactly_once`], [`qos2`] and
//!   [`retire`] bring messages to clients;
//! - [`ledger`], [`forwarding`], [`answers`], [`outcome`] see to it that a publisher is answered
//!   when it may be, and not before;
//! - [`cluster`], [`mesh`], [`interest`], [`peers`] and [`wire`] deal with other nodes;
//! - [`retained`], [`keyspace`], [`snapshot`] keep retained messages;
//! - [`policy`] and [`gauges`] have limits and numbers;
//! - [`guarantees`], [`reach`], [`upkeep`] and [`soundness`] prove what the parts promise
//!   together;
//! - [`listening`], [`hearing`], [`turns`], [`exchange`], [`acknowledging`] and [`upholding`] prove
//!   what single commands do for clients, [`arrivals`] and [`endings`] what they do to sessions,
//!   [`replies`], [`pledges`] and [`patience`] what publishers may count on, and [`neighbours`] and
//!   [`custody`] what nodes do for each other;
//! - [`assoc`], [`text`], [`ids`], [`qos`], [`message`] and [`packet`] are what the rest is made
//!   of.

use vstd::prelude::*;

pub mod acknowledging;
pub mod answers;
pub mod arrivals;
pub mod assoc;
pub mod attaching;
pub mod cluster;
pub mod completions;
pub mod custody;
pub mod delivery;
pub mod dispatch;
pub mod effects;
pub mod endings;
pub mod exactly_once;
pub mod exchange;
pub mod forwarding;
pub mod gauges;
pub mod guarantees;
pub mod hearing;
pub mod hub;
pub mod ids;
pub mod inflight;
pub mod interest;
pub mod keyspace;
pub mod lanes;
pub mod ledger;
pub mod listening;
pub mod mesh;
pub mod message;
pub mod neighbours;
pub mod outcome;
pub mod packet;
pub mod patience;
pub mod peers;
pub mod pledges;
pub mod policy;
pub mod qos;
pub mod qos2;
pub mod reach;
pub mod recovery;
pub mod replies;
pub mod resuming;
pub mod retained;
pub mod retire;
pub mod session;
pub mod shared;
pub mod snapshot;
pub mod soundness;
pub mod subscribing;
pub mod subscriptions;
pub mod sweeps;
pub mod text;
pub mod topic;
pub mod turns;
pub mod upholding;
pub mod upkeep;
pub mod wire;

verus! {

} // verus!
