//! Event-driven simulation of a notification server whose decisions are
//! verified: the time-ordered event queue and the state machine that handles
//! each event.

pub mod event;
pub mod queue;
pub mod sim;
pub mod histogram;
