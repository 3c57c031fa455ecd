//! The decisions of a node that gossips with a cluster and synchronises with it.
//!
//! A node asks several others at once for the changes it lacks, and serves others that
//! ask it. Everything that reads, writes, waits or looks at a clock is left to the
//! caller: the functions and state machines here are told what happened and say what
//! comes next.
//!
//! - Numbers and messages: [`span`], [`range_set`], [`message`], [`error`], [`frame`],
//!   [`decode`].
//! - Asking: [`members`] chooses whom, [`greet`] and [`sync`] begin, [`requests`] and
//!   [`requester`] ask, [`receive`] counts what comes; [`asking`] says what holds of it
//!   all.
//! - Serving: [`serve`] admits a peer and writes to it, [`jobs`] turns its requests into
//!   work, [`known`] and [`chunks`] do the work for one version.
//! - The node: [`changes`] bundles what is to be applied, [`gossip`] listens and
//!   announces, [`pem`], [`roots`], [`tls`], [`config`] and [`transport`] secure
//!   the connections.
//! - [`random`] holds the choices that are left to chance.

pub mod span;
pub mod range_set;
pub mod message;
pub mod error;
pub mod frame;
pub mod decode;
pub mod random;
pub mod members;
pub mod sync;
pub mod greet;
pub mod requests;
pub mod requester;
pub mod asking;
pub mod receive;
pub mod serve;
pub mod jobs;
pub mod known;
pub mod chunks;
pub mod changes;
pub mod gossip;
pub mod pem;
pub mod roots;
pub mod tls;
pub mod config;
pub mod transport;
