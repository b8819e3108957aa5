//! The logic of a local gateway in front of an upstream API.
//!
//! Clients on the same machine send their requests to the gateway with a key of their own. It
//! passes them on to the upstream with one account of a pool, tries another account where one
//! is used up, and keeps statistics of what was used.
//!
//! Nothing here touches a socket, a file or a task: that is left to the caller, who hands in
//! what was read and does what comes back.
//!
//! - [`http`] reads requests, [`gateway`] decides what becomes of them, [`relay`] writes
//!   responses.
//! - [`dispatch`] leads a request through the accounts of the pool, in the order that
//!   [`routing`] gives; [`upstream`] says what the upstream is asked and what its refusals mean.
//! - [`capture`] and [`usage`] read out of a response what it has used.
//! - [`collection`] holds the settings, [`stats`] the statistics, and [`runtime`] all that a
//!   running gateway knows.
//! - [`account`], [`target`], [`clock`], [`json`], [`table`], [`sort`] and [`text`] are what the
//!   others are built on.

pub mod account;
pub mod capture;
pub mod clock;
pub mod collection;
pub mod dispatch;
pub mod gateway;
pub mod http;
pub mod json;
pub mod relay;
pub mod routing;
pub mod runtime;
pub mod sort;
pub mod stats;
pub mod table;
pub mod target;
pub mod text;
pub mod upstream;
pub mod usage;
