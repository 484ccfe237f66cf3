//! NTP time synchronization: the packet codec, the filter and its regression,
//! source selection, the discipline loop, the server's client table and reply
//! rules, authentication, the durable state store, and the grammars of options
//! and configuration, each with its contract.

pub mod api;
pub mod arith;
pub mod client;
pub mod client_laws;
pub mod clock_laws;
pub mod config;
pub mod config_laws;
pub mod control;
pub mod discipline;
pub mod discipline_laws;
pub mod entry_log;
pub mod exchange;
pub mod exchange_laws;
pub mod fading;
pub mod filter;
pub mod fit_laws;
pub mod flags;
pub mod gateway;
pub mod hasher;
pub mod hex;
pub mod ke;
pub mod loop_laws;
pub mod natural;
pub mod ntp;
pub mod nts_fields;
pub mod nts_laws;
pub mod nts_session;
pub mod numbers;
pub mod policy;
pub mod policy_laws;
pub mod query;
pub mod query_options;
pub mod ranking;
mod recency;
pub mod reals;
pub mod refclock;
pub mod refclock_laws;
pub mod regression;
pub mod regression_laws;
pub mod replica;
pub mod reply;
pub mod reply_laws;
pub mod sealing;
pub mod select;
pub mod select_laws;
pub mod serve_options;
pub mod server;
pub mod service;
pub mod setting_laws;
pub mod slew;
pub mod spike_laws;
pub mod steering_laws;
pub mod store;
pub mod store_laws;
pub mod surface_laws;
pub mod sync_loop;
pub mod sync_options;
pub mod text;
pub mod vclock;
pub mod wide;
pub mod wire;
pub mod wire_laws;
