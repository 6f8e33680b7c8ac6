//! Offline-first synchronisation: the rules of a sync server, and a deterministic simulator that
//! runs them against an unreliable world.
//!
//! State flows down as an ordered log of changes that a device walks with a cursor; commands flow
//! up and are answered once. Nothing in this crate reads a clock, opens a socket or touches a
//! disk. Where the work has to wait for something outside, a function takes what has happened and
//! says what to do next, and the caller does it.
//!
//! The server: [`auth`] and [`request`] decide who may read what, [`blocklist`] cuts a scope at
//! once, [`version`] negotiates the protocol, [`pull`] fills batches under a byte budget, [`db`]
//! decides around the database, and [`dedupe`] and [`host`] see to it that a command has one
//! outcome.
//!
//! The simulator: [`rng`] (over [`lcg`]) is where all chance comes from, [`fault`] and [`pressure`]
//! are what it decides, [`clock`], [`storage`] and [`transport`] are a device's surroundings,
//! [`server`] is a server with a log in memory, [`network`], [`world`] and [`turn`] run the whole,
//! [`trace`] records it, [`invariants`] holds claims against it, [`drive`] is the order of a run and
//! of a batch, and [`cli`] is its command line.
//!
//! What is promised of the whole is proved in [`auth_laws`], [`server_laws`], [`pull_laws`],
//! [`walk_laws`], [`bootstrap_laws`], [`check_laws`], [`claim_laws`], [`sim_laws`], [`world_laws`] and
//! [`run_laws`], and beside the functions it is about.
pub mod auth;
pub mod auth_laws;
pub mod blocklist;
pub mod bootstrap_laws;
pub mod check_laws;
pub mod claim_laws;
pub mod cli;
pub mod clock;
pub mod codec;
pub mod db;
pub mod dedupe;
pub mod drive;
pub mod error;
pub mod fault;
pub mod host;
pub mod invariants;
pub mod lcg;
pub mod network;
pub mod ordered;
pub mod pressure;
pub mod protocol;
pub mod pull;
pub mod pull_laws;
pub mod request;
pub mod rng;
pub mod run_laws;
pub mod server;
pub mod server_laws;
pub mod sim_laws;
pub mod storage;
pub mod text;
pub mod trace;
pub mod transport;
pub mod turn;
pub mod version;
pub mod walk_laws;
pub mod world;
pub mod world_laws;
