//! Verified decision logic of an in-memory cache server.
pub mod affinity;
pub mod blocking;
pub mod bytes;
pub mod cli;
pub mod client;
pub mod cluster_bus;
pub mod cluster_observe;
pub mod cluster_upgrade;
pub mod cluster_upgrade_driver;
pub mod cluster_upgrade_inventory;
pub mod coordinator;
pub mod drain;
pub mod fd_budget;
pub mod handoff;
pub mod history;
pub mod idset;
pub mod inbox;
pub mod metrics_http;
pub mod multikey;
pub mod panic_hook;
pub mod persist;
pub mod publish;
pub mod pubsub;
pub mod repl;
pub mod resp;
pub mod rolling;
pub mod seams;
pub mod server;
pub mod subscriptions;
pub mod text;
pub mod value;
