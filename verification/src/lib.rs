//! One overlay session over many TCP+TLS paths: the decisions, without the I/O.
//!
//! All times are whole microseconds on one monotonic clock unless a name ends
//! in `_ms`. Functions that need the time take it as an argument.

pub mod accuracy;
pub mod actors;
pub mod blocked;
pub mod casebook;
pub mod cfg;
pub mod chance;
pub mod closing;
pub mod dispatch;
pub mod double;
pub mod early;
pub mod failover;
pub mod faults;
pub mod frames;
pub mod health;
pub mod harness;
pub mod scenarios;
pub mod hol;
pub mod impair;
pub mod inbound;
pub mod ledger;
pub mod lifecycle;
pub mod maps;
pub mod memory;
pub mod metrics;
pub mod mixed;
pub mod num;
pub mod opening;
pub mod outbound;
pub mod outlier;
pub mod packet_wan;
pub mod path;
pub mod pipe;
pub mod pool;
pub mod quiet;
pub mod recv;
pub mod replies;
pub mod report;
pub mod resend;
pub mod rollup;
pub mod sched;
pub mod send;
pub mod sending;
pub mod session;
pub mod snapshot;
pub mod stall;
pub mod steer;
pub mod stream;
pub mod sweep;
pub mod table;
pub mod text;
pub mod tls;
pub mod tried;
pub mod tuning;
pub mod upkeep;
pub mod verdicts;
pub mod window;
pub mod wire;
pub mod workload;
