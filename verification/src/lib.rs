//! fastping: the core of a stateless mass ICMP-echo sweeper.
//!
//! One path sends a whole batch of echo requests, another notes the replies. The target index,
//! a validation cookie and the time of sending travel in the payload and are echoed back, so a
//! reply alone tells which host it scores and how long the round trip took. With adaptive retry
//! only the silent hosts are probed again.
//!
//! The library holds what can be computed; a program around it owns the sockets, the clock, the
//! files and the terminal. [`run::Run`] says what to do next, [`echo::validate_and_record`]
//! scores a reply, and [`report::report`] lays out the result.
pub mod text;
pub mod words;
pub mod bytes;
pub mod addr;
pub mod literal;
pub mod results;
pub mod echo;
pub mod config;
pub mod sweep;
pub mod run;
pub mod syntax;
pub mod json;
pub mod zabbix;
pub mod report;
pub mod targets;
pub mod args;
pub mod cli;
pub mod link;
pub mod ring;
pub mod route;

pub use addr::IpAddr;
pub use args::{parse_args, USAGE};
pub use config::{is_adaptive, Config, HostMode, Output};
pub use echo::{build_icmp, checksum, cookie_for, fnv1a32};
pub use echo::{HDR, ICMP4_ECHO, ICMP4_REPLY, ICMP6_ECHO, ICMP6_REPLY, MAGIC, PAYLOAD_MIN};
pub use results::Results;
pub use targets::{dedupe, Families};
