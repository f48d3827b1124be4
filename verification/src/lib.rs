//! Verified networking core of a sandbox daemon.

pub mod text;
pub mod path;
pub mod ordered;
pub mod table;
pub mod addr;
pub mod session;
pub mod dns;
pub mod proxy;
pub mod subnet;
pub mod policy;
pub mod switch;
pub mod dynamic_ingress;
pub mod wire;
pub mod answerer;
pub mod dns_gate;
pub mod publish;
pub mod gvproxy;
pub mod host_cohort;
pub mod enforcement;
pub mod listen_watch;
pub mod loopback;
pub mod provider;
pub mod attach;
