//! Verified building blocks of the Beeline L7 fast path: the HTTP/1.1 and
//! HTTP/2 pattern DFAs that are compiled into the data plane, together with
//! the configuration logic around them.

pub mod text;
pub mod net;
pub mod ipv6;
pub mod config;
pub mod compiler;
pub mod policy;
pub mod forwarding;
pub mod parser;
pub mod lb;
pub mod upstream;
pub mod downstream;
pub mod lb_router;
pub mod dataplane;
pub mod services;
pub mod http_head;
pub mod laws;
pub mod ids;
pub mod h1;
pub mod h2;
pub mod transition;
pub mod matcher;
pub mod table;
pub mod naive;
pub mod baseline;
