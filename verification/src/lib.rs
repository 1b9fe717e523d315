//! A network speed-testing library: candidate addresses are expanded
//! from CIDR lines, probed for TCP latency, HTTP reachability and
//! routing consistency, optionally download-measured, and reported as
//! a ranked CSV table.  The concurrent probe pool, the batch scanner's
//! resource manager, the per-stage records with their orders, and the
//! parsers and formatters around them live here; sockets, timers and
//! files stay with the binary built on top.
pub mod addr;
pub mod cidr;
pub mod csv;
pub mod download;
pub mod emwa;
pub mod httping;
pub mod input;
pub mod pool;
pub mod ring;
pub mod routes;
pub mod scan_http;
pub mod scan_tcp;
pub mod scanner;
pub mod sorting;
pub mod text;
pub mod utils;
