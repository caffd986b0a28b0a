//! A DNS wire codec and the decision core of an iterative resolver.
//!
//! The codec reads and writes RFC 1035 messages on a positional byte buffer;
//! the resolver is a state machine that is handed upstream replies and says
//! which server to ask next.

pub mod assembly;
pub mod buffer;
pub mod cache;
pub mod codes;
pub mod dispatch;
pub mod dotted;
pub mod error;
pub mod header;
pub mod lookup;
pub mod name;
pub mod packet;
pub mod question;
pub mod record;
pub mod resolver;
pub mod text;

pub use buffer::BytePacketBuffer;
pub use cache::DnsCache;
pub use codes::{QueryType, ResultCode};
pub use error::DnsError;
pub use header::DnsHeader;
pub use packet::DnsPacket;
pub use question::DnsQuestion;
pub use record::DnsRecord;
