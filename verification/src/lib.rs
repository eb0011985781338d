//! Collects proxy connection strings from subscription bodies: unwraps their
//! base64 layers, sorts each entry into a transport category, removes
//! duplicates and cuts the result into shards of bounded size.

pub mod category;
pub mod dedupe;
pub mod encoding;
pub mod output;
pub mod pipeline;
pub mod shard;
pub mod source;
pub mod text;
pub mod transport;
