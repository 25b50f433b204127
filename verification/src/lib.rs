//! Dynamic ROS 2 message schemas and their Common Data Representation
//! (little-endian CDR) encoding, with the node runtime's scheduling decisions.

pub mod le;
pub mod text;
pub mod error;
pub mod field_type;
pub mod schema;
pub mod registry;
pub mod value;
pub mod encode;
pub mod decode;
pub mod runtime;
pub mod laws;
