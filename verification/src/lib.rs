//! Value graphs with shared and cyclic parts, written to and read from
//! plain trees in which numbered markers stand for repeated nodes.

pub mod bridge;
pub mod deflate;
pub mod error;
pub mod graft;
pub mod graph;
pub mod identity;
pub mod inflate;
pub mod keys;
pub mod members;
pub mod number;
pub mod numbering;
pub mod rebuild;
pub mod rekey;
pub mod roundtrip;
pub mod sharing;
pub mod text;
pub mod tree;

pub use bridge::{from_json, to_json};
pub use deflate::{deflate, deflate_bounded};
pub use error::CodecError;
pub use graph::{
    new_array, new_bool, new_null, new_number, new_object, new_string, GArray, GNode, GObject,
    GraphValue,
};
pub use inflate::inflate;
pub use keys::is_escape_key;
pub use number::MAX_REF_ID;
pub use text::{dumps, loads, parse};
pub use tree::JsonValue;
