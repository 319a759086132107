//! Bit-level codecs for network protocol headers: a verified runtime that
//! reads and writes big-endian bit fields, the layout interpreter that gives
//! `make_struct!`/`make_enum!` definitions their meaning, and the reader of
//! those definitions.

pub mod api;
pub mod bits;
pub mod decode;
pub mod definitions;
pub mod encode;
pub mod error;
pub mod expr;
pub mod grammar;
pub mod laws;
pub mod precedence;
pub mod reading;
pub mod layout;
pub mod model;
pub mod reencode;
pub mod roundtrip;
pub mod semantics;
pub mod syntax;
pub mod utils;
pub mod validate;

pub use api::{decode, encode, parse_bits, parse_len, write_bits, NetworkParse};
pub use error::{ParseError, WriteError};
pub use layout::{Assigned, BinOp, BlockRow, EnumLayout, Expr, FieldType, IntType, Layout, Row, Rule, Value, Variant};
pub use utils::find_closing_parrent;
