//! Component values over wRPC.
//!
//! A component's functions are called with values and return values. This crate
//! is the codec that carries them: how a value of a component model type becomes
//! bytes and how bytes become a value, what happens to the resources and streams
//! within it, and the rules by which a call is served.
//!
//! - [`types`], [`val`]: the types and the values.
//! - [`encode`], [`decode`]: writing and reading them.
//! - [`buffer`], [`leb128`], [`text`], [`flags`], [`handle`]: the parts of the
//!   wire format.
//! - [`shared`]: the table of resources that peers know by handles.
//! - [`params`], [`results`], [`call`]: the parameters, the results and the course
//!   of a call.
//! - [`stream`]: byte streams on either side.
//! - [`rpc`], [`items`], [`named`]: what the names and types of a component say.
//! - [`writing`], [`reading`]: what the bytes of each type are, and what they say.
//! - [`incremental`], [`attempts`], [`scope`], [`roundtrip`], [`deferral`]: what holds
//!   of reading and writing taken together.

pub mod attempts;
pub mod buffer;
pub mod call;
pub mod decode;
pub mod deferral;
pub mod encode;
pub mod error;
pub mod flags;
pub mod handle;
pub mod incremental;
pub mod items;
pub mod leb128;
pub mod named;
pub mod params;
pub mod reading;
pub mod results;
pub mod roundtrip;
pub mod rpc;
pub mod scope;
pub mod shared;
pub mod stream;
pub mod text;
pub mod types;
pub mod val;
pub mod writing;

pub use call::CallError;
pub use decode::read_value;
pub use encode::ValEncoder;
pub use items::{
    collect_component_resource_exports, collect_component_resource_imports,
    collect_instance_resource_exports, collect_item_resource_exports,
};
pub use rpc::rpc_func_name;
pub use shared::SharedResourceTable;
