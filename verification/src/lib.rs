//! Building blocks of the splicer: the data-segment and side-table layer of
//! the tier-2 adapter, lookup of interfaces by name, the configuration
//! provider with its wire format, and the rules of the `hello-tier1` builtin.

pub mod abi;
pub mod blob;
pub mod classify;
pub mod config_provider;
pub mod config_values;
pub mod hello_tier1;
pub mod interfaces;
pub mod le;
pub mod plan;
pub mod reloc;
pub mod sidetable;
pub mod wire_format;
