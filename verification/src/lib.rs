//! Carbon composes independently defined container service descriptors
//! into one runnable deployment file and keeps track of which services
//! were started through which generated file across invocations.
//!
//! The library holds the verified core: the document parser that splits
//! descriptor files into single-service documents, the dependency
//! resolver that closes a request over `depends_on` declarations, the
//! assembler that merges resolved documents into one deployment
//! descriptor, and the running-service ledger with its partition and
//! guard operations. Reading descriptor files, talking to the container
//! runtime and persisting the ledger live outside the library and hand
//! plain values in and out.

pub mod carbon;
pub mod compose;
pub mod container;
pub mod document;
pub mod emissions;
pub mod environment;
pub mod error;
pub mod footprint;
pub mod network;
pub mod strings;
pub mod table;
