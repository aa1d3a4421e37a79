//! Front end and storage layer of a branching-dialogue script language:
//! a multi-file symbol resolver with its checks, an attribute pass, and a
//! compressed, randomly addressable store of acts.

pub mod codec;
pub mod compiler;
pub mod error;
pub mod keys;
pub mod laws;
pub mod model;
pub mod store;
pub mod table;
