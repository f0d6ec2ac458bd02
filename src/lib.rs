//! A selective-disclosure document engine.
//!
//! An envelope is a tree whose every node is identified by a digest. Subtrees
//! can be elided, encrypted or compressed without changing the digest of the
//! node they stand for, or of any ancestor; inclusion proofs let a verifier
//! confirm that content is present under a known root digest.
use vstd::prelude::*;

pub mod digest;
pub mod tree;
pub mod envelope;
pub mod assertion_set;
pub mod obscure;
pub mod action;
pub mod error;
pub mod inclusion;
pub mod codec;
pub mod crypt;
pub mod salt;
pub mod signature;
pub mod sskr;

pub use envelope::Envelope;
pub use error::Error;
pub use action::{Action, Direction, obscure};
pub use inclusion::{make_proof, verify_proof};
pub use codec::{encode_envelope, decode_envelope};
pub use sskr::sskr_join;
