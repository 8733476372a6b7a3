//! Portable estate records, a hash-linked estate book, a deterministic
//! model provider and the guarded plan/apply/reconcile organ.
#![allow(unused_imports)]

pub mod text;
pub mod codec;
pub mod digest;
pub mod records;
pub mod canon;
pub mod provider;
pub mod model;
pub mod table;
pub mod book;
pub mod order;
pub mod organ;
pub mod support;
pub mod callback;
pub mod rules;
