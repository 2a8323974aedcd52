//! A minimal request/response greeting library.
//!
//! The core is a single pure transformation: a [`greet::Input`] record (a
//! required name and an optional boolean flag) is turned into a
//! [`greet::Output`] record holding a greeting line. Around it stands a
//! verified JSON codec for the wire shapes, so that an invocation shell only
//! has to move raw text in and out.

pub mod codec;
pub mod greet;
