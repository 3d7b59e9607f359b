//! Garbling a Boolean circuit while it is being built.
//!
//! A circuit is built by calls on a [`CircuitTrait`](builder::CircuitTrait):
//! fresh wires, and XOR, AND and OR gates on wires that earlier calls
//! returned. [`Streaming`](streaming::Streaming) garbles and evaluates each
//! gate as it is emitted and stores none of them; what it keeps is one label
//! and one bit per *live* wire. [`Plan`](plan::Plan) is a first pass of the
//! same build that counts how often each wire is read, so that the garbling
//! pass can release a wire's slot after its last read and give it to a later
//! wire.
pub mod adapter;
pub mod builder;
pub mod chunked;
pub mod circuit;
pub mod evaluation;
pub mod gate;
pub mod hash;
pub mod inputs;
pub mod label;
pub mod plan;
pub mod reuse;
pub mod session;
pub mod streaming;
