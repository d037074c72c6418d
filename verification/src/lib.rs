//! Wire-level building blocks of a replication protocol: operations made of
//! four coordinate identifiers, a small payload of atoms and a terminator
//! marker; their canonical text form with a verified parser; and the pass
//! that groups the operations of a frame into chunks.

pub mod grammar;
pub mod terminator;
pub mod token;
pub mod atoms;
pub mod op;
pub mod chunk;
