//! A DNS message codec and stub responder: decodes a query datagram (header and
//! questions, with compressed names) and encodes a response carrying one
//! synthesized address record per question.

pub mod answer;
pub mod error;
pub mod header;
pub mod message;
pub mod name;
pub mod question;
pub mod wire;
