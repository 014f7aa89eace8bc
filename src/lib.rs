//! Wire-format codec of a small DNS forwarding relay: header, names with
//! compression pointers, A/IN questions and answers, and the split/merge of
//! multi-question packets.

pub mod answer;
pub mod error;
pub mod header;
pub mod name;
pub mod packet;
pub mod question;
pub mod utils;
