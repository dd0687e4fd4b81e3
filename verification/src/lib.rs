//! Parsing core for `.eml` messages.
//!
//! `mailparse` reads a message's header block and MIME structure; everything
//! this library then decides about the message is verified here: the repair of
//! an unterminated header block, transfer and charset decoding, the header
//! table, the body-versus-attachment rule, the warnings a lossy parse records,
//! and the four views of a message -- full, metadata, lazy and tree.
//!
//! | module | what is in it |
//! |---|---|
//! | `model` | a parsed message as plain values, and reading it out of `mailparse` |
//! | `retained` | where a deferred part's bytes live |
//! | `scan`, `qp`, `decode` | byte scans, quoted-printable, base64 and charsets |
//! | `parts`, `envelope`, `warning` | what a part is, the envelope, the warnings |
//! | `flat`, `metadata`, `lazy`, `tree` | the four views of a message |
//! | `api` | error classes, strict mode, modes, and batches |
//! | `leaves` | a message's largest leaf |
//! | `laws` | what holds across the views of one read message |
//! | `agree` | what two reads of one buffer share, and so two calls on one payload |

mod bridge;
pub mod text;
pub mod error;
pub mod retained;
pub mod scan;
pub mod qp;
pub mod decode;
pub mod model;
pub mod parts;
pub mod warning;
pub mod envelope;
pub mod flat;
pub mod metadata;
pub mod lazy;
pub mod tree;
pub mod api;
pub mod leaves;
pub mod agree;
pub mod laws;
