//! Core of an SNMP v2c manager: object identifiers, the object value model,
//! the BER wire format of v2c messages, reply validation, GET-BULK filtering
//! and the timeout/retry policy of one request/reply exchange.
pub mod error;
pub mod oid;
pub mod value;
pub mod message;
pub mod exchange;
pub mod ber;
pub mod codec;
pub mod query;
