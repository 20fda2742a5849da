//! Request serving and payload-job bookkeeping for an execution node.
//!
//! `budget` holds the response-size rules shared by every reply to a peer,
//! `eth_requests` the traversals that answer header, body and receipt
//! requests, and `payload_service` the registry of payload-building jobs.
pub mod budget;
pub mod eth_requests;
pub mod payload_service;
