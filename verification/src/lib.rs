pub mod ballot_laws;
pub mod bits;
pub mod chain_laws;
pub mod docket;
pub mod docket_facts;
pub mod docket_laws;
pub mod errors;
pub mod flags;
pub mod hooks;
pub mod importer;
pub mod pallet;
pub mod payload;
pub mod primitives;
pub mod signature;
pub mod spam;
pub mod spam_laws;
pub mod statement_laws;
pub mod storage;
pub mod thresholds;
pub mod vote_laws;
pub mod weights;
