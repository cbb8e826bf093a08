//! Off-chain core of a consumer/provider micropayment channel: receipt
//! pools on the sending side, voucher aggregation on the receiving side,
//! and the fixed-layout codec shared by both.
pub mod codec;
pub mod ledger;
pub mod pool;
pub mod receiver;
pub mod sender;
pub mod u256;
pub mod voucher;
pub mod zkp;
