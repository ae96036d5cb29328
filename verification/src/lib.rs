//! Deep Space
//!
//! Construction and canonical encoding of Cosmos SDK JSON transactions:
//! the bytes to sign and the signed, broadcast-ready document.

pub mod address;
pub mod canonical_json;
pub mod coin;
pub mod decimal;
pub mod member_order;
pub mod msg;
pub mod stdfee;
pub mod stdsigndoc;
pub mod stdtx;
pub mod uint256;
pub mod validity;
