//! The optimization ladder: one module per version, each with the work of one row and the loop
//! that drives it. Every version reports the same thing.

pub mod v10;
pub mod v11;
pub mod v13;
pub mod v15;
pub mod v16;
pub mod v17;
pub mod v18;
pub mod v19;
pub mod v2;
pub mod v20;
pub mod v21;
pub mod v22;
pub mod v3;
pub mod v4;
pub mod v6;
pub mod v7;
pub mod v9;
