//! Session and document-cache layer for a competition scorecard service,
//! together with the group assignment engine used to split a round's
//! competitors into check-in groups.

pub mod common;
pub mod directory;
pub mod error;
pub mod grouping;
pub mod html;
pub mod keyed;
pub mod session;
pub mod text;
