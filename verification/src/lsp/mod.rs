//! Language server support: the cross-file index and the helpers that name,
//! quote and classify what the editor is shown.

pub mod diagnostics;
pub mod hierarchy;
pub mod hints;
pub mod imports;
pub mod index;
pub mod kinds;
pub mod versions;
pub mod names;
pub mod publish;
