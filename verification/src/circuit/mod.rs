//! Plain descriptions of the gates and tables that the compiled graph asks for.

pub mod lookup;
pub mod polynomial;
pub mod range;
