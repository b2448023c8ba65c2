//! The techniques: Naked Single and Hidden Single.
pub mod hidden_single;
pub mod naked_single;

pub use hidden_single::HiddenSingle;
pub use naked_single::NakedSingle;
