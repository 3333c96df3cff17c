pub mod add;
pub mod edit;
pub mod list;
pub mod process;
