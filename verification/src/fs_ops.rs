//! Name and path string helpers: extension rewriting and output-path
//! construction for the operation drivers.
pub mod existing_checks;
pub mod path_tools;
