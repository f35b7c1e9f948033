pub mod fields;
