pub mod clash;
