pub mod collections;
