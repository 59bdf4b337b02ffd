//! Verified core of an STM32 chip-data query server: the textual reports
//! that answer each query, computed from a plain model of the chip data.

pub mod text;
pub mod model;
pub mod names;
pub mod info;
pub mod order;
pub mod listings;
pub mod lookup;
pub mod peripheral;
pub mod json;
pub mod registers;
pub mod compare;
pub mod catalog;

pub use text::fmt_size;
