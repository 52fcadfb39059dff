//! Audits a set of translation catalogues against one of them.

#![allow(unused_imports)]

pub mod text;
pub mod library;
pub mod message;
pub mod catalogue;
pub mod locale;
pub mod audit;
pub mod identify;
pub mod layout;
pub mod scan;
pub mod cli;
pub mod tool;
