pub mod address;
pub mod args;
pub mod combine;
pub mod error;
pub mod generate;
pub mod gpwascii;
pub mod number;
pub mod options;
pub mod record;
pub mod serve;
pub mod text;
pub mod tree;
