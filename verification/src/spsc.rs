pub mod bounded;
