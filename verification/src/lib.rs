//! Initialization subsystem of a version-control tool: a repository path
//! resolver and an initializer that lays down the canonical directory
//! skeleton and seed files, verified against a model of the filesystem.

pub mod paths;
pub mod fsmodel;
pub mod repository;
pub mod config;
pub mod init;
