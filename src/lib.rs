//! Provisioning engine for bootable images: configuration model, partition
//! planning, block-aligned disk I/O, target-tree population, package source
//! selection and account records.
pub mod config;
pub mod disk;
pub mod install;
pub mod package;
pub mod partition;
pub mod tree;
pub mod users;
