//! Core of a distributed ETL router: condition matching, stage buffering,
//! load balancing and the registry reducer over router commands.
pub mod record;
pub mod buffer;
pub mod stage_table;
pub mod manager;
pub mod matcher;
pub mod tally;
pub mod service;
pub mod balancer;
pub mod table;
pub mod registry;
pub mod sink;
