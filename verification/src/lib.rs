//! Compares sources of Solana shreds: which one delivers first, how much each one misses, and when
//! each one has delivered a whole block.

pub mod binary64;
pub mod blocks;
pub mod bytes;
pub mod clock;
pub mod config;
pub mod datagram;
pub mod decimals;
pub mod delivery;
pub mod entries;
pub mod erasure;
pub mod fec;
pub mod frames;
pub mod history;
pub mod interface;
pub mod keys;
pub mod leader;
pub mod ledger;
pub mod logfile;
pub mod monotone;
pub mod order;
pub mod pcap;
pub mod percentiles;
pub mod planning;
pub mod ranks;
pub mod reading;
pub mod reconstruction;
pub mod registry;
pub mod repair;
pub mod report;
pub mod run;
pub mod shred;
pub mod slot;
pub mod spelling;
pub mod stats;
pub mod store;
pub mod sufficiency;
pub mod table;
pub mod tally;
pub mod text;
pub mod wire;
pub mod yellowstone;
