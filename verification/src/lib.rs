//! Verified core of a tenancy / forced-eviction-rate model for lease-based caches.
//!
//! The library holds the integer logic of the model: how a reuse interval and a
//! pair of leases decide the tenancy of an access, the tenancy histogram built
//! from those tenancies, the physical cache size (the rounded-up mean tenancy),
//! the binomial stages of the virtual-cache-size distribution, and the
//! over-allocation of a virtual cache size; the reading and writing of its csv
//! tables, the integer fields in them, and tables keyed by reference or tenancy.
pub mod lease;
pub mod vcsd;
pub mod histogram;
pub mod parse;
pub mod table;
pub mod records;
