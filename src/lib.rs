//! A disk-resident bloom filter: the bit layout of the backing table and the
//! filter's indexing logic, with the file access left to the caller.
pub mod bitvec;
pub mod bloom_filter;
