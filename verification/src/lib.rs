// The key-value server core: wire codec, store, and command dispatch.
pub mod dictionary_server;
pub mod numerals;
pub mod parser;
pub mod server;

// Companion utilities: sorting, text statistics, field cutting, searching,
// hashing, balancing, and a JSON structure check.
pub mod balancer;
pub mod cutter;
pub mod githash;
pub mod grepper;
pub mod json;
pub mod merge_sort;
pub mod radix_sort;
pub mod random_sort;
pub mod textstat;
pub mod uniq;
