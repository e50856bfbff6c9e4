pub mod early_allocator;
pub mod hash_map;
