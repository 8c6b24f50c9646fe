pub mod buckets;
pub mod engine;
pub mod files;
pub mod prompts;
pub mod snapshot;
pub mod text;
pub mod title;
