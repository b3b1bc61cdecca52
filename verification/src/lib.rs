//! The K/V cache of a transformer's decoder: what is stored, what is evicted, and what is read.
//!
//! A layer's cache (`kv_cache`) holds rows of bytes per position and head, in one of several stored
//! formats, and grows (`append`), shrinks (`compaction`) and is blended (`merge`) without anyone
//! looking inside a row. What a row means as numbers is the business of a coder (`codec`).
//!
//! A technique changes a layer in one transaction (`cache_handle`). Policies plan (`eviction`,
//! `stage_registry`), the engine applies their plans to all layers (`policy_run`) when memory runs
//! short (`pressure`, `cache_manager`), and a selector picks among candidates by how little each
//! would change the model's output (`selector`). The formats a model reads through are
//! `standard_format` and `quant_format`; `attention`, `prefill` and `selective_read` decide which
//! elements a step reads.
//!
//! Numbers of single precision appear as their bit patterns. Where arithmetic on them decides, it
//! comes in through a trait whose methods promise nothing, and contracts say which answers were used
//! for what.

pub mod append;
pub mod arith;
pub mod attention;
pub mod cache_handle;
pub mod cache_manager;
pub mod clock;
pub mod codec;
pub mod compaction;
pub mod dequant;
pub mod descriptor;
pub mod dtype;
pub mod eviction;
pub mod format_apply;
pub mod json;
pub mod keep;
pub mod keep_sets;
pub mod keepset_dump;
pub mod kv_cache;
pub mod merge;
pub mod offload;
pub mod operands;
pub mod policy_run;
pub mod prefill;
pub mod pressure;
pub mod quant_format;
pub mod quant_window;
pub mod quant_window_cuda;
pub mod rows;
pub mod score_bits;
pub mod score_fed;
pub mod selected_attention;
pub mod selective_read;
pub mod selector;
pub mod selector_apply;
pub mod selector_carry;
pub mod selector_decide;
pub mod selector_plan;
pub mod selector_pool;
pub mod snapshot;
pub mod spill;
pub mod squeeze_budget;
pub mod stage_registry;
pub mod standard_format;
pub mod swap;
pub mod text;
pub mod window;
pub mod window_pass;
pub mod window_selfcheck;
