//! A software memory scrubber: walks every cache line of a set of address
//! regions in cache-set-major order, so that ECC hardware gets a chance to
//! detect and correct latent single-bit errors in every line, with equal
//! coverage for every cache set.

mod engine;
mod engine_faulty;
mod errors;
mod geometry;
mod laws;
mod parse;
mod region;
mod traversal;

pub use engine::CachelineReader;
pub use engine::MemoryScrubber;
pub use engine::MyCacheDesc;
pub use engine_faulty::FaultyCacheDesc;
pub use errors::ConstructionError;
pub use errors::ScrubError;
pub use geometry::checked_pow2;
pub use geometry::geometry_ok;
pub use geometry::pow2_usize;
pub use geometry::set_of_addr;
pub use geometry::spec_cacheline_size;
pub use geometry::spec_num_sets;
pub use laws::lemma_construction_deterministic;
pub use laws::lemma_full_cycle_touches_every_line;
pub use laws::lemma_scrub_resumable;
pub use laws::lemma_set_fairness;
pub use parse::all_hex;
pub use parse::hex_digit_value;
pub use parse::hex_value;
pub use parse::is_hex_digit;
pub use parse::parse_hex_token;
pub use parse::parse_scrub_area;
pub use parse::spec_parse_area;
pub use parse::spec_parse_hex;
pub use parse::strip_hex_prefix;
pub use region::ScrubArea;
pub use region::lemma_regions_error_none;
pub use region::region_len;
pub use region::region_lines;
pub use region::region_valid;
pub use region::regions_valid;
pub use region::spec_region_error;
pub use region::spec_regions_error;
pub use region::validate_regions;
pub use traversal::all_lines;
pub use traversal::in_set;
pub use traversal::lemma_cycle_is_permutation;
pub use traversal::lemma_total_bytes_lines;
pub use traversal::lemma_traversal_len;
pub use traversal::region_line_addrs;
pub use traversal::region_set_lines;
pub use traversal::seq_matches;
pub use traversal::set_sweep;
pub use traversal::size_in_cachelines;
pub use traversal::total_bytes;
pub use traversal::total_lines;
pub use traversal::traversal;
