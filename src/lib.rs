//! Retention and eligibility rules for rotating ZFS snapshots: parsing
//! `zfs list` output, choosing the snapshots of a filesystem under a naming
//! scheme, ordering them by age, and deciding what a run creates and
//! destroys.
pub mod retention;
pub mod text;
pub mod zfs;

pub use retention::{arranged_by_age, excess, older, sorted_by_age};
pub use text::{
    chars_of, parse_i64_or_zero, parse_usize_or_zero, split_fields, starts_with, str_less,
};
pub use zfs::{
    eval, lemma_parse_deterministic, parse_listing, parsed_from, str2fs, FsType, Zfs, ZfsError,
    FS,
};
