//! Parsers for the text that each platform's tools print.
//!
//! Each submodule holds the pure text parsers of one platform. The parsers
//! read nothing from the system: the caller hands them the text.

pub mod linux;
pub mod macos;
pub mod top;
pub mod windows;

pub use linux::{
    parse_cpuinfo_for_pi, parse_dmidecode_array_output, parse_dmidecode_output,
    parse_meminfo_content, parse_mobo_output,
};
