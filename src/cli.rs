use vstd::prelude::*;

verus! {

/// The command-line settings of a run.
pub struct Cli {
    /// Input file for R1.
    pub r1: String,
    /// Input file for R2.
    pub r2: String,
    /// Output file prefix.
    pub prefix: String,
    /// Compression threads; 0 for all cores.
    pub threads: usize,
    /// How far from the start of R1 the first barcode may start.
    pub offset: usize,
    /// The configuration document.
    pub config: String,
    /// The UMI length, where the configuration sets none.
    pub umi_len: usize,
    /// Offset of the UMI from the last barcode; accepted and not used.
    pub umi_offset: usize,
    /// Exact matching instead of one mismatch.
    pub exact: bool,
    /// Keep the spacers in the canonical construct.
    pub linkers: bool,
    /// Write nothing to stderr.
    pub quiet: bool,
    /// Log level.
    pub loglevel: String,
}

/// The UMI length of a run: the configuration's where it sets one, else the command line's.
pub fn resolve_umi_len(config_umi_len: usize, cli_umi_len: usize) -> (r: usize)
    ensures
        r == if config_umi_len > 0 {
            config_umi_len
        } else {
            cli_umi_len
        },
{
    if config_umi_len == 0 {
        cli_umi_len
    } else {
        config_umi_len
    }
}

/// The longest UMI that the packed UMI histograms can hold.
pub const MAX_UMI_LEN: usize = 16;

/// Why a run cannot start.
#[derive(Debug, Clone, Copy, PartialEq, Eq)]
pub enum RunError {
    /// The UMI is longer than the packed UMI histograms can hold.
    UmiTooLong,
}

/// Accepts a UMI length that the packed UMI histograms can hold.
pub fn check_umi_len(umi_len: usize) -> (r: Result<usize, RunError>)
    ensures
        umi_len <= MAX_UMI_LEN ==> r == Ok::<usize, RunError>(umi_len),
        umi_len > MAX_UMI_LEN ==> r == Err::<usize, RunError>(RunError::UmiTooLong),
{
    if umi_len > MAX_UMI_LEN {
        Err(RunError::UmiTooLong)
    } else {
        Ok(umi_len)
    }
}

/// The input and output paths of a run, for the run log.
pub struct FileIO {
    pub readpath_r1: String,
    pub readpath_r2: String,
    pub writepath_r1: String,
    pub writepath_r2: String,
    pub whitelist_path: String,
}

/// The parameters of a run, for the run log.
pub struct Parameters {
    pub offset: usize,
    pub umi_len: usize,
    pub exact_matching: bool,
    pub write_linkers: bool,
    pub pipspeak_version: String,
}

} // verus!
