//! Report surface: the plain data the report writer consumes, and the
//! statistics computed over recovered files. Rendering and file output
//! happen outside the library.
//!
//! Sizes are in KiB; rates are in milli (1000 = 100%).

use vstd::prelude::*;

verus! {

/// Report header fields.
#[derive(Debug, Clone)]
pub struct ReportMetadata {
    /// Render timestamp, seconds since the epoch; ticks outside.
    pub timestamp: u64,
    pub version: String,
    pub tool_name: String,
    pub image_path: String,
    pub output_dir: String,
}

/// Whole-scan figures for the report.
#[derive(Debug, Clone, Copy, PartialEq, Eq, Structural)]
pub struct ScanSummary {
    pub image_size_kb: u64,
    pub bytes_scanned_kb: u64,
    pub candidates_found: u32,
    pub files_recovered: u32,
    pub scan_time_ms: u64,
    /// KiB per second, 0 when no time elapsed.
    pub avg_speed_kbps: u64,
    pub reverse_scan: bool,
    pub exfat_enabled: bool,
    pub nvme_optimization: bool,
}

/// How a recovered file fared.
#[derive(Debug, Clone, Copy, PartialEq, Eq, Structural)]
pub enum ValidationStatus {
    /// The file is valid.
    Valid,
    /// Minor issues, still usable.
    MinorIssues,
    /// Recovery failed validation.
    Failed,
}

/// One recovered file in the report.
#[derive(Debug, Clone)]
pub struct RecoveredFile {
    pub id: usize,
    pub filename: String,
    pub file_type: crate::types::FileType,
    /// Confidence in milli.
    pub confidence: u32,
    pub size_kb: u64,
    pub sha256: String,
    pub start_offset: u64,
    pub end_offset: u64,
    pub validation_status: ValidationStatus,
}

/// Aggregated recovery statistics.
#[derive(Debug, Clone, Copy, PartialEq, Eq, Structural)]
pub struct RecoveryStats {
    pub total_processed: u32,
    pub successful_recoveries: u32,
    pub failed_recoveries: u32,
    /// Success rate in milli.
    pub success_rate: u32,
    pub total_bytes_recovered: u64,
}

/// Paths of the rendered reports.
#[derive(Debug, Clone)]
pub struct ReportPaths {
    pub html_path: String,
    pub json_path: String,
}

/// A file counted as a success: valid or with minor issues.
pub open spec fn spec_is_success(f: &RecoveredFile) -> bool {
    f.validation_status == ValidationStatus::Valid || f.validation_status
        == ValidationStatus::MinorIssues
}

/// Number of successes among the first `n` files.
pub open spec fn spec_success_count(files: Seq<RecoveredFile>, n: int) -> nat
    decreases n,
{
    if n <= 0 {
        0
    } else {
        spec_success_count(files, n - 1) + if spec_is_success(&files[n - 1]) {
            1nat
        } else {
            0nat
        }
    }
}

/// The report builder: where the rendered files go.
#[derive(Debug, Clone)]
pub struct ProfessionalReportGenerator {
    pub output_dir: String,
}

impl ProfessionalReportGenerator {
    /// A generator rendering into `output_dir`.
    pub fn new(output_dir: String) -> (r: Self)
        ensures
            r.output_dir@ == output_dir@,
    {
        ProfessionalReportGenerator { output_dir }
    }

    /// Count successes and failures and derive the success rate in
    /// milli; byte totals saturate rather than wrap.
    pub fn calculate_recovery_stats(&self, recovered_files: &Vec<RecoveredFile>) -> (r:
        RecoveryStats)
        requires
            recovered_files@.len() <= u32::MAX,
        ensures
            r.total_processed == recovered_files@.len(),
            r.successful_recoveries == spec_success_count(
                recovered_files@,
                recovered_files@.len() as int,
            ),
            r.failed_recoveries == r.total_processed - r.successful_recoveries,
            r.total_processed > 0 ==> r.success_rate == (r.successful_recoveries as int) * 1000
                / (r.total_processed as int),
            r.total_processed == 0 ==> r.success_rate == 0,
            r.success_rate <= 1000,
    {
        let n: usize = recovered_files.len();
        let mut successes: u32 = 0;
        let mut bytes: u64 = 0;
        let mut i: usize = 0;
        while i < n
            invariant
                n == recovered_files@.len() <= u32::MAX,
                i <= n,
                successes <= i,
                successes == spec_success_count(recovered_files@, i as int),
            decreases n - i,
        {
            let f: &RecoveredFile = &recovered_files[i];
            let ok: bool = match f.validation_status {
                ValidationStatus::Valid => true,
                ValidationStatus::MinorIssues => true,
                ValidationStatus::Failed => false,
            };
            if ok {
                successes = successes + 1;
            }
            let add_kb: u64 = f.size_kb;
            bytes = if add_kb <= (u64::MAX - bytes) / 1024 {
                bytes + add_kb * 1024
            } else {
                u64::MAX
            };
            i = i + 1;
        }
        let total: u32 = n as u32;
        let rate: u32 = if total > 0 {
            proof {
                assert((successes as int) * 1000 <= (total as int) * 1000) by (nonlinear_arith)
                    requires
                        successes <= total,
                ;
                vstd::arithmetic::div_mod::lemma_div_is_ordered(
                    (successes as int) * 1000,
                    (total as int) * 1000,
                    total as int,
                );
                vstd::arithmetic::div_mod::lemma_div_multiples_vanish(1000, total as int);
                assert((total as int) * 1000 == 1000 * (total as int)) by (nonlinear_arith);
            }
            (((successes as u64) * 1000) / (total as u64)) as u32
        } else {
            0
        };
        RecoveryStats {
            total_processed: total,
            successful_recoveries: successes,
            failed_recoveries: total - successes,
            success_rate: rate,
            total_bytes_recovered: bytes,
        }
    }
}

/// Assemble the report header.
pub fn create_report_metadata(
    image_path: &str,
    output_dir: &str,
    version: &str,
    timestamp: u64,
) -> (r: ReportMetadata)
    ensures
        r.timestamp == timestamp,
        r.version@ == version@,
        r.image_path@ == image_path@,
        r.output_dir@ == output_dir@,
{
    ReportMetadata {
        timestamp,
        version: version.to_owned(),
        tool_name: String::from_str("file recovery engine"),
        image_path: image_path.to_owned(),
        output_dir: output_dir.to_owned(),
    }
}

/// Assemble the whole-scan figures; the average speed is derived from
/// the scanned bytes and the elapsed milliseconds.
pub fn create_scan_results(
    image_size_bytes: u64,
    bytes_scanned: u64,
    candidates_found: u32,
    scan_time_ms: u64,
    reverse_scan: bool,
    exfat_enabled: bool,
    nvme_optimization: bool,
) -> (r: ScanSummary)
    ensures
        r.image_size_kb == image_size_bytes / 1024,
        r.bytes_scanned_kb == bytes_scanned / 1024,
        r.candidates_found == candidates_found,
        r.files_recovered == 0,
        r.scan_time_ms == scan_time_ms,
        scan_time_ms > 0 ==> r.avg_speed_kbps == ((bytes_scanned / 1024) as int) * 1000 / (
        scan_time_ms as int),
        scan_time_ms == 0 ==> r.avg_speed_kbps == 0,
        r.reverse_scan == reverse_scan,
        r.exfat_enabled == exfat_enabled,
        r.nvme_optimization == nvme_optimization,
{
    let kb: u64 = bytes_scanned / 1024;
    let avg: u64 = if scan_time_ms > 0 {
        proof {
            vstd::arithmetic::div_mod::lemma_div_is_ordered(
                bytes_scanned as int,
                u64::MAX as int,
                1024,
            );
            assert((kb as u128) * 1000 < 0xffff_ffff_ffff_ffff_u128) by (nonlinear_arith)
                requires
                    kb <= 0xffff_ffff_ffff_ffffu64 / 1024,
            ;
        }
        let wide: u128 = (kb as u128) * 1000 / (scan_time_ms as u128);
        proof {
            assert(((kb as int) * 1000) / (scan_time_ms as int) <= (kb as int) * 1000)
                by (nonlinear_arith)
                requires
                    scan_time_ms >= 1,
                    kb >= 0,
            ;
        }
        if wide > u64::MAX as u128 {
            u64::MAX
        } else {
            wide as u64
        }
    } else {
        0
    };
    ScanSummary {
        image_size_kb: image_size_bytes / 1024,
        bytes_scanned_kb: kb,
        candidates_found,
        files_recovered: 0,
        scan_time_ms,
        avg_speed_kbps: avg,
        reverse_scan,
        exfat_enabled,
        nvme_optimization,
    }
}

} // verus!
