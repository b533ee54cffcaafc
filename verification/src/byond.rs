//! Helpers of the game-facing layer: 16-bit word encoding of wide integers (the game's
//! numbers hold 16-bit integers exactly), lower-case hexadecimal text, and the consistency
//! check of host process metrics.
use vstd::prelude::*;

use crate::text::{digit, digit_char, string_from_chars};

verus! {

/// The low and high 16-bit words of `value`.
pub fn split_u32_words(value: u32) -> (r: [u16; 2])
    ensures
        r@[0] == value % 0x1_0000,
        r@[1] == value / 0x1_0000,
{
    let low = (value & 0xffff) as u16;
    let high = (value >> 16) as u16;
    proof {
        assert(value & 0xffff == value % 0x1_0000) by (bit_vector);
        assert(value >> 16 == value / 0x1_0000) by (bit_vector);
    }
    [low, high]
}

/// The value whose low and high 16-bit words are `low` and `high`.
pub fn join_u32_words(low: u16, high: u16) -> (r: u32)
    ensures
        r == low + high * 0x1_0000,
{
    let r = (low as u32) | ((high as u32) << 16);
    proof {
        let (l, h) = (low as u32, high as u32);
        assert(l < 0x1_0000 && h < 0x1_0000 ==> l | (h << 16) == l + h * 0x1_0000) by (bit_vector);
    }
    r
}

/// The four 16-bit words of `value`, least significant first.
pub fn split_u64_words(value: u64) -> (r: [u16; 4])
    ensures
        r@[0] == value % 0x1_0000,
        r@[1] == (value / 0x1_0000) % 0x1_0000,
        r@[2] == (value / 0x1_0000_0000) % 0x1_0000,
        r@[3] == value / 0x1_0000_0000_0000,
{
    let w0 = (value & 0xffff) as u16;
    let w1 = ((value >> 16) & 0xffff) as u16;
    let w2 = ((value >> 32) & 0xffff) as u16;
    let w3 = (value >> 48) as u16;
    proof {
        assert(value & 0xffff == value % 0x1_0000) by (bit_vector);
        assert((value >> 16) & 0xffff == (value / 0x1_0000) % 0x1_0000) by (bit_vector);
        assert((value >> 32) & 0xffff == (value / 0x1_0000_0000) % 0x1_0000) by (bit_vector);
        assert(value >> 48 == value / 0x1_0000_0000_0000) by (bit_vector);
    }
    [w0, w1, w2, w3]
}

/// The value whose 16-bit words, least significant first, are `words`.
pub fn join_u64_words(words: [u16; 4]) -> (r: u64)
    ensures
        r == words@[0] + words@[1] * 0x1_0000 + words@[2] * 0x1_0000_0000 + words@[3] * 0x1_0000_0000_0000,
{
    let (w0, w1, w2, w3) = (words[0] as u64, words[1] as u64, words[2] as u64, words[3] as u64);
    let r = w0 | (w1 << 16) | (w2 << 32) | (w3 << 48);
    proof {
        assert(w0 < 0x1_0000 && w1 < 0x1_0000 && w2 < 0x1_0000 && w3 < 0x1_0000 ==> w0 | (w1 << 16) | (w2
            << 32) | (w3 << 48) == w0 + w1 * 0x1_0000 + w2 * 0x1_0000_0000 + w3 * 0x1_0000_0000_0000)
            by (bit_vector);
    }
    r
}

/// Splitting a 32-bit value into words and joining them gives the value back.
pub proof fn lemma_u32_words_round_trip(value: u32)
    ensures
        (value % 0x1_0000) + (value / 0x1_0000) * 0x1_0000 == value,
        value / 0x1_0000 < 0x1_0000,
{
}

/// Splitting a 64-bit value into words and joining them gives the value back.
pub proof fn lemma_u64_words_round_trip(value: u64)
    ensures
        value % 0x1_0000 + ((value / 0x1_0000) % 0x1_0000) * 0x1_0000 + ((value / 0x1_0000_0000) % 0x1_0000)
            * 0x1_0000_0000 + (value / 0x1_0000_0000_0000) * 0x1_0000_0000_0000 == value,
        value / 0x1_0000_0000_0000 < 0x1_0000,
{
    assert(value % 0x1_0000 + ((value / 0x1_0000) % 0x1_0000) * 0x1_0000 + ((value / 0x1_0000_0000) % 0x1_0000)
        * 0x1_0000_0000 + (value / 0x1_0000_0000_0000) * 0x1_0000_0000_0000 == value) by (bit_vector);
    assert(value / 0x1_0000_0000_0000 < 0x1_0000) by (bit_vector);
}

/// The lower-case hexadecimal text of `bytes`, two digits per byte, high digit first.
pub open spec fn hex_text(bytes: Seq<u8>) -> Seq<char>
    decreases bytes.len(),
{
    if bytes.len() == 0 {
        Seq::empty()
    } else {
        hex_text(bytes.drop_last()) + seq![
            digit_char((bytes.last() / 16) as int),
            digit_char((bytes.last() % 16) as int),
        ]
    }
}

/// The lower-case hexadecimal text of `bytes`, as [`hex_text`] describes.
pub fn hex_lower(bytes: &[u8]) -> (r: String)
    ensures
        r@ == hex_text(bytes@),
{
    let mut out: Vec<char> = Vec::new();
    let mut index: usize = 0;
    while index < bytes.len()
        invariant
            index <= bytes@.len(),
            out@ == hex_text(bytes@.take(index as int)),
        decreases bytes@.len() - index,
    {
        let byte = bytes[index];
        let high = byte >> 4;
        let low = byte & 0x0f;
        proof {
            assert(byte >> 4 == byte / 16) by (bit_vector);
            assert(byte & 0x0f == byte % 16) by (bit_vector);
            assert(bytes@.take(index + 1).drop_last() =~= bytes@.take(index as int));
        }
        out.push(digit(high));
        out.push(digit(low));
        index += 1;
        proof {
            assert(out@ =~= hex_text(bytes@.take(index as int)));
        }
    }
    proof {
        assert(bytes@.take(index as int) =~= bytes@);
    }
    string_from_chars(out.as_slice())
}

/// Availability flag of the private-bytes sample.
pub const PROCESS_PRIVATE_BYTES_AVAILABLE: u32 = 1;

/// Availability flag of the virtual-bytes sample.
pub const PROCESS_VIRTUAL_BYTES_AVAILABLE: u32 = 2;

/// Availability flag of the working-set sample.
pub const PROCESS_WORKING_SET_AVAILABLE: u32 = 4;

/// Availability flag of the CPU-time sample.
pub const PROCESS_CPU_AVAILABLE: u32 = 8;

/// Every availability flag.
pub const PROCESS_ALL_AVAILABLE: u32 = 15;

/// A sample of the host process's resource use; a value counts only when its availability
/// flag is set.
#[derive(Clone, Copy, Debug, Default, PartialEq, Eq)]
pub struct CurrentProcessMetrics {
    pub available_flags: u32,
    pub private_bytes: u64,
    pub virtual_bytes: u64,
    pub working_set_bytes: u64,
    pub cpu_total_milliseconds: u64,
}

/// One sampled process metric.
#[derive(Clone, Copy, Debug, PartialEq, Eq)]
pub enum ProcessMetric {
    PrivateBytes,
    VirtualBytes,
    WorkingSetBytes,
    CpuTotalMilliseconds,
}

/// Why a process metrics sample is not canonical.
#[derive(Clone, Copy, Debug, PartialEq, Eq)]
pub enum ProcessMetricsError {
    /// Flags outside the known availability flags were set; the unknown flags.
    UnknownFlags(u32),
    /// A metric was nonzero although its availability flag was clear.
    UnflaggedValue(ProcessMetric),
}

/// Whether metric `m` of `metrics` is nonzero without its availability flag.
pub open spec fn unflagged(metrics: CurrentProcessMetrics, m: ProcessMetric) -> bool {
    let (flag, value) = match m {
        ProcessMetric::PrivateBytes => (PROCESS_PRIVATE_BYTES_AVAILABLE, metrics.private_bytes),
        ProcessMetric::VirtualBytes => (PROCESS_VIRTUAL_BYTES_AVAILABLE, metrics.virtual_bytes),
        ProcessMetric::WorkingSetBytes => (PROCESS_WORKING_SET_AVAILABLE, metrics.working_set_bytes),
        ProcessMetric::CpuTotalMilliseconds => (PROCESS_CPU_AVAILABLE, metrics.cpu_total_milliseconds),
    };
    metrics.available_flags & flag == 0 && value != 0
}

/// Checks that a sample sets only known flags and reports no value without its flag. The
/// metrics are checked in the order private bytes, virtual bytes, working set, CPU time;
/// the first offending one is named.
pub fn validate_current_process_metrics(metrics: CurrentProcessMetrics) -> (r: Result<(), ProcessMetricsError>)
    ensures
        metrics.available_flags & !PROCESS_ALL_AVAILABLE != 0 ==> r == Err::<(), ProcessMetricsError>(
            ProcessMetricsError::UnknownFlags(metrics.available_flags & !PROCESS_ALL_AVAILABLE),
        ),
        metrics.available_flags & !PROCESS_ALL_AVAILABLE == 0 ==> r == if unflagged(
            metrics,
            ProcessMetric::PrivateBytes,
        ) {
            Err::<(), ProcessMetricsError>(ProcessMetricsError::UnflaggedValue(ProcessMetric::PrivateBytes))
        } else if unflagged(metrics, ProcessMetric::VirtualBytes) {
            Err::<(), ProcessMetricsError>(ProcessMetricsError::UnflaggedValue(ProcessMetric::VirtualBytes))
        } else if unflagged(metrics, ProcessMetric::WorkingSetBytes) {
            Err::<(), ProcessMetricsError>(ProcessMetricsError::UnflaggedValue(ProcessMetric::WorkingSetBytes))
        } else if unflagged(metrics, ProcessMetric::CpuTotalMilliseconds) {
            Err::<(), ProcessMetricsError>(
                ProcessMetricsError::UnflaggedValue(ProcessMetric::CpuTotalMilliseconds),
            )
        } else {
            Ok::<(), ProcessMetricsError>(())
        },
{
    let unknown = metrics.available_flags & !PROCESS_ALL_AVAILABLE;
    if unknown != 0 {
        return Err(ProcessMetricsError::UnknownFlags(unknown));
    }
    let flags = metrics.available_flags;
    if flags & PROCESS_PRIVATE_BYTES_AVAILABLE == 0 && metrics.private_bytes != 0 {
        return Err(ProcessMetricsError::UnflaggedValue(ProcessMetric::PrivateBytes));
    }
    if flags & PROCESS_VIRTUAL_BYTES_AVAILABLE == 0 && metrics.virtual_bytes != 0 {
        return Err(ProcessMetricsError::UnflaggedValue(ProcessMetric::VirtualBytes));
    }
    if flags & PROCESS_WORKING_SET_AVAILABLE == 0 && metrics.working_set_bytes != 0 {
        return Err(ProcessMetricsError::UnflaggedValue(ProcessMetric::WorkingSetBytes));
    }
    if flags & PROCESS_CPU_AVAILABLE == 0 && metrics.cpu_total_milliseconds != 0 {
        return Err(ProcessMetricsError::UnflaggedValue(ProcessMetric::CpuTotalMilliseconds));
    }
    Ok(())
}

/// Why a flat list of numbers does not hold a bounded number of fixed-size records.
#[derive(Clone, Copy, Debug, PartialEq, Eq)]
pub enum RecordLayoutError {
    /// The list length is not a multiple of the record size.
    PartialRecord { record_fields: usize },
    /// The list holds more records than allowed.
    TooManyRecords { record_count: usize, maximum_records: usize },
}

/// Checks that `value_count` values form whole records of `record_fields` values each, and
/// at most `maximum_records` of them; returns the number of records.
pub fn validate_fixed_records(value_count: usize, record_fields: usize, maximum_records: usize) -> (r: Result<
    usize,
    RecordLayoutError,
>)
    requires
        record_fields > 0 || value_count > 0,
    ensures
        record_fields == 0 || value_count % record_fields != 0 ==> r == Err::<usize, RecordLayoutError>(
            RecordLayoutError::PartialRecord { record_fields },
        ),
        record_fields > 0 && value_count % record_fields == 0 && value_count / record_fields > maximum_records
            ==> r == Err::<usize, RecordLayoutError>(
            RecordLayoutError::TooManyRecords {
                record_count: value_count / record_fields,
                maximum_records,
            },
        ),
        record_fields > 0 && value_count % record_fields == 0 && value_count / record_fields <= maximum_records
            ==> r == Ok::<usize, RecordLayoutError>(value_count / record_fields),
{
    if record_fields == 0 || value_count % record_fields != 0 {
        return Err(RecordLayoutError::PartialRecord { record_fields });
    }
    let record_count = value_count / record_fields;
    if record_count > maximum_records {
        return Err(RecordLayoutError::TooManyRecords { record_count, maximum_records });
    }
    Ok(record_count)
}

} // verus!
