//! The host's calibration table: measured dispatch costs and device records
//! in a file that every process on the host shares.
//!
//! A table belongs to one host stamp. A process that finds a table reads it;
//! one that does not takes the writer lease, measures, and publishes. The
//! file is a header, one processor record and eight device records, all of
//! little-endian words:
//!
//! | words      | content                                              |
//! |------------|------------------------------------------------------|
//! | 0 to 15    | magic, layout, record size, version, writer, beat, stamp, device count |
//! | 16 to 31   | the processor's record                               |
//! | 32 to 415  | the devices' records, 48 words each                  |
//!
//! The magic is written last, so a half laid-out file is not taken for a
//! table. A writer makes the version odd before it touches the records and
//! even after; see [`crate::seqlock`] for why a reader that saw the same even
//! version before and after its copy has not mixed two records.

use crate::math::{median, min_int, sort_ascending, ascending};
use crate::text::{
    decimal, fits_hex, hex_digits, lemma_decimal_ends, lemma_hex_tells_apart, lemma_hex_width, put,
    put_decimal, put_hex,
};
use vstd::prelude::*;
use vstd::utf8::encode_utf8;

verus! {

/// First word pair of a table.
pub const CALIBRATION_MAGIC: u64 = 0x464C_4342_0000_0001;

/// Layout and probe-set version.
pub const LAYOUT_VERSION: u32 = 4;

/// Devices in a table.
pub const MAX_ACCEL: usize = 8;

/// Beats that a writer may miss before its lease is taken.
pub const LEASE_GRACE_EPOCHS: u64 = 2;

/// No process holds the writer lease.
pub const NO_WRITER: u32 = 0;

/// Spread of the samples, in thousandths of their median, above which a
/// record describes the load as much as the host.
pub const PROVISIONAL_SPREAD_PER_MILLE: u32 = 250;

/// Bytes of the processor's record.
pub const CPU_RECORD_BYTES: u32 = 64;

/// Words of a table.
pub const TABLE_WORDS: usize = 416;

/// Bytes of a table.
pub const FILE_SIZE: usize = 1664;

const CPU_AT: usize = 16;

const ACCEL_AT: usize = 32;

const ACCEL_WORDS: usize = 48;

/// The hash after the first `n` bytes.
pub open spec fn fnv(bytes: Seq<u8>, n: int) -> u64
    decreases n,
{
    if n <= 0 {
        0xcbf2_9ce4_8422_2325
    } else {
        (fnv(bytes, n - 1) ^ (bytes[n - 1] as u64)).wrapping_mul(0x0000_0100_0000_01b3)
    }
}

/// FNV-1a of a byte string.
pub fn fnv1a_64(bytes: &[u8]) -> (res: u64)
    ensures
        res == fnv(bytes@, bytes@.len() as int),
{
    let mut h: u64 = 0xcbf2_9ce4_8422_2325;
    let mut i: usize = 0;
    while i < bytes.len()
        invariant
            i <= bytes@.len(),
            h == fnv(bytes@, i as int),
        decreases bytes@.len() - i,
    {
        h = (h ^ (bytes[i] as u64)).wrapping_mul(0x0000_0100_0000_01b3);
        i += 1;
    }
    h
}

/// What makes two starts the same host.
#[derive(Debug, PartialEq, Eq)]
pub struct HostStamp {
    /// Maker of the processor.
    pub vendor: String,
    /// Family, model and stepping of the processor.
    pub cpuid_signature: u32,
    /// Architecture.
    pub arch: &'static str,
    /// Operating system.
    pub os: &'static str,
    /// Workers that always run.
    pub primary_workers: u32,
    /// All workers.
    pub total_workers: u32,
    /// Layout and probe-set version.
    pub layout_version: u32,
}

impl HostStamp {
    /// The text that stands for a stamp.
    pub open spec fn text(&self) -> Seq<char> {
        "vendor="@ + self.vendor@ + ";sig=0x"@ + hex_digits(self.cpuid_signature as nat, 8)
            + ";arch="@ + self.arch@ + ";os="@ + self.os@ + ";primary="@ + decimal(
            self.primary_workers as nat,
        ) + ";total="@ + decimal(self.total_workers as nat) + ";v="@ + decimal(
            self.layout_version as nat,
        )
    }

    /// Hash of that text.
    pub open spec fn digest(&self) -> u64 {
        fnv(encode_utf8(self.text()), encode_utf8(self.text()).len() as int)
    }

    /// The text that stands for this stamp.
    pub fn canonical(&self) -> (res: String)
        ensures
            res@ == self.text(),
    {
        let mut s = String::new();
        put(&mut s, "vendor=");
        put(&mut s, self.vendor.as_str());
        put(&mut s, ";sig=0x");
        put_hex(&mut s, self.cpuid_signature as u64, 8);
        put(&mut s, ";arch=");
        put(&mut s, self.arch);
        put(&mut s, ";os=");
        put(&mut s, self.os);
        put(&mut s, ";primary=");
        put_decimal(&mut s, self.primary_workers as u64);
        put(&mut s, ";total=");
        put_decimal(&mut s, self.total_workers as u64);
        put(&mut s, ";v=");
        put_decimal(&mut s, self.layout_version as u64);
        proof {
            assert(s@ =~= self.text());
        }
        s
    }

    /// Hash of the stamp's text.
    pub fn hash(&self) -> (res: u64)
        ensures
            res == self.digest(),
    {
        let text = self.canonical();
        fnv1a_64(text.as_str().as_bytes())
    }
}

/// Two stamps with the same text have the same hash, so they name the same
/// table.
pub proof fn law_stamp_hash_is_of_the_text(a: HostStamp, b: HostStamp)
    requires
        a.text() == b.text(),
    ensures
        a.digest() == b.digest(),
        table_name(a) == table_name(b),
{
}

/// The part of a stamp's text before its numbers of workers.
spec fn stamp_head(s: HostStamp) -> Seq<char> {
    "vendor="@ + s.vendor@ + ";sig=0x"@ + hex_digits(s.cpuid_signature as nat, 8) + stamp_middle(s)
}

spec fn stamp_middle(s: HostStamp) -> Seq<char> {
    ";arch="@ + s.arch@ + ";os="@ + s.os@ + ";primary="@
}

/// The rest of it.
spec fn stamp_counts(s: HostStamp) -> Seq<char> {
    decimal(s.primary_workers as nat) + (";total="@ + (decimal(s.total_workers as nat) + (";v="@
        + decimal(s.layout_version as nat))))
}

proof fn lemma_stamp_parts(s: HostStamp)
    ensures
        s.text() == stamp_head(s) + stamp_counts(s),
{
    assert(s.text() =~= stamp_head(s) + stamp_counts(s));
}

proof fn lemma_stamp_signature(a: HostStamp, b: HostStamp)
    requires
        a.vendor@ == b.vendor@,
        stamp_middle(a) == stamp_middle(b),
        stamp_head(a) + stamp_counts(a) == stamp_head(b) + stamp_counts(b),
    ensures
        a.cpuid_signature == b.cpuid_signature,
        stamp_counts(a) == stamp_counts(b),
{
    let (x, y) = (a.cpuid_signature as nat, b.cpuid_signature as nat);
    let h = ("vendor="@ + a.vendor@ + ";sig=0x"@).len() as int;
    let m = h + 8 + stamp_middle(a).len();
    let (s, t) = (stamp_head(a) + stamp_counts(a), stamp_head(b) + stamp_counts(b));
    lemma_hex_width(x, 8);
    lemma_hex_width(y, 8);
    assert(hex_digits(x, 8) =~= s.subrange(h, h + 8));
    assert(hex_digits(y, 8) =~= t.subrange(h, h + 8));
    assert(stamp_counts(a) =~= s.subrange(m, s.len() as int));
    assert(stamp_counts(b) =~= t.subrange(m, t.len() as int));
    reveal_with_fuel(fits_hex, 9);
    lemma_hex_tells_apart(x, y, 8);
}

proof fn lemma_stamp_counts(a: HostStamp, b: HostStamp)
    requires
        stamp_counts(a) == stamp_counts(b),
    ensures
        a.primary_workers == b.primary_workers,
        a.total_workers == b.total_workers,
        a.layout_version == b.layout_version,
{
    reveal_strlit(";total=");
    reveal_strlit(";v=");
    let none = Seq::<char>::empty();
    let (va, vb) = (decimal(a.layout_version as nat), decimal(b.layout_version as nat));
    let (ta, tb) = (
        decimal(a.total_workers as nat) + (";v="@ + va),
        decimal(b.total_workers as nat) + (";v="@ + vb),
    );
    lemma_decimal_ends(
        a.primary_workers as nat,
        ";total="@ + ta,
        b.primary_workers as nat,
        ";total="@ + tb,
    );
    assert(ta =~= (";total="@ + ta).subrange(7, (";total="@ + ta).len() as int));
    assert(tb =~= (";total="@ + tb).subrange(7, (";total="@ + tb).len() as int));
    lemma_decimal_ends(a.total_workers as nat, ";v="@ + va, b.total_workers as nat, ";v="@ + vb);
    assert(va =~= (";v="@ + va).subrange(3, (";v="@ + va).len() as int));
    assert(vb =~= (";v="@ + vb).subrange(3, (";v="@ + vb).len() as int));
    assert(va + none =~= va);
    assert(vb + none =~= vb);
    lemma_decimal_ends(a.layout_version as nat, none, b.layout_version as nat, none);
}

/// A different processor signature, worker count or layout shows in the text:
/// of hosts that agree in maker, architecture and system, only equal ones have
/// the same text.
pub proof fn law_stamp_text_tells_hosts_apart(a: HostStamp, b: HostStamp)
    requires
        a.vendor@ == b.vendor@,
        a.arch@ == b.arch@,
        a.os@ == b.os@,
        a.text() == b.text(),
    ensures
        a.cpuid_signature == b.cpuid_signature,
        a.primary_workers == b.primary_workers,
        a.total_workers == b.total_workers,
        a.layout_version == b.layout_version,
{
    lemma_stamp_parts(a);
    lemma_stamp_parts(b);
    lemma_stamp_signature(a, b);
    lemma_stamp_counts(a, b);
}

/// File name of a stamp's table.
pub open spec fn table_name(stamp: HostStamp) -> Seq<char> {
    "flynnel-"@ + hex_digits(stamp.digest() as nat, 16) + ".cal"@
}

/// A file in a directory.
pub open spec fn in_dir(dir: Seq<char>, name: Seq<char>) -> Seq<char> {
    if dir.len() == 0 || dir.last() == '/' {
        dir + name
    } else {
        dir + "/"@ + name
    }
}

/// Path of a stamp's table in a directory.
pub fn table_path(dir: &str, stamp: &HostStamp) -> (res: String)
    ensures
        res@ == in_dir(dir@, table_name(*stamp)),
{
    let mut s = String::new();
    put(&mut s, dir);
    let n: usize = dir.unicode_len();
    if n > 0 && dir.get_char(n - 1) != '/' {
        put(&mut s, "/");
    }
    put(&mut s, "flynnel-");
    put_hex(&mut s, stamp.hash(), 16);
    put(&mut s, ".cal");
    proof {
        assert(s@ =~= in_dir(dir@, table_name(*stamp)));
    }
    s
}

/// Directory of the tables: the one that was set, else one in the user's
/// cache.
pub fn calibration_dir(set: Option<&str>, cache_home: Option<&str>, home: Option<&str>) -> (res: Option<
    String,
>)
    ensures
        match set {
            Some(d) => res matches Some(r) && r@ == d@,
            None => match cache_home {
                Some(x) => res matches Some(r) && r@ == in_dir(x@, "flynnel/calibration"@),
                None => match home {
                    Some(h) => res matches Some(r) && r@ == in_dir(
                        h@,
                        ".cache/flynnel/calibration"@,
                    ),
                    None => res is None,
                },
            },
        },
{
    if let Some(d) = set {
        let mut s = String::new();
        put(&mut s, d);
        proof {
            assert(s@ =~= d@);
        }
        return Some(s);
    }
    if let Some(x) = cache_home {
        return Some(joined(x, "flynnel/calibration"));
    }
    match home {
        Some(h) => Some(joined(h, ".cache/flynnel/calibration")),
        None => None,
    }
}

fn joined(dir: &str, name: &str) -> (res: String)
    ensures
        res@ == in_dir(dir@, name@),
{
    let mut s = String::new();
    put(&mut s, dir);
    let n: usize = dir.unicode_len();
    if n > 0 && dir.get_char(n - 1) != '/' {
        put(&mut s, "/");
    }
    put(&mut s, name);
    proof {
        assert(s@ =~= in_dir(dir@, name@));
    }
    s
}

/// Seconds since the epoch; zero where the clock is before it.
pub fn now_unix_s(since_epoch: Option<u64>) -> (res: u64)
    ensures
        res == match since_epoch {
            Some(s) => s,
            None => 0,
        },
{
    match since_epoch {
        Some(s) => s,
        None => 0,
    }
}

/// Spread of samples in thousandths of their median; none where there are no
/// samples.
pub open spec fn spread_of(samples: Seq<u64>) -> int {
    if samples.len() == 0 {
        0
    } else {
        let sorted = ascending(samples);
        let middle = median(samples) as int;
        let range = sorted.last() - sorted.first();
        min_int(
            range * 1000 / (if middle < 1 {
                1
            } else {
                middle
            }),
            u32::MAX as int,
        )
    }
}

/// Spread of samples in thousandths of their median.
pub fn sample_spread_per_mille(samples: &Vec<u64>) -> (res: u32)
    ensures
        res == spread_of(samples@),
{
    if samples.len() == 0 {
        return 0;
    }
    let sorted = sort_ascending(samples);
    let lo: u64 = sorted[0];
    let hi: u64 = sorted[sorted.len() - 1];
    let middle: u64 = sorted[sorted.len() / 2];
    proof {
        let leq = |a: u64, b: u64| a <= b;
        crate::math::lemma_leq_total();
        samples@.lemma_sort_by_ensures(leq);
        if sorted@.len() > 1 {
            assert(leq(sorted@[0], sorted@[sorted@.len() - 1]));
        }
    }
    let range: u128 = (hi - lo) as u128;
    let divisor: u128 = if middle < 1 { 1 } else { middle as u128 };
    let per_mille: u128 = range * 1000 / divisor;
    if per_mille > u32::MAX as u128 {
        u32::MAX
    } else {
        per_mille as u32
    }
}

/// Measured dispatch thresholds, and what the measurement was worth.
#[derive(Debug, Clone, Copy, PartialEq, Eq, Structural)]
pub struct CpuCalibration {
    /// Cost of one dispatch.
    pub dispatch_cost_ns: u64,
    /// Work below which a dispatch stays with the caller.
    pub collapse_threshold_ns: u64,
    /// Work below which waking costs more than polling.
    pub jec_wake_threshold_ns: u64,
    /// When it was measured, in seconds since the epoch.
    pub measured_unix_s: u64,
    /// Spread of the samples in thousandths of their median.
    pub spread_per_mille: u32,
    /// Number of samples.
    pub samples: u32,
}

/// A record of nothing.
pub open spec fn no_cpu() -> CpuCalibration {
    CpuCalibration {
        dispatch_cost_ns: 0,
        collapse_threshold_ns: 0,
        jec_wake_threshold_ns: 0,
        measured_unix_s: 0,
        spread_per_mille: 0,
        samples: 0,
    }
}

impl Default for CpuCalibration {
    fn default() -> (res: CpuCalibration)
        ensures
            res == no_cpu(),
    {
        CpuCalibration {
            dispatch_cost_ns: 0,
            collapse_threshold_ns: 0,
            jec_wake_threshold_ns: 0,
            measured_unix_s: 0,
            spread_per_mille: 0,
            samples: 0,
        }
    }
}

impl CpuCalibration {
    /// A record measured at `measured_unix_s`.
    pub fn new(
        dispatch_cost_ns: u64,
        collapse_threshold_ns: u64,
        jec_wake_threshold_ns: u64,
        spread_per_mille: u32,
        samples: u32,
        measured_unix_s: u64,
    ) -> (res: CpuCalibration)
        ensures
            res == (CpuCalibration {
                dispatch_cost_ns,
                collapse_threshold_ns,
                jec_wake_threshold_ns,
                measured_unix_s,
                spread_per_mille,
                samples,
            }),
    {
        CpuCalibration {
            dispatch_cost_ns,
            collapse_threshold_ns,
            jec_wake_threshold_ns,
            measured_unix_s,
            spread_per_mille,
            samples,
        }
    }

    /// Whether the host was quiet enough for this to stand.
    pub fn is_trustworthy(&self) -> (res: bool)
        ensures
            res == (self.samples > 0 && self.spread_per_mille <= PROVISIONAL_SPREAD_PER_MILLE),
    {
        self.samples > 0 && self.spread_per_mille <= PROVISIONAL_SPREAD_PER_MILLE
    }
}

/// Kind of a device.
#[derive(Debug, Clone, Copy, PartialEq, Eq, Structural)]
pub enum AccelKind {
    /// No device.
    Vacant,
    /// A CUDA device.
    Cuda,
    /// A device reached through shared memory.
    GpuPeer,
}

/// Number of a kind in a record.
pub open spec fn kind_code(k: AccelKind) -> u32 {
    match k {
        AccelKind::Vacant => 0,
        AccelKind::Cuda => 1,
        AccelKind::GpuPeer => 2,
    }
}

impl AccelKind {
    /// Number of this kind in a record.
    pub fn code(self) -> (res: u32)
        ensures
            res == kind_code(self),
    {
        match self {
            AccelKind::Vacant => 0,
            AccelKind::Cuda => 1,
            AccelKind::GpuPeer => 2,
        }
    }
}

/// The doorbell works.
pub const ACCEL_DOORBELL_OK: u32 = 1;

/// The timed lock works.
pub const ACCEL_TIMED_LOCK_OK: u32 = 2;

/// Atomics across devices work.
pub const ACCEL_SYS_ATOMICS_OK: u32 = 4;

/// Segmented-wave costs of a device at one team size.
#[derive(Debug, Clone, Copy, PartialEq, Eq, Structural)]
pub struct WaveCostRecord {
    /// Team size.
    pub width: u32,
    /// One barrier.
    pub barrier_ns: u64,
    /// A slice apart from its segments.
    pub fixed_ns: u64,
    /// One segment.
    pub segment_ps: u64,
    /// One rebalance apart from what it moves.
    pub rebalance_fixed_ns: u64,
    /// Moving one id.
    pub copy_ps_per_id: u64,
    /// First wait of a coupled slice.
    pub skew_ns: u32,
    /// Longest generation.
    pub generation_ns: u64,
}

/// One device: what it can do and how long it takes.
#[derive(Debug, Clone, Copy, PartialEq, Eq, Structural)]
pub struct AccelCalibration {
    /// Number of its [`AccelKind`].
    pub kind: u32,
    /// Position among the driver's devices.
    pub ordinal: u32,
    /// Compute capability, major times ten plus minor.
    pub capability: u32,
    /// Multiprocessors.
    pub multiprocessors: u32,
    /// Peak clock.
    pub clock_khz: u32,
    /// Memory.
    pub memory_mib: u32,
    /// Capability bits.
    pub flags: u32,
    /// Spread of the round trips in thousandths of their median.
    pub spread_per_mille: u32,
    /// Shortest round trip.
    pub rtt_min_ns: u64,
    /// Median round trip.
    pub rtt_median_ns: u64,
    /// Long round trip.
    pub rtt_p99_ns: u64,
    /// One-way bound.
    pub one_way_ns: u64,
    /// Clock error.
    pub clock_err_ns: u64,
    /// Margin of the timed lock.
    pub delta_ns: u64,
    /// Launch and wait.
    pub launch_ns: u64,
    /// Team size of the wave costs; zero where there are none.
    pub wave_width: u32,
    /// First wait of a coupled slice.
    pub wave_skew_ns: u32,
    /// One barrier.
    pub wave_barrier_ns: u64,
    /// A slice apart from its segments.
    pub wave_fixed_ns: u64,
    /// One segment.
    pub wave_segment_ps: u64,
    /// Moving one id.
    pub wave_copy_ps_per_id: u64,
    /// Longest generation.
    pub wave_generation_ns: u64,
    /// One rebalance apart from what it moves.
    pub wave_rebalance_fixed_ns: u64,
}

/// A record of no device.
pub open spec fn no_accel() -> AccelCalibration {
    AccelCalibration {
        kind: 0,
        ordinal: 0,
        capability: 0,
        multiprocessors: 0,
        clock_khz: 0,
        memory_mib: 0,
        flags: 0,
        spread_per_mille: 0,
        rtt_min_ns: 0,
        rtt_median_ns: 0,
        rtt_p99_ns: 0,
        one_way_ns: 0,
        clock_err_ns: 0,
        delta_ns: 0,
        launch_ns: 0,
        wave_width: 0,
        wave_skew_ns: 0,
        wave_barrier_ns: 0,
        wave_fixed_ns: 0,
        wave_segment_ps: 0,
        wave_copy_ps_per_id: 0,
        wave_generation_ns: 0,
        wave_rebalance_fixed_ns: 0,
    }
}

impl Default for AccelCalibration {
    fn default() -> (res: AccelCalibration)
        ensures
            res == no_accel(),
    {
        AccelCalibration {
            kind: 0,
            ordinal: 0,
            capability: 0,
            multiprocessors: 0,
            clock_khz: 0,
            memory_mib: 0,
            flags: 0,
            spread_per_mille: 0,
            rtt_min_ns: 0,
            rtt_median_ns: 0,
            rtt_p99_ns: 0,
            one_way_ns: 0,
            clock_err_ns: 0,
            delta_ns: 0,
            launch_ns: 0,
            wave_width: 0,
            wave_skew_ns: 0,
            wave_barrier_ns: 0,
            wave_fixed_ns: 0,
            wave_segment_ps: 0,
            wave_copy_ps_per_id: 0,
            wave_generation_ns: 0,
            wave_rebalance_fixed_ns: 0,
        }
    }
}

/// A record carries a device.
pub open spec fn present(a: AccelCalibration) -> bool {
    a.kind != 0
}

/// The wave costs that a record carries.
pub open spec fn wave_of(a: AccelCalibration) -> Option<WaveCostRecord> {
    if a.wave_width == 0 {
        None
    } else {
        Some(
            WaveCostRecord {
                width: a.wave_width,
                barrier_ns: a.wave_barrier_ns,
                fixed_ns: a.wave_fixed_ns,
                segment_ps: a.wave_segment_ps,
                rebalance_fixed_ns: a.wave_rebalance_fixed_ns,
                copy_ps_per_id: a.wave_copy_ps_per_id,
                skew_ns: a.wave_skew_ns,
                generation_ns: a.wave_generation_ns,
            },
        )
    }
}

/// A record with other wave costs.
pub open spec fn with_wave_costs(a: AccelCalibration, w: WaveCostRecord) -> AccelCalibration {
    AccelCalibration {
        wave_width: w.width,
        wave_barrier_ns: w.barrier_ns,
        wave_fixed_ns: w.fixed_ns,
        wave_segment_ps: w.segment_ps,
        wave_copy_ps_per_id: w.copy_ps_per_id,
        wave_skew_ns: w.skew_ns,
        wave_rebalance_fixed_ns: w.rebalance_fixed_ns,
        wave_generation_ns: w.generation_ns,
        ..a
    }
}

/// A record with its wave costs taken out.
pub open spec fn without_wave_costs(a: AccelCalibration) -> AccelCalibration {
    AccelCalibration {
        wave_width: 0,
        wave_barrier_ns: 0,
        wave_fixed_ns: 0,
        wave_segment_ps: 0,
        wave_copy_ps_per_id: 0,
        wave_skew_ns: 0,
        wave_rebalance_fixed_ns: 0,
        wave_generation_ns: 0,
        ..a
    }
}

/// Wave costs that were recorded read back as they were, and nothing else of
/// the record changes. A team size of zero stands for "none".
pub proof fn law_wave_costs_read_back(a: AccelCalibration, w: WaveCostRecord)
    ensures
        w.width != 0 ==> wave_of(with_wave_costs(a, w)) == Some(w),
        w.width == 0 ==> wave_of(with_wave_costs(a, w)) is None,
        without_wave_costs(with_wave_costs(a, w)) == without_wave_costs(a),
        present(with_wave_costs(a, w)) == present(a),
{
}

impl AccelCalibration {
    /// A device without wave costs; its spread is that of the three round
    /// trips.
    pub fn new(
        kind: AccelKind,
        ordinal: u32,
        capability: u32,
        multiprocessors: u32,
        clock_khz: u32,
        memory_mib: u32,
        flags: u32,
        rtt_min_ns: u64,
        rtt_median_ns: u64,
        rtt_p99_ns: u64,
        one_way_ns: u64,
        clock_err_ns: u64,
        delta_ns: u64,
        launch_ns: u64,
    ) -> (res: AccelCalibration)
        ensures
            res == (AccelCalibration {
                kind: kind_code(kind),
                ordinal,
                capability,
                multiprocessors,
                clock_khz,
                memory_mib,
                flags,
                spread_per_mille: spread_of(seq![rtt_min_ns, rtt_median_ns, rtt_p99_ns]) as u32,
                rtt_min_ns,
                rtt_median_ns,
                rtt_p99_ns,
                one_way_ns,
                clock_err_ns,
                delta_ns,
                launch_ns,
                ..no_accel()
            }),
    {
        let mut samples: Vec<u64> = Vec::new();
        samples.push(rtt_min_ns);
        samples.push(rtt_median_ns);
        samples.push(rtt_p99_ns);
        proof {
            assert(samples@ =~= seq![rtt_min_ns, rtt_median_ns, rtt_p99_ns]);
        }
        let spread_per_mille: u32 = sample_spread_per_mille(&samples);
        AccelCalibration {
            kind: kind.code(),
            ordinal,
            capability,
            multiprocessors,
            clock_khz,
            memory_mib,
            flags,
            spread_per_mille,
            rtt_min_ns,
            rtt_median_ns,
            rtt_p99_ns,
            one_way_ns,
            clock_err_ns,
            delta_ns,
            launch_ns,
            wave_width: 0,
            wave_skew_ns: 0,
            wave_barrier_ns: 0,
            wave_fixed_ns: 0,
            wave_segment_ps: 0,
            wave_copy_ps_per_id: 0,
            wave_generation_ns: 0,
            wave_rebalance_fixed_ns: 0,
        }
    }

    /// Whether there is a device.
    pub fn is_present(&self) -> (res: bool)
        ensures
            res == present(*self),
    {
        self.kind != 0
    }

    /// Whether there is a device, and it was idle enough for its times to
    /// stand.
    pub fn is_trustworthy(&self) -> (res: bool)
        ensures
            res == (present(*self) && self.spread_per_mille <= PROVISIONAL_SPREAD_PER_MILLE),
    {
        self.is_present() && self.spread_per_mille <= PROVISIONAL_SPREAD_PER_MILLE
    }

    /// Whether a capability bit is set.
    pub fn has(&self, flag: u32) -> (res: bool)
        ensures
            res == (self.flags & flag != 0),
    {
        self.flags & flag != 0
    }

    /// With other wave costs.
    pub fn with_wave(self, wave: WaveCostRecord) -> (res: AccelCalibration)
        ensures
            res == with_wave_costs(self, wave),
    {
        AccelCalibration {
            wave_width: wave.width,
            wave_barrier_ns: wave.barrier_ns,
            wave_fixed_ns: wave.fixed_ns,
            wave_segment_ps: wave.segment_ps,
            wave_copy_ps_per_id: wave.copy_ps_per_id,
            wave_skew_ns: wave.skew_ns,
            wave_rebalance_fixed_ns: wave.rebalance_fixed_ns,
            wave_generation_ns: wave.generation_ns,
            ..self
        }
    }

    /// The wave costs, if any were recorded.
    pub fn wave(&self) -> (res: Option<WaveCostRecord>)
        ensures
            res == wave_of(*self),
    {
        if self.wave_width == 0 {
            return None;
        }
        Some(
            WaveCostRecord {
                width: self.wave_width,
                barrier_ns: self.wave_barrier_ns,
                fixed_ns: self.wave_fixed_ns,
                segment_ps: self.wave_segment_ps,
                rebalance_fixed_ns: self.wave_rebalance_fixed_ns,
                copy_ps_per_id: self.wave_copy_ps_per_id,
                skew_ns: self.wave_skew_ns,
                generation_ns: self.wave_generation_ns,
            },
        )
    }
}

/// Lower half of a number.
pub open spec fn lo(x: u64) -> u32 {
    (x as int % 0x1_0000_0000) as u32
}

/// Upper half of a number.
pub open spec fn hi(x: u64) -> u32 {
    (x as int / 0x1_0000_0000) as u32
}

/// The number of two halves.
pub open spec fn wide(l: u32, h: u32) -> u64 {
    (h * 0x1_0000_0000 + l) as u64
}

fn low_half(x: u64) -> (res: u32)
    ensures
        res == lo(x),
{
    (x % 0x1_0000_0000) as u32
}

fn high_half(x: u64) -> (res: u32)
    ensures
        res == hi(x),
{
    (x / 0x1_0000_0000) as u32
}

fn join_halves(l: u32, h: u32) -> (res: u64)
    ensures
        res == wide(l, h),
{
    (h as u64) * 0x1_0000_0000 + (l as u64)
}

/// The words of the processor's record.
pub open spec fn cpu_words(c: CpuCalibration) -> Seq<u32> {
    seq![
        lo(c.dispatch_cost_ns),
        hi(c.dispatch_cost_ns),
        lo(c.collapse_threshold_ns),
        hi(c.collapse_threshold_ns),
        lo(c.jec_wake_threshold_ns),
        hi(c.jec_wake_threshold_ns),
        lo(c.measured_unix_s),
        hi(c.measured_unix_s),
        c.spread_per_mille,
        c.samples,
        0u32,
        0u32,
        0u32,
        0u32,
        0u32,
        0u32,
    ]
}

/// The processor's record that words stand for.
pub open spec fn cpu_of(w: Seq<u32>) -> CpuCalibration {
    CpuCalibration {
        dispatch_cost_ns: wide(w[0], w[1]),
        collapse_threshold_ns: wide(w[2], w[3]),
        jec_wake_threshold_ns: wide(w[4], w[5]),
        measured_unix_s: wide(w[6], w[7]),
        spread_per_mille: w[8],
        samples: w[9],
    }
}

/// The words of a device's record.
pub open spec fn accel_words(a: AccelCalibration) -> Seq<u32> {
    seq![
        a.kind,
        a.ordinal,
        a.capability,
        a.multiprocessors,
        a.clock_khz,
        a.memory_mib,
        a.flags,
        a.spread_per_mille,
        lo(a.rtt_min_ns),
        hi(a.rtt_min_ns),
        lo(a.rtt_median_ns),
        hi(a.rtt_median_ns),
        lo(a.rtt_p99_ns),
        hi(a.rtt_p99_ns),
        lo(a.one_way_ns),
        hi(a.one_way_ns),
        lo(a.clock_err_ns),
        hi(a.clock_err_ns),
        lo(a.delta_ns),
        hi(a.delta_ns),
        lo(a.launch_ns),
        hi(a.launch_ns),
        a.wave_width,
        a.wave_skew_ns,
        lo(a.wave_barrier_ns),
        hi(a.wave_barrier_ns),
        lo(a.wave_fixed_ns),
        hi(a.wave_fixed_ns),
        lo(a.wave_segment_ps),
        hi(a.wave_segment_ps),
        lo(a.wave_copy_ps_per_id),
        hi(a.wave_copy_ps_per_id),
        lo(a.wave_generation_ns),
        hi(a.wave_generation_ns),
        lo(a.wave_rebalance_fixed_ns),
        hi(a.wave_rebalance_fixed_ns),
        0u32,
        0u32,
        0u32,
        0u32,
        0u32,
        0u32,
        0u32,
        0u32,
        0u32,
        0u32,
        0u32,
        0u32,
    ]
}

/// The device's record that words stand for.
pub open spec fn accel_of(w: Seq<u32>) -> AccelCalibration {
    AccelCalibration {
        kind: w[0],
        ordinal: w[1],
        capability: w[2],
        multiprocessors: w[3],
        clock_khz: w[4],
        memory_mib: w[5],
        flags: w[6],
        spread_per_mille: w[7],
        rtt_min_ns: wide(w[8], w[9]),
        rtt_median_ns: wide(w[10], w[11]),
        rtt_p99_ns: wide(w[12], w[13]),
        one_way_ns: wide(w[14], w[15]),
        clock_err_ns: wide(w[16], w[17]),
        delta_ns: wide(w[18], w[19]),
        launch_ns: wide(w[20], w[21]),
        wave_width: w[22],
        wave_skew_ns: w[23],
        wave_barrier_ns: wide(w[24], w[25]),
        wave_fixed_ns: wide(w[26], w[27]),
        wave_segment_ps: wide(w[28], w[29]),
        wave_copy_ps_per_id: wide(w[30], w[31]),
        wave_generation_ns: wide(w[32], w[33]),
        wave_rebalance_fixed_ns: wide(w[34], w[35]),
    }
}

/// Records survive being written as words and read back.
pub proof fn law_records_read_back(c: CpuCalibration, a: AccelCalibration)
    ensures
        cpu_of(cpu_words(c)) == c,
        accel_of(accel_words(a)) == a,
        cpu_words(c).len() == 16,
        accel_words(a).len() == 48,
{
}

/// What a table holds.
#[verifier::ext_equal]
pub struct Table {
    /// First word pair.
    pub magic: u64,
    /// Layout version of the writer.
    pub layout_version: u32,
    /// Size of the processor's record.
    pub record_bytes: u32,
    /// Odd while a writer is in the records.
    pub version: u32,
    /// Process that holds the writer lease.
    pub writer: u32,
    /// Beats of the writers.
    pub beat: u64,
    /// Hash of the host's stamp.
    pub stamp: u64,
    /// Number of devices.
    pub accel_count: u32,
    /// The processor's record.
    pub cpu: CpuCalibration,
    /// The devices' records.
    pub accel: Seq<AccelCalibration>,
}

/// The words of device record `i`.
pub open spec fn accel_slice(w: Seq<u32>, i: int) -> Seq<u32> {
    w.subrange(32 + 48 * i, 32 + 48 * i + 48)
}

/// The table that words stand for.
pub open spec fn table_of(w: Seq<u32>) -> Table {
    Table {
        magic: wide(w[0], w[1]),
        layout_version: w[2],
        record_bytes: w[3],
        version: w[4],
        writer: w[5],
        beat: wide(w[6], w[7]),
        stamp: wide(w[8], w[9]),
        accel_count: w[10],
        cpu: cpu_of(w.subrange(16, 32)),
        accel: Seq::new(8, |i: int| accel_of(accel_slice(w, i))),
    }
}

/// A new table.
pub open spec fn fresh_table(stamp: u64) -> Table {
    Table {
        magic: CALIBRATION_MAGIC,
        layout_version: LAYOUT_VERSION,
        record_bytes: CPU_RECORD_BYTES,
        version: 0,
        writer: NO_WRITER,
        beat: 0,
        stamp,
        accel_count: 0,
        cpu: no_cpu(),
        accel: Seq::new(8, |i: int| no_accel()),
    }
}

/// Why a table cannot be used. The caller measures for itself.
#[derive(Debug, Clone, Copy, PartialEq, Eq, Structural)]
pub enum StoreError {
    /// The file is not such a table.
    LayoutMismatch,
    /// The table is another host's.
    StampMismatch,
    /// Another process is still laying the table out: look again.
    LayingOut,
    /// Another process holds the writer lease.
    WriterActive,
    /// The file system refused, with its code.
    Io(i32),
}

/// A file's table fits this build.
pub open spec fn layout_fits(t: Table) -> bool {
    t.magic == CALIBRATION_MAGIC && t.layout_version == LAYOUT_VERSION && t.record_bytes
        == CPU_RECORD_BYTES
}

/// Bytes of a file as words, little end first.
pub open spec fn words_of(bytes: Seq<u8>) -> Seq<u32> {
    Seq::new(
        bytes.len() / 4,
        |k: int|
            (bytes[4 * k] + bytes[4 * k + 1] * 0x100 + bytes[4 * k + 2] * 0x1_0000 + bytes[4 * k
                + 3] * 0x100_0000) as u32,
    )
}

/// Byte `i` of a sequence of words.
pub open spec fn byte_of(words: Seq<u32>, i: int) -> u8 {
    let w = words[i / 4] as int;
    (if i % 4 == 0 {
        w % 0x100
    } else if i % 4 == 1 {
        w / 0x100 % 0x100
    } else if i % 4 == 2 {
        w / 0x1_0000 % 0x100
    } else {
        w / 0x100_0000
    }) as u8
}

/// Words as the bytes of a file.
pub open spec fn bytes_of(words: Seq<u32>) -> Seq<u8> {
    Seq::new(4 * words.len(), |i: int| byte_of(words, i))
}

/// Words survive being written as bytes and read back.
pub proof fn law_words_read_back(words: Seq<u32>)
    ensures
        words_of(bytes_of(words)) == words,
{
    let b = bytes_of(words);
    assert forall|k: int| 0 <= k < words.len() implies #[trigger] words_of(b)[k] == words[k] by {
        assert(b[4 * k] == byte_of(words, 4 * k));
        assert(b[4 * k + 1] == byte_of(words, 4 * k + 1));
        assert(b[4 * k + 2] == byte_of(words, 4 * k + 2));
        assert(b[4 * k + 3] == byte_of(words, 4 * k + 3));
        assert((4 * k) / 4 == k && (4 * k) % 4 == 0);
        assert((4 * k + 1) / 4 == k && (4 * k + 1) % 4 == 1);
        assert((4 * k + 2) / 4 == k && (4 * k + 2) % 4 == 2);
        assert((4 * k + 3) / 4 == k && (4 * k + 3) % 4 == 3);
    }
    assert(words_of(b) =~= words);
}

/// A calibration table.
#[derive(Debug)]
pub struct CalibrationStore {
    words: Vec<u32>,
    stamp_hash: u64,
}

/// The writer lease of a process.
#[derive(Debug)]
pub struct WriterGuard {
    pid: u32,
}

impl WriterGuard {
    /// The process that holds it.
    pub closed spec fn holder(&self) -> u32 {
        self.pid
    }
}

/// What a process sees of the writer lease.
#[derive(Debug, Clone, Copy, PartialEq, Eq, Structural)]
pub enum LeaseLook {
    /// It holds the lease itself.
    Mine,
    /// Nobody holds it.
    Free,
    /// Another process holds it.
    Held {
        /// That process.
        holder: u32,
        /// Beats so far.
        beat: u64,
    },
}

/// The table after a device list was published.
pub open spec fn published(t: Table, cpu: CpuCalibration, accel: Seq<AccelCalibration>) -> Table {
    let n = min_int(accel.len() as int, MAX_ACCEL as int);
    Table {
        version: ((t.version + 2) % 0x1_0000_0000) as u32,
        accel_count: n as u32,
        cpu,
        accel: Seq::new(
            8,
            |i: int|
                if i < n {
                    accel[i]
                } else {
                    t.accel[i]
                },
        ),
        ..t
    }
}

/// What a reader gets: nothing while a writer is in the records, else the
/// processor's record and as many devices as are counted.
pub open spec fn readable(t: Table) -> Option<(CpuCalibration, Seq<AccelCalibration>)> {
    if t.version % 2 == 1 {
        None
    } else {
        Some(
            (
                t.cpu,
                t.accel.subrange(0, min_int(t.accel_count as int, MAX_ACCEL as int)),
            ),
        )
    }
}

/// A published record reads back whole: the processor's record, and the
/// first eight devices. The version stays even, so it reads at once.
pub proof fn law_published_record_reads_back(
    t: Table,
    cpu: CpuCalibration,
    accel: Seq<AccelCalibration>,
)
    requires
        t.accel.len() == 8,
        t.version % 2 == 0,
    ensures
        readable(published(t, cpu, accel)) == Some(
            (cpu, accel.subrange(0, min_int(accel.len() as int, MAX_ACCEL as int))),
        ),
{
    let n = min_int(accel.len() as int, MAX_ACCEL as int);
    let p = published(t, cpu, accel);
    assert(p.version % 2 == 0);
    assert(p.accel.subrange(0, n) =~= accel.subrange(0, n));
}

/// A new table reads as nothing worth using: no samples and no devices.
pub proof fn law_fresh_table_offers_nothing(stamp: u64)
    ensures
        readable(fresh_table(stamp)) matches Some(r) && r.0.samples == 0 && r.1.len() == 0,
{
}

/// The lease after a second look: nothing to do, look again, or refused.
pub open spec fn lease_decision(t: Table, me: u32, look: LeaseLook) -> Result<bool, StoreError> {
    match look {
        LeaseLook::Mine => Ok(true),
        LeaseLook::Free => Ok(t.writer == NO_WRITER),
        LeaseLook::Held { holder, beat } => if t.beat != beat || t.writer != holder {
            Err(StoreError::WriterActive)
        } else {
            Ok(true)
        },
    }
}

fn write_block(words: &mut Vec<u32>, at: usize, block: &Vec<u32>)
    requires
        at + block@.len() <= old(words)@.len(),
    ensures
        final(words)@.len() == old(words)@.len(),
        forall|k: int|
            0 <= k < old(words)@.len() ==> #[trigger] final(words)@[k] == if at <= k < at
                + block@.len() {
                block@[k - at]
            } else {
                old(words)@[k]
            },
{
    let n: usize = words.len();
    let mut i: usize = 0;
    while i < block.len()
        invariant
            i <= block@.len(),
            at + block@.len() <= n,
            n == old(words)@.len(),
            words@.len() == old(words)@.len(),
            forall|k: int|
                0 <= k < old(words)@.len() ==> #[trigger] words@[k] == if at <= k < at + i {
                    block@[k - at]
                } else {
                    old(words)@[k]
                },
        decreases block@.len() - i,
    {
        words.set(at + i, block[i]);
        i += 1;
    }
}

fn encode_cpu(c: &CpuCalibration) -> (res: Vec<u32>)
    ensures
        res@ == cpu_words(*c),
{
    let res: Vec<u32> = vec![
        low_half(c.dispatch_cost_ns),
        high_half(c.dispatch_cost_ns),
        low_half(c.collapse_threshold_ns),
        high_half(c.collapse_threshold_ns),
        low_half(c.jec_wake_threshold_ns),
        high_half(c.jec_wake_threshold_ns),
        low_half(c.measured_unix_s),
        high_half(c.measured_unix_s),
        c.spread_per_mille,
        c.samples,
        0,
        0,
        0,
        0,
        0,
        0,
    ];
    proof {
        assert(res@ =~= cpu_words(*c));
    }
    res
}

fn encode_accel(a: &AccelCalibration) -> (res: Vec<u32>)
    ensures
        res@ == accel_words(*a),
{
    let res: Vec<u32> = vec![
        a.kind,
        a.ordinal,
        a.capability,
        a.multiprocessors,
        a.clock_khz,
        a.memory_mib,
        a.flags,
        a.spread_per_mille,
        low_half(a.rtt_min_ns),
        high_half(a.rtt_min_ns),
        low_half(a.rtt_median_ns),
        high_half(a.rtt_median_ns),
        low_half(a.rtt_p99_ns),
        high_half(a.rtt_p99_ns),
        low_half(a.one_way_ns),
        high_half(a.one_way_ns),
        low_half(a.clock_err_ns),
        high_half(a.clock_err_ns),
        low_half(a.delta_ns),
        high_half(a.delta_ns),
        low_half(a.launch_ns),
        high_half(a.launch_ns),
        a.wave_width,
        a.wave_skew_ns,
        low_half(a.wave_barrier_ns),
        high_half(a.wave_barrier_ns),
        low_half(a.wave_fixed_ns),
        high_half(a.wave_fixed_ns),
        low_half(a.wave_segment_ps),
        high_half(a.wave_segment_ps),
        low_half(a.wave_copy_ps_per_id),
        high_half(a.wave_copy_ps_per_id),
        low_half(a.wave_generation_ns),
        high_half(a.wave_generation_ns),
        low_half(a.wave_rebalance_fixed_ns),
        high_half(a.wave_rebalance_fixed_ns),
        0,
        0,
        0,
        0,
        0,
        0,
        0,
        0,
        0,
        0,
        0,
        0,
    ];
    proof {
        assert(res@ =~= accel_words(*a));
    }
    res
}

fn decode_cpu(words: &Vec<u32>) -> (res: CpuCalibration)
    requires
        words@.len() == TABLE_WORDS,
    ensures
        res == cpu_of(words@.subrange(16, 32)),
{
    CpuCalibration {
        dispatch_cost_ns: join_halves(words[16], words[17]),
        collapse_threshold_ns: join_halves(words[18], words[19]),
        jec_wake_threshold_ns: join_halves(words[20], words[21]),
        measured_unix_s: join_halves(words[22], words[23]),
        spread_per_mille: words[24],
        samples: words[25],
    }
}

fn decode_accel(words: &Vec<u32>, i: usize) -> (res: AccelCalibration)
    requires
        words@.len() == TABLE_WORDS,
        i < 8,
    ensures
        res == accel_of(accel_slice(words@, i as int)),
{
    let b: usize = ACCEL_AT + ACCEL_WORDS * i;
    AccelCalibration {
        kind: words[b],
        ordinal: words[b + 1],
        capability: words[b + 2],
        multiprocessors: words[b + 3],
        clock_khz: words[b + 4],
        memory_mib: words[b + 5],
        flags: words[b + 6],
        spread_per_mille: words[b + 7],
        rtt_min_ns: join_halves(words[b + 8], words[b + 9]),
        rtt_median_ns: join_halves(words[b + 10], words[b + 11]),
        rtt_p99_ns: join_halves(words[b + 12], words[b + 13]),
        one_way_ns: join_halves(words[b + 14], words[b + 15]),
        clock_err_ns: join_halves(words[b + 16], words[b + 17]),
        delta_ns: join_halves(words[b + 18], words[b + 19]),
        launch_ns: join_halves(words[b + 20], words[b + 21]),
        wave_width: words[b + 22],
        wave_skew_ns: words[b + 23],
        wave_barrier_ns: join_halves(words[b + 24], words[b + 25]),
        wave_fixed_ns: join_halves(words[b + 26], words[b + 27]),
        wave_segment_ps: join_halves(words[b + 28], words[b + 29]),
        wave_copy_ps_per_id: join_halves(words[b + 30], words[b + 31]),
        wave_generation_ns: join_halves(words[b + 32], words[b + 33]),
        wave_rebalance_fixed_ns: join_halves(words[b + 34], words[b + 35]),
    }
}

/// The words of a new table.
fn lay_out(stamp_hash: u64) -> (res: Vec<u32>)
    ensures
        res@.len() == TABLE_WORDS,
        table_of(res@) == fresh_table(stamp_hash),
{
    let mut words: Vec<u32> = Vec::new();
    let mut i: usize = 0;
    while i < TABLE_WORDS
        invariant
            i <= TABLE_WORDS,
            words@.len() == i,
            forall|k: int| 0 <= k < i ==> #[trigger] words@[k] == 0,
        decreases TABLE_WORDS - i,
    {
        words.push(0);
        i += 1;
    }
    words.set(2, LAYOUT_VERSION);
    words.set(3, CPU_RECORD_BYTES);
    words.set(5, NO_WRITER);
    words.set(8, low_half(stamp_hash));
    words.set(9, high_half(stamp_hash));
    words.set(0, low_half(CALIBRATION_MAGIC));
    words.set(1, high_half(CALIBRATION_MAGIC));
    proof {
        assert(table_of(words@).accel =~= fresh_table(stamp_hash).accel);
        assert(table_of(words@) =~= fresh_table(stamp_hash));
    }
    words
}

impl CalibrationStore {
    /// What the table holds.
    pub closed spec fn view(&self) -> Table {
        table_of(self.words@)
    }

    /// The table's words.
    pub closed spec fn words(&self) -> Seq<u32> {
        self.words@
    }

    /// Hash of the stamp that the table was opened for.
    pub closed spec fn opened_for(&self) -> u64 {
        self.stamp_hash
    }

    /// Representation invariant.
    pub closed spec fn wf(&self) -> bool {
        self.words@.len() == TABLE_WORDS
    }

    /// Opens the table that a file holds. A file that is too short is laid
    /// out anew. One without a magic is still being laid out, and the caller
    /// waits; one that another build laid out, or that is another host's, is
    /// refused.
    pub fn open_or_create(file: &Vec<u8>, stamp: &HostStamp) -> (res: Result<
        CalibrationStore,
        StoreError,
    >)
        ensures
            file@.len() < FILE_SIZE ==> (res matches Ok(s) && s.wf() && s@ == fresh_table(
                stamp.digest(),
            ) && s.opened_for() == stamp.digest()),
            file@.len() >= FILE_SIZE ==> {
                let w = words_of(file@.subrange(0, FILE_SIZE as int));
                let t = table_of(w);
                if t.magic == 0 {
                    res == Err::<CalibrationStore, StoreError>(StoreError::LayingOut)
                } else if !layout_fits(t) {
                    res == Err::<CalibrationStore, StoreError>(StoreError::LayoutMismatch)
                } else if t.stamp != stamp.digest() {
                    res == Err::<CalibrationStore, StoreError>(StoreError::StampMismatch)
                } else {
                    res matches Ok(s) && s.wf() && s.words() == w && s@ == t && s.opened_for()
                        == stamp.digest()
                }
            },
    {
        let stamp_hash: u64 = stamp.hash();
        if file.len() < FILE_SIZE {
            return Ok(CalibrationStore { words: lay_out(stamp_hash), stamp_hash });
        }
        let ghost image = file@.subrange(0, FILE_SIZE as int);
        let mut words: Vec<u32> = Vec::new();
        let mut k: usize = 0;
        while k < TABLE_WORDS
            invariant
                k <= TABLE_WORDS,
                file@.len() >= FILE_SIZE,
                image == file@.subrange(0, FILE_SIZE as int),
                words@ == words_of(image).subrange(0, k as int),
            decreases TABLE_WORDS - k,
        {
            let w: u32 = (file[4 * k] as u32) + (file[4 * k + 1] as u32) * 0x100 + (file[4 * k
                + 2] as u32) * 0x1_0000 + (file[4 * k + 3] as u32) * 0x100_0000;
            proof {
                assert(image[4 * k] == file@[4 * k]);
                assert(image[4 * k + 1] == file@[4 * k + 1]);
                assert(image[4 * k + 2] == file@[4 * k + 2]);
                assert(image[4 * k + 3] == file@[4 * k + 3]);
                assert(w == words_of(image)[k as int]);
            }
            words.push(w);
            proof {
                assert(words@ =~= words_of(image).subrange(0, k + 1));
            }
            k += 1;
        }
        proof {
            assert(words@ =~= words_of(image));
        }
        let magic: u64 = join_halves(words[0], words[1]);
        if magic == 0 {
            return Err(StoreError::LayingOut);
        }
        if magic != CALIBRATION_MAGIC || words[2] != LAYOUT_VERSION || words[3]
            != CPU_RECORD_BYTES {
            return Err(StoreError::LayoutMismatch);
        }
        if join_halves(words[8], words[9]) != stamp_hash {
            return Err(StoreError::StampMismatch);
        }
        Ok(CalibrationStore { words, stamp_hash })
    }

    /// The table as the bytes of a file.
    pub fn to_bytes(&self) -> (res: Vec<u8>)
        requires
            self.wf(),
        ensures
            res@ == bytes_of(self.words()),
            res@.len() == FILE_SIZE,
    {
        let mut out: Vec<u8> = Vec::new();
        let mut k: usize = 0;
        while k < TABLE_WORDS
            invariant
                k <= TABLE_WORDS,
                self.words@.len() == TABLE_WORDS,
                out@ == bytes_of(self.words@).subrange(0, 4 * k),
            decreases TABLE_WORDS - k,
        {
            let w: u32 = self.words[k];
            out.push((w % 0x100) as u8);
            out.push((w / 0x100 % 0x100) as u8);
            out.push((w / 0x1_0000 % 0x100) as u8);
            out.push((w / 0x100_0000) as u8);
            proof {
                let b = bytes_of(self.words@);
                assert((4 * k) / 4 == k && (4 * k) % 4 == 0);
                assert((4 * k + 1) / 4 == k && (4 * k + 1) % 4 == 1);
                assert((4 * k + 2) / 4 == k && (4 * k + 2) % 4 == 2);
                assert((4 * k + 3) / 4 == k && (4 * k + 3) % 4 == 3);
                assert(b[4 * k] == (w % 0x100) as u8);
                assert(b[4 * k + 1] == (w / 0x100 % 0x100) as u8);
                assert(b[4 * k + 2] == (w / 0x1_0000 % 0x100) as u8);
                assert(b[4 * k + 3] == (w / 0x100_0000) as u8);
                assert(out@ =~= b.subrange(0, 4 * (k + 1)));
            }
            k += 1;
        }
        proof {
            assert(bytes_of(self.words@).subrange(0, 4 * k) =~= bytes_of(self.words@));
        }
        out
    }

    /// Hash of the stamp that the table was opened for.
    pub fn stamp_hash(&self) -> (res: u64)
        ensures
            res == self.opened_for(),
    {
        self.stamp_hash
    }

    /// Reads the records; nothing while a writer is in them.
    pub fn read(&self) -> (res: Option<(CpuCalibration, Vec<AccelCalibration>)>)
        requires
            self.wf(),
        ensures
            match readable(self@) {
                Some(r) => res matches Some(got) && got.0 == r.0 && got.1@ == r.1,
                None => res is None,
            },
    {
        if self.words[4] % 2 == 1 {
            return None;
        }
        let counted: usize = self.words[10] as usize;
        let n: usize = if counted < MAX_ACCEL { counted } else { MAX_ACCEL };
        let cpu = decode_cpu(&self.words);
        let mut accel: Vec<AccelCalibration> = Vec::new();
        let mut i: usize = 0;
        while i < n
            invariant
                i <= n,
                n <= 8,
                self.words@.len() == TABLE_WORDS,
                accel@ == self@.accel.subrange(0, i as int),
            decreases n - i,
        {
            accel.push(decode_accel(&self.words, i));
            proof {
                assert(accel@ =~= self@.accel.subrange(0, i + 1));
            }
            i += 1;
        }
        Some((cpu, accel))
    }

    /// First look of process `me` at the writer lease.
    pub fn lease_look(&self, me: u32) -> (res: LeaseLook)
        requires
            self.wf(),
        ensures
            res == if self@.writer == me {
                LeaseLook::Mine
            } else if self@.writer == NO_WRITER {
                LeaseLook::Free
            } else {
                LeaseLook::Held { holder: self@.writer, beat: self@.beat }
            },
    {
        let holder: u32 = self.words[5];
        if holder == me {
            LeaseLook::Mine
        } else if holder == NO_WRITER {
            LeaseLook::Free
        } else {
            LeaseLook::Held { holder, beat: join_halves(self.words[6], self.words[7]) }
        }
    }

    /// Second look, after other processes had a chance to run: takes the
    /// lease where it is free, or where its holder has not beaten since.
    /// `None` means that it was taken meanwhile: look again. A holder that
    /// has beaten is left alone.
    pub fn lease_decide(&mut self, me: u32, look: LeaseLook) -> (res: Result<
        Option<WriterGuard>,
        StoreError,
    >)
        requires
            old(self).wf(),
        ensures
            final(self).wf(),
            final(self).opened_for() == old(self).opened_for(),
            match lease_decision(old(self)@, me, look) {
                Err(e) => res == Err::<Option<WriterGuard>, StoreError>(e) && final(self)@ == old(self)@,
                Ok(false) => (res matches Ok(r) && r is None) && final(self)@ == old(self)@,
                Ok(true) => (res matches Ok(r) && (r matches Some(g) && g.holder() == me))
                    && final(self)@ == if look is Mine {
                    old(self)@
                } else {
                    Table { writer: me, ..old(self)@ }
                },
            },
    {
        match look {
            LeaseLook::Mine => Ok(Some(WriterGuard { pid: me })),
            LeaseLook::Free => {
                if self.words[5] != NO_WRITER {
                    return Ok(None);
                }
                self.set_writer(me);
                Ok(Some(WriterGuard { pid: me }))
            },
            LeaseLook::Held { holder, beat } => {
                let now: u64 = join_halves(self.words[6], self.words[7]);
                if now.wrapping_sub(beat) > 0 {
                    return Err(StoreError::WriterActive);
                }
                if now.wrapping_sub(beat) < LEASE_GRACE_EPOCHS && self.words[5] == holder {
                    self.set_writer(me);
                    return Ok(Some(WriterGuard { pid: me }));
                }
                Err(StoreError::WriterActive)
            },
        }
    }

    /// Takes the writer lease for process `me`, with nothing else running: it
    /// is free, its own already, or held by a process that does not beat.
    pub fn try_acquire_writer(&mut self, me: u32) -> (res: Result<WriterGuard, StoreError>)
        requires
            old(self).wf(),
        ensures
            final(self).wf(),
            final(self).opened_for() == old(self).opened_for(),
            res matches Ok(g) && g.holder() == me,
            final(self)@ == (Table { writer: me, ..old(self)@ }),
    {
        let look = self.lease_look(me);
        match self.lease_decide(me, look) {
            Ok(Some(guard)) => {
                proof {
                    assert(final(self)@ =~= (Table { writer: me, ..old(self)@ }));
                }
                Ok(guard)
            },
            Ok(None) => Err(StoreError::WriterActive),
            Err(e) => Err(e),
        }
    }

    fn set_writer(&mut self, me: u32)
        requires
            old(self).wf(),
        ensures
            final(self).wf(),
            final(self).opened_for() == old(self).opened_for(),
            final(self)@ == (Table { writer: me, ..old(self)@ }),
    {
        let ghost before = self.words@;
        self.words.set(5, me);
        proof {
            lemma_header_write(before, self.words@, 5);
            assert(self@ =~= (Table { writer: me, ..old(self)@ }));
        }
    }
}

proof fn lemma_header_write(before: Seq<u32>, after: Seq<u32>, at: int)
    requires
        before.len() == TABLE_WORDS,
        0 <= at < 16,
        after == before.update(at, after[at]),
    ensures
        table_of(after).cpu == table_of(before).cpu,
        table_of(after).accel == table_of(before).accel,
{
    assert(after.subrange(16, 32) =~= before.subrange(16, 32));
    assert forall|i: int| 0 <= i < 8 implies #[trigger] table_of(after).accel[i] == table_of(
        before,
    ).accel[i] by {
        assert(accel_slice(after, i) =~= accel_slice(before, i));
    }
    assert(table_of(after).accel =~= table_of(before).accel);
}

impl WriterGuard {
    /// Shows that the holder is alive.
    pub fn beat(&self, store: &mut CalibrationStore)
        requires
            old(store).wf(),
        ensures
            final(store).wf(),
            final(store).opened_for() == old(store).opened_for(),
            final(store)@ == (Table {
                beat: ((old(store)@.beat + 1) % 0x1_0000_0000_0000_0000) as u64,
                ..old(store)@
            }),
    {
        let ghost before = store.words@;
        let now: u64 = join_halves(store.words[6], store.words[7]).wrapping_add(1);
        store.words.set(6, low_half(now));
        let ghost mid = store.words@;
        store.words.set(7, high_half(now));
        proof {
            lemma_header_write(before, mid, 6);
            lemma_header_write(mid, store.words@, 7);
            assert(store@ =~= (Table { beat: now, ..old(store)@ }));
        }
    }

    /// Publishes records: odd version, records, device count, even version.
    pub fn publish(&self, store: &mut CalibrationStore, cpu: &CpuCalibration, accel: &Vec<
        AccelCalibration,
    >)
        requires
            old(store).wf(),
        ensures
            final(store).wf(),
            final(store).opened_for() == old(store).opened_for(),
            final(store)@ == published(old(store)@, *cpu, accel@),
    {
        let n: usize = if accel.len() < MAX_ACCEL { accel.len() } else { MAX_ACCEL };
        let ghost w0 = store.words@;
        let raised: u32 = store.words[4].wrapping_add(1);
        store.words.set(4, raised);
        let ghost w1 = store.words@;
        proof {
            lemma_header_write(w0, w1, 4);
        }
        let block = encode_cpu(cpu);
        write_block(&mut store.words, CPU_AT, &block);
        let ghost w2 = store.words@;
        proof {
            law_records_read_back(*cpu, no_accel());
            assert(w2.subrange(16, 32) =~= cpu_words(*cpu));
            assert forall|i: int| 0 <= i < 8 implies #[trigger] accel_slice(w2, i) == accel_slice(
                w0,
                i,
            ) by {
                assert(accel_slice(w2, i) =~= accel_slice(w0, i));
            }
        }
        let mut i: usize = 0;
        while i < n
            invariant
                i <= n,
                n <= 8,
                n <= accel@.len(),
                store.words@.len() == TABLE_WORDS,
                w2.len() == TABLE_WORDS,
                store.opened_for() == old(store).opened_for(),
                forall|k: int| 0 <= k < 32 ==> #[trigger] store.words@[k] == w2[k],
                forall|j: int|
                    0 <= j < 8 ==> #[trigger] accel_slice(store.words@, j) == if j < i {
                        accel_words(accel@[j])
                    } else {
                        accel_slice(w2, j)
                    },
            decreases n - i,
        {
            let ghost pre = store.words@;
            let words = encode_accel(&accel[i]);
            proof {
                law_records_read_back(*cpu, accel@[i as int]);
            }
            let at: usize = ACCEL_AT + ACCEL_WORDS * i;
            write_block(&mut store.words, at, &words);
            proof {
                assert forall|j: int| 0 <= j < 8 implies #[trigger] accel_slice(store.words@, j)
                    == if j < i + 1 {
                    accel_words(accel@[j])
                } else {
                    accel_slice(w2, j)
                } by {
                    if j == i {
                        assert(accel_slice(store.words@, j) =~= words@);
                    } else {
                        assert(accel_slice(store.words@, j) =~= accel_slice(pre, j));
                    }
                }
            }
            i += 1;
        }
        let ghost w3 = store.words@;
        store.words.set(10, n as u32);
        let ghost w4 = store.words@;
        let settled: u32 = store.words[4].wrapping_add(1);
        store.words.set(4, settled);
        proof {
            lemma_header_write(w3, w4, 10);
            lemma_header_write(w4, store.words@, 4);
            assert(w3.subrange(16, 32) =~= w2.subrange(16, 32));
            let p = published(old(store)@, *cpu, accel@);
            assert forall|j: int| 0 <= j < 8 implies #[trigger] store@.accel[j] == p.accel[j] by {
                assert(table_of(w3).accel[j] == accel_of(accel_slice(w3, j)));
                if j < n {
                    law_records_read_back(*cpu, accel@[j]);
                } else {
                    assert(accel_slice(w3, j) == accel_slice(w0, j));
                }
            }
            assert(store@.accel =~= p.accel);
            assert(store@ =~= p);
        }
    }

    /// Gives the lease back, unless another process has taken it: then that
    /// process keeps it and is named.
    pub fn release(self, store: &mut CalibrationStore) -> (res: Option<u32>)
        requires
            old(store).wf(),
        ensures
            final(store).wf(),
            final(store).opened_for() == old(store).opened_for(),
            old(store)@.writer == self.holder() ==> res is None && final(store)@ == (Table {
                writer: NO_WRITER,
                ..old(store)@
            }),
            old(store)@.writer != self.holder() ==> res == Some(old(store)@.writer) && final(store)@ == old(store)@,
    {
        let holder: u32 = store.words[5];
        if holder == self.pid {
            store.set_writer(NO_WRITER);
            None
        } else {
            Some(holder)
        }
    }
}

/// A holder that does not beat loses the lease to whoever looks twice, so a
/// dead writer does not keep the host from being measured.
pub proof fn law_quiet_holder_is_replaced(t: Table, me: u32)
    ensures
        lease_decision(t, me, (LeaseLook::Held { holder: t.writer, beat: t.beat })) == Ok::<
            bool,
            StoreError,
        >(true),
{
}

/// A holder that beats between two looks keeps the lease.
pub proof fn law_beating_holder_keeps_the_lease(t: Table, me: u32, holder: u32, beat: u64)
    requires
        t.beat != beat,
    ensures
        lease_decision(t, me, (LeaseLook::Held { holder, beat })) == Err::<bool, StoreError>(
            StoreError::WriterActive,
        ),
{
}

/// A table survives being written to its file and opened again: the bytes give
/// the same words, hence the same records.
pub proof fn law_table_survives_its_file(store: CalibrationStore)
    requires
        store.wf(),
    ensures
        bytes_of(store.words()).len() == FILE_SIZE,
        words_of(bytes_of(store.words()).subrange(0, FILE_SIZE as int)) == store.words(),
        table_of(words_of(bytes_of(store.words()).subrange(0, FILE_SIZE as int))) == store@,
{
    let b = bytes_of(store.words());
    law_words_read_back(store.words());
    assert(b.subrange(0, FILE_SIZE as int) =~= b);
}

/// Of two processes that decide on the same look at the table, at most one
/// gets the lease.
pub proof fn law_lease_goes_to_one(t: Table, look: LeaseLook, first: u32, second: u32)
    requires
        first != second,
        first != NO_WRITER,
        look !is Mine,
        look matches LeaseLook::Held { holder, beat } ==> holder != first,
        lease_decision(t, first, look) == Ok::<bool, StoreError>(true),
    ensures
        lease_decision((Table { writer: first, ..t }), second, look) != Ok::<bool, StoreError>(
            true,
        ),
{
}

/// The spread of samples is their range over their middle one, in thousandths,
/// rounded down and cut to 32 bits; a middle of zero counts as one.
pub proof fn law_spread_is_range_over_middle(samples: Seq<u64>, ordered: Seq<u64>)
    requires
        samples.len() > 0,
        ordered.to_multiset() == samples.to_multiset(),
        forall|i: int, j: int|
            0 <= i <= j < ordered.len() ==> #[trigger] ordered[i] <= #[trigger] ordered[j],
    ensures
        ({
            let r = spread_of(samples);
            let m = if ordered[samples.len() as int / 2] == 0 {
                1
            } else {
                ordered[samples.len() as int / 2] as int
            };
            let range = ordered.last() - ordered.first();
            &&& 0 <= r <= u32::MAX
            &&& r < u32::MAX ==> r * m <= 1000 * range < (r + 1) * m
            &&& r == u32::MAX ==> r * m <= 1000 * range
        }),
        spread_of(Seq::empty()) == 0,
{
    let leq = |a: u64, b: u64| a <= b;
    crate::math::lemma_leq_total();
    samples.lemma_sort_by_ensures(leq);
    assert(vstd::relations::sorted_by(ordered, leq));
    vstd::seq_lib::lemma_sorted_unique(ordered, ascending(samples), leq);
    samples.to_multiset_ensures();
    ordered.to_multiset_ensures();
    let n = ordered.len() as int;
    assert(n == samples.len());
    assert(ordered[0] <= ordered[n - 1]);
    let m = if median(samples) == 0 {
        1
    } else {
        median(samples) as int
    };
    let x = (ordered.last() - ordered.first()) * 1000;
    let q = x / m;
    vstd::arithmetic::div_mod::lemma_fundamental_div_mod(x, m);
    assert(q * m <= x < (q + 1) * m && q >= 0) by (nonlinear_arith)
        requires
            x == m * q + x % m,
            0 <= x % m < m,
            0 <= x,
            0 < m,
            q == x / m,
    ;
    let r = spread_of(samples);
    if q > u32::MAX {
        assert(r * m <= q * m) by (nonlinear_arith)
            requires
                r <= q,
                0 < m,
        ;
    }
}

/// A freshly laid-out table is one that this build opens for its own stamp: it
/// has a magic and this build's layout.
pub proof fn law_fresh_table_can_be_opened(stamp: u64)
    ensures
        fresh_table(stamp).magic != 0,
        layout_fits(fresh_table(stamp)),
        fresh_table(stamp).stamp == stamp,
        fresh_table(stamp).writer == 0,
        fresh_table(stamp).version % 2 == 0,
{
}

/// A table laid out under another layout version, another record size or with
/// another magic is not taken.
pub proof fn law_other_layouts_do_not_fit(t: Table, u: Table)
    requires
        layout_fits(t),
        layout_fits(u),
    ensures
        t.magic == u.magic,
        t.layout_version == u.layout_version,
        t.record_bytes == u.record_bytes,
        t.record_bytes == 64,
{
}

/// A lease that nobody held at the first look is taken only if nobody holds it
/// at the second; one that changed hands between two looks is refused; one's
/// own is kept.
pub proof fn law_lease_answers(t: Table, me: u32, holder: u32, beat: u64)
    ensures
        lease_decision(t, me, LeaseLook::Mine) == Ok::<bool, StoreError>(true),
        lease_decision(t, me, LeaseLook::Free) == Ok::<bool, StoreError>(t.writer == 0),
        t.writer != holder ==> lease_decision(t, me, (LeaseLook::Held { holder, beat })) == Err::<
            bool,
            StoreError,
        >(StoreError::WriterActive),
{
}

proof fn lemma_low_byte(low: int, rest: int)
    requires
        0 <= low < 256,
    ensures
        (low + 256 * rest) % 256 == low,
        (low + 256 * rest) / 256 == rest,
{
}

/// A table's file is a sequence of words with the little end first: dividing a
/// word by 256 again and again gives its bytes in the order of the file.
pub proof fn law_words_are_little_endian(bytes: Seq<u8>, k: int)
    requires
        0 <= k,
        4 * k + 3 < bytes.len(),
    ensures
        ({
            let w = words_of(bytes)[k] as int;
            &&& w % 256 == bytes[4 * k]
            &&& w / 256 % 256 == bytes[4 * k + 1]
            &&& w / 256 / 256 % 256 == bytes[4 * k + 2]
            &&& w / 256 / 256 / 256 == bytes[4 * k + 3]
        }),
{
    let a = bytes[4 * k] as int;
    let b = bytes[4 * k + 1] as int;
    let c = bytes[4 * k + 2] as int;
    let d = bytes[4 * k + 3] as int;
    assert(words_of(bytes)[k] == a + 256 * (b + 256 * (c + 256 * d)));
    lemma_low_byte(a, b + 256 * (c + 256 * d));
    lemma_low_byte(b, c + 256 * d);
    lemma_low_byte(c, d);
}

/// A publication changes the records, the device count and the version, and
/// nothing else; devices beyond the eighth are dropped, and the version that a
/// reader compares moves on.
pub proof fn law_publishing_keeps_the_header(
    t: Table,
    cpu: CpuCalibration,
    accel: Seq<AccelCalibration>,
)
    ensures
        ({
            let p = published(t, cpu, accel);
            &&& p.stamp == t.stamp && p.writer == t.writer && p.beat == t.beat && p.magic == t.magic
            &&& p.layout_version == t.layout_version && p.record_bytes == t.record_bytes
            &&& p.version != t.version && p.version % 2 == t.version % 2
            &&& forall|i: int| 0 <= i < accel.len() && i < 8 ==> #[trigger] p.accel[i] == accel[i]
            &&& accel.len() <= 8 ==> p.accel_count == accel.len()
            &&& accel.len() > 8 ==> p.accel_count == 8
            &&& p.cpu == cpu
        }),
{
}

/// A file of a directory: the directory, one slash and the name, whether or not
/// the directory is written with its slash.
pub proof fn law_files_of_a_directory(dir: Seq<char>, name: Seq<char>)
    requires
        dir.len() > 0,
        dir.last() != '/',
    ensures
        in_dir(dir, name) == dir.push('/') + name,
        in_dir(dir.push('/'), name) == dir.push('/') + name,
        in_dir(Seq::empty(), name) == name,
{
    reveal_strlit("/");
    assert("/"@ =~= seq!['/']);
    assert(dir + "/"@ + name =~= dir.push('/') + name);
    assert(Seq::<char>::empty() + name =~= name);
}

} // verus!
