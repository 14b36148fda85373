//! The data model shared by the parsers, the application state and the
//! front ends.
//!
//! Each type with text fields has a view that replaces every `String` by its
//! characters (`Seq<char>`); contracts are stated over these views.

use vstd::prelude::*;

verus! {

/// A single physical memory module (DIMM), as reported by `dmidecode -t 17`.
#[derive(Debug, Clone)]
pub struct DimmSlot {
    /// Slot locator, e.g. `ChannelA-DIMM0`.
    pub locator: String,
    /// Module capacity in megabytes.
    pub size_mb: u64,
    /// Rated (maximum) speed in MT/s.
    pub speed_mhz: u64,
    /// Memory type, e.g. `DDR4`, `DDR5`.
    pub mem_type: String,
    /// Module manufacturer.
    pub manufacturer: String,
    /// Manufacturer part number.
    pub part_number: String,
    /// Configured (running) speed in MT/s.
    pub configured_speed: u64,
    /// Configured voltage string, e.g. `1.2 V`.
    pub voltage: String,
}

/// The view of a [`DimmSlot`].
pub struct DimmSlotView {
    pub locator: Seq<char>,
    pub size_mb: u64,
    pub speed_mhz: u64,
    pub mem_type: Seq<char>,
    pub manufacturer: Seq<char>,
    pub part_number: Seq<char>,
    pub configured_speed: u64,
    pub voltage: Seq<char>,
}

impl View for DimmSlot {
    type V = DimmSlotView;

    open spec fn view(&self) -> DimmSlotView {
        DimmSlotView {
            locator: self.locator@,
            size_mb: self.size_mb,
            speed_mhz: self.speed_mhz,
            mem_type: self.mem_type@,
            manufacturer: self.manufacturer@,
            part_number: self.part_number@,
            configured_speed: self.configured_speed,
            voltage: self.voltage@,
        }
    }
}

/// The view of a slot with every field empty or zero.
pub open spec fn empty_dimm() -> DimmSlotView {
    DimmSlotView {
        locator: Seq::empty(),
        size_mb: 0,
        speed_mhz: 0,
        mem_type: Seq::empty(),
        manufacturer: Seq::empty(),
        part_number: Seq::empty(),
        configured_speed: 0,
        voltage: Seq::empty(),
    }
}

impl Default for DimmSlot {
    fn default() -> (r: DimmSlot)
        ensures
            r@ == empty_dimm(),
    {
        DimmSlot {
            locator: String::new(),
            size_mb: 0,
            speed_mhz: 0,
            mem_type: String::new(),
            manufacturer: String::new(),
            part_number: String::new(),
            configured_speed: 0,
            voltage: String::new(),
        }
    }
}

/// The views of a list of slots.
pub open spec fn dimms_view(v: Seq<DimmSlot>) -> Seq<DimmSlotView> {
    v.map_values(|d: DimmSlot| d@)
}

/// System memory statistics. All values are in kilobytes.
#[derive(Debug, Clone, Copy)]
pub struct MemStats {
    pub total_kb: u64,
    pub free_kb: u64,
    pub available_kb: u64,
    pub buffers_kb: u64,
    pub cached_kb: u64,
    pub swap_total_kb: u64,
    pub swap_free_kb: u64,
}

/// All statistics zero.
pub open spec fn zero_mem_stats() -> MemStats {
    MemStats {
        total_kb: 0,
        free_kb: 0,
        available_kb: 0,
        buffers_kb: 0,
        cached_kb: 0,
        swap_total_kb: 0,
        swap_free_kb: 0,
    }
}

impl Default for MemStats {
    fn default() -> (r: MemStats)
        ensures
            r == zero_mem_stats(),
    {
        MemStats {
            total_kb: 0,
            free_kb: 0,
            available_kb: 0,
            buffers_kb: 0,
            cached_kb: 0,
            swap_total_kb: 0,
            swap_free_kb: 0,
        }
    }
}

/// A process and its resident set size (RSS) in kilobytes.
#[derive(Debug, Clone)]
pub struct ProcessMem {
    pub pid: u32,
    pub name: String,
    pub rss_kb: u64,
}

/// The view of a [`ProcessMem`].
pub struct ProcessMemView {
    pub pid: u32,
    pub name: Seq<char>,
    pub rss_kb: u64,
}

impl View for ProcessMem {
    type V = ProcessMemView;

    open spec fn view(&self) -> ProcessMemView {
        ProcessMemView { pid: self.pid, name: self.name@, rss_kb: self.rss_kb }
    }
}

/// The views of a list of processes.
pub open spec fn procs_view(v: Seq<ProcessMem>) -> Seq<ProcessMemView> {
    v.map_values(|p: ProcessMem| p@)
}

/// Raspberry Pi board memory details (soldered LPDDR, no DIMM slots).
#[derive(Debug, Clone)]
pub struct PiBoardInfo {
    pub model: String,
    pub mem_type: String,
    pub freq_mhz: Option<u64>,
    pub voltage: Option<String>,
}

/// The view of a [`PiBoardInfo`].
pub struct PiBoardInfoView {
    pub model: Seq<char>,
    pub mem_type: Seq<char>,
    pub freq_mhz: Option<u64>,
    pub voltage: Option<Seq<char>>,
}

impl View for PiBoardInfo {
    type V = PiBoardInfoView;

    open spec fn view(&self) -> PiBoardInfoView {
        PiBoardInfoView {
            model: self.model@,
            mem_type: self.mem_type@,
            freq_mhz: self.freq_mhz,
            voltage: match self.voltage {
                Some(v) => Some(v@),
                None => None,
            },
        }
    }
}

/// Physical memory array info: slot count and maximum capacity.
#[derive(Debug, Clone, Copy)]
pub struct MemArrayInfo {
    pub total_slots: u32,
    pub max_capacity_mb: u64,
}

/// No slots, no capacity.
pub open spec fn zero_mem_array() -> MemArrayInfo {
    MemArrayInfo { total_slots: 0, max_capacity_mb: 0 }
}

impl Default for MemArrayInfo {
    fn default() -> (r: MemArrayInfo)
        ensures
            r == zero_mem_array(),
    {
        MemArrayInfo { total_slots: 0, max_capacity_mb: 0 }
    }
}

/// Motherboard identification.
#[derive(Debug, Clone)]
pub struct MoboInfo {
    pub manufacturer: String,
    pub product: String,
}

/// The view of a [`MoboInfo`].
pub struct MoboInfoView {
    pub manufacturer: Seq<char>,
    pub product: Seq<char>,
}

impl View for MoboInfo {
    type V = MoboInfoView;

    open spec fn view(&self) -> MoboInfoView {
        MoboInfoView { manufacturer: self.manufacturer@, product: self.product@ }
    }
}

/// Both fields empty.
pub open spec fn empty_mobo() -> MoboInfoView {
    MoboInfoView { manufacturer: Seq::empty(), product: Seq::empty() }
}

impl Default for MoboInfo {
    fn default() -> (r: MoboInfo)
        ensures
            r@ == empty_mobo(),
    {
        MoboInfo { manufacturer: String::new(), product: String::new() }
    }
}

/// A single temperature sensor reading, in thousandths of a degree Celsius
/// (the unit in which hwmon reports it).
#[derive(Debug, Clone)]
pub struct TempReading {
    pub label: String,
    pub milli_celsius: i64,
}

/// The view of a [`TempReading`].
pub struct TempReadingView {
    pub label: Seq<char>,
    pub milli_celsius: i64,
}

impl View for TempReading {
    type V = TempReadingView;

    open spec fn view(&self) -> TempReadingView {
        TempReadingView { label: self.label@, milli_celsius: self.milli_celsius }
    }
}

/// A complete point-in-time snapshot of all memory-related system data.
#[derive(Debug, Clone)]
pub struct Snapshot {
    /// Memory usage statistics.
    pub mem: MemStats,
    /// Installed DIMM modules.
    pub dimms: Vec<DimmSlot>,
    /// Physical memory array info (slot count, max capacity).
    pub array: MemArrayInfo,
    /// RAM temperature sensor readings.
    pub temps: Vec<TempReading>,
    /// Top memory-consuming processes, sorted by RSS descending.
    pub top_consumers: Vec<ProcessMem>,
    /// Raspberry Pi board info, if running on a Pi.
    pub pi: Option<PiBoardInfo>,
    /// Motherboard identification.
    pub mobo: MoboInfo,
}

impl Default for Snapshot {
    fn default() -> (r: Snapshot)
        ensures
            r.mem == zero_mem_stats(),
            r.dimms@.len() == 0,
            r.array == zero_mem_array(),
            r.temps@.len() == 0,
            r.top_consumers@.len() == 0,
            r.pi is None,
            r.mobo@ == empty_mobo(),
    {
        Snapshot {
            mem: MemStats::default(),
            dimms: Vec::new(),
            array: MemArrayInfo::default(),
            temps: Vec::new(),
            top_consumers: Vec::new(),
            pi: None,
            mobo: MoboInfo::default(),
        }
    }
}

} // verus!
