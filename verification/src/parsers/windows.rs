//! Windows parsers for the `Key=Value` text of PowerShell CIM queries.
//!
//! Each query prints one property per line as `Key=Value`, with the objects of
//! a multi-object result separated by a line holding only `---`. Lines without
//! `=` are ignored; keys and values are trimmed.

use vstd::prelude::*;
use crate::format::{fmt_millivolts, millivolts_text};
use crate::parsers::top::{top_by_rss, top_by_rss_of};
use crate::text::{
    chars_of, line_spans, lines, parse_u32, parse_u32_in, span_eq, split_once, split_once_in,
    string_lit, string_of, trim, trim_in, u64_or_zero, u64_or_zero_in,
};
use crate::types::{
    dimms_view, empty_dimm, empty_mobo, procs_view, zero_mem_stats, DimmSlot, DimmSlotView,
    MemArrayInfo, MemStats, MoboInfo, MoboInfoView, ProcessMem, ProcessMemView,
};

verus! {

// ─── Key=Value lines ──────────────────────────────────────────────────────────

/// The trimmed key and value of a `Key=Value` line, split at its first `=`.
pub open spec fn kv_of(raw: Seq<char>) -> Option<(Seq<char>, Seq<char>)> {
    match split_once(trim(raw), '=') {
        Some((k, v)) => Some((trim(k), trim(v))),
        None => None,
    }
}

/// Whether a line separates two objects (`---` once trimmed).
pub open spec fn is_separator(raw: Seq<char>) -> bool {
    trim(raw) == "---"@
}

/// A value as `u64`, or 0 for anything else.
pub open spec fn num_of(val: Seq<char>) -> u64 {
    u64_or_zero(trim(val))
}

/// A value as `u32`, or 0 for anything else.
pub open spec fn num32_of(val: Seq<char>) -> u32 {
    match parse_u32(trim(val)) {
        Some(n) => n,
        None => 0,
    }
}

/// The spans of the trimmed key and value of the line `[a, b)`.
fn kv_spans(cs: &Vec<char>, a: usize, b: usize) -> (r: Option<(usize, usize, usize, usize)>)
    requires
        a <= b <= cs.len(),
    ensures
        match r {
            Some((k0, k1, v0, v1)) => {
                &&& k0 <= k1 <= cs.len()
                &&& v0 <= v1 <= cs.len()
                &&& kv_of(cs@.subrange(a as int, b as int)) == Some(
                    (cs@.subrange(k0 as int, k1 as int), cs@.subrange(v0 as int, v1 as int)),
                )
            },
            None => kv_of(cs@.subrange(a as int, b as int)) is None,
        },
{
    let (x, y) = trim_in(cs, a, b);
    match split_once_in(cs, x, y, '=') {
        None => None,
        Some(i) => {
            let (k0, k1) = trim_in(cs, x, i);
            let (v0, v1) = trim_in(cs, i + 1, y);
            Some((k0, k1, v0, v1))
        },
    }
}

fn num_in(cs: &Vec<char>, a: usize, b: usize) -> (r: u64)
    requires
        a <= b <= cs.len(),
    ensures
        r == num_of(cs@.subrange(a as int, b as int)),
{
    let (x, y) = trim_in(cs, a, b);
    u64_or_zero_in(cs, x, y)
}

fn num32_in(cs: &Vec<char>, a: usize, b: usize) -> (r: u32)
    requires
        a <= b <= cs.len(),
    ensures
        r == num32_of(cs@.subrange(a as int, b as int)),
{
    let (x, y) = trim_in(cs, a, b);
    match parse_u32_in(cs, x, y) {
        Some(n) => n,
        None => 0,
    }
}

// ─── Win32_OperatingSystem ────────────────────────────────────────────────────

/// One line of `Win32_OperatingSystem` output applied to the statistics read so far.
pub open spec fn status_step(m: MemStats, raw: Seq<char>) -> MemStats {
    match kv_of(raw) {
        None => m,
        Some((k, v)) => if k == "TotalVisibleMemorySize"@ {
            MemStats { total_kb: num_of(v), ..m }
        } else if k == "FreePhysicalMemory"@ {
            MemStats { free_kb: num_of(v), ..m }
        } else {
            m
        },
    }
}

/// The statistics that the lines `ls` describe, read in order from zero.
pub open spec fn status_of(ls: Seq<Seq<char>>) -> MemStats
    decreases ls.len(),
{
    if ls.len() == 0 {
        zero_mem_stats()
    } else {
        status_step(status_of(ls.drop_last()), ls.last())
    }
}

/// The number of the last `key=value` line of `ls` (0 when it is empty or not
/// a number), or 0 without one.
pub open spec fn last_kv_num(ls: Seq<Seq<char>>, key: Seq<char>) -> u64
    decreases ls.len(),
{
    if ls.len() == 0 {
        0
    } else {
        match kv_of(ls.last()) {
            Some((k, v)) => if k == key {
                num_of(v)
            } else {
                last_kv_num(ls.drop_last(), key)
            },
            None => last_kv_num(ls.drop_last(), key),
        }
    }
}

/// `Win32_OperatingSystem` output, field by field: the total and the free
/// memory are the numbers of the last `TotalVisibleMemorySize` and
/// `FreePhysicalMemory` lines (0 without one); every other field is 0.
pub proof fn lemma_memory_status_last_lines(ls: Seq<Seq<char>>)
    ensures
        status_of(ls) == (MemStats {
            total_kb: last_kv_num(ls, "TotalVisibleMemorySize"@),
            free_kb: last_kv_num(ls, "FreePhysicalMemory"@),
            ..zero_mem_stats()
        }),
    decreases ls.len(),
{
    reveal_strlit("TotalVisibleMemorySize");
    reveal_strlit("FreePhysicalMemory");
    assert("TotalVisibleMemorySize"@.len() != "FreePhysicalMemory"@.len());
    if ls.len() > 0 {
        lemma_memory_status_last_lines(ls.drop_last());
    }
}

/// Parse `Win32_OperatingSystem` `Key=Value` output into a [`MemStats`].
///
/// Expects `TotalVisibleMemorySize=<KB>` and `FreePhysicalMemory=<KB>`.
/// `available_kb` mirrors `free_kb`; buffers, cached and the swap fields are 0
/// (swap comes from [`parse_pagefile`]).
pub fn parse_memory_status(text: &str) -> (s: MemStats)
    ensures
        s == (MemStats { available_kb: status_of(lines(text@)).free_kb, ..status_of(lines(text@)) }),
        s.buffers_kb == 0 && s.cached_kb == 0,
        s.swap_total_kb == 0 && s.swap_free_kb == 0,
{
    let cs = chars_of(text);
    let spans = line_spans(&cs);
    let ghost ls = lines(cs@);
    let mut s = MemStats::default();
    let mut k: usize = 0;
    assert(ls.take(0) =~= Seq::<Seq<char>>::empty());
    while k < spans.len()
        invariant
            k <= spans.len() == ls.len(),
            ls == lines(cs@),
            forall|j: int|
                0 <= j < spans.len() ==> {
                    &&& (#[trigger] spans@[j]).0 <= spans@[j].1 <= cs.len()
                    &&& cs@.subrange(spans@[j].0 as int, spans@[j].1 as int) == ls[j]
                },
            s == status_of(ls.take(k as int)),
            s.buffers_kb == 0 && s.cached_kb == 0,
            s.swap_total_kb == 0 && s.swap_free_kb == 0,
        decreases spans.len() - k,
    {
        let (a, b) = spans[k];
        assert(ls.take(k + 1).drop_last() =~= ls.take(k as int));
        assert(ls.take(k + 1).last() == cs@.subrange(a as int, b as int));
        if let Some((k0, k1, v0, v1)) = kv_spans(&cs, a, b) {
            if span_eq(&cs, k0, k1, "TotalVisibleMemorySize") {
                s.total_kb = num_in(&cs, v0, v1);
            } else if span_eq(&cs, k0, k1, "FreePhysicalMemory") {
                s.free_kb = num_in(&cs, v0, v1);
            }
        }
        k = k + 1;
    }
    assert(ls.take(ls.len() as int) =~= ls);
    s.available_kb = s.free_kb;
    s
}

// ─── Win32_PageFileUsage ──────────────────────────────────────────────────────

/// One line of `Win32_PageFileUsage` output applied to the running sums of
/// allocated and used megabytes.
pub open spec fn page_step(st: (nat, nat), raw: Seq<char>) -> (nat, nat) {
    match kv_of(raw) {
        None => st,
        Some((k, v)) => if k == "AllocatedBaseSize"@ {
            (st.0 + num_of(v) as nat, st.1)
        } else if k == "CurrentUsage"@ {
            (st.0, st.1 + num_of(v) as nat)
        } else {
            st
        },
    }
}

/// The sums of allocated and used megabytes over the lines `ls`.
pub open spec fn page_of(ls: Seq<Seq<char>>) -> (nat, nat)
    decreases ls.len(),
{
    if ls.len() == 0 {
        (0, 0)
    } else {
        page_step(page_of(ls.drop_last()), ls.last())
    }
}

/// `x`, saturating at `u64::MAX`.
pub open spec fn sat64(x: int) -> u64 {
    if x > u64::MAX {
        u64::MAX
    } else {
        x as u64
    }
}

/// `(swap_total_kb, swap_free_kb)`: the allocated megabytes, and the allocated
/// minus the used megabytes (0 if more is used), both in kilobytes. The sums
/// and the products saturate at `u64::MAX`.
pub open spec fn pagefile_totals(ls: Seq<Seq<char>>) -> (u64, u64) {
    let (alloc_sum, usage_sum) = page_of(ls);
    let alloc = sat64(alloc_sum as int);
    let usage = sat64(usage_sum as int);
    (sat64(alloc * 1024), sat64((if alloc > usage { alloc - usage } else { 0 }) * 1024))
}

/// Parse `Win32_PageFileUsage` `Key=Value` output into
/// `(swap_total_kb, swap_free_kb)`.
///
/// Expects `AllocatedBaseSize=<MB>` and `CurrentUsage=<MB>` per pagefile, with
/// multiple pagefiles separated by `---` lines (their sizes are summed). Free
/// space is allocated minus used, converted from MB to KB; sums and products
/// saturate at `u64::MAX`. Returns `(0, 0)` on empty or garbage input.
pub fn parse_pagefile(text: &str) -> (r: (u64, u64))
    ensures
        r == pagefile_totals(lines(text@)),
{
    let cs = chars_of(text);
    let spans = line_spans(&cs);
    let ghost ls = lines(cs@);
    let mut alloc: u64 = 0;
    let mut usage: u64 = 0;
    let mut k: usize = 0;
    assert(ls.take(0) =~= Seq::<Seq<char>>::empty());
    while k < spans.len()
        invariant
            k <= spans.len() == ls.len(),
            ls == lines(cs@),
            cs@ == text@,
            forall|j: int|
                0 <= j < spans.len() ==> {
                    &&& (#[trigger] spans@[j]).0 <= spans@[j].1 <= cs.len()
                    &&& cs@.subrange(spans@[j].0 as int, spans@[j].1 as int) == ls[j]
                },
            alloc == sat64(page_of(ls.take(k as int)).0 as int),
            usage == sat64(page_of(ls.take(k as int)).1 as int),
        decreases spans.len() - k,
    {
        let (a, b) = spans[k];
        assert(ls.take(k + 1).drop_last() =~= ls.take(k as int));
        assert(ls.take(k + 1).last() == cs@.subrange(a as int, b as int));
        if let Some((k0, k1, v0, v1)) = kv_spans(&cs, a, b) {
            if span_eq(&cs, k0, k1, "AllocatedBaseSize") {
                alloc = alloc.saturating_add(num_in(&cs, v0, v1));
            } else if span_eq(&cs, k0, k1, "CurrentUsage") {
                usage = usage.saturating_add(num_in(&cs, v0, v1));
            }
        }
        k = k + 1;
    }
    assert(ls.take(ls.len() as int) =~= ls);
    let total_kb = if alloc <= u64::MAX / 1024 {
        alloc * 1024
    } else {
        u64::MAX
    };
    let spare = alloc.saturating_sub(usage);
    let free_kb = if spare <= u64::MAX / 1024 {
        spare * 1024
    } else {
        u64::MAX
    };
    (total_kb, free_kb)
}

/// Memory statistics on Windows from the output of the `Win32_OperatingSystem`
/// query and of the `Win32_PageFileUsage` query (each `None` when it did not
/// run): zero statistics without the first, swap left at 0 without the second.
pub fn collect_mem_stats(os_text: Option<&str>, pagefile_text: Option<&str>) -> (m: MemStats)
    ensures
        m.total_kb == (match os_text {
            Some(t) => status_of(lines(t@)).total_kb,
            None => 0,
        }),
        m.free_kb == (match os_text {
            Some(t) => status_of(lines(t@)).free_kb,
            None => 0,
        }),
        m.available_kb == m.free_kb,
        m.buffers_kb == 0,
        m.cached_kb == 0,
        (m.swap_total_kb, m.swap_free_kb) == (match pagefile_text {
            Some(t) => pagefile_totals(lines(t@)),
            None => (0u64, 0u64),
        }),
{
    let mut stats = match os_text {
        Some(t) => parse_memory_status(t),
        None => MemStats::default(),
    };
    if let Some(t) = pagefile_text {
        let (swap_total, swap_free) = parse_pagefile(t);
        stats.swap_total_kb = swap_total;
        stats.swap_free_kb = swap_free;
    }
    stats
}

// ─── Win32_PhysicalMemory ─────────────────────────────────────────────────────

/// The display name of an SMBIOS memory type code (`RAM` for unknown codes).
pub open spec fn smbios_name(code: u64) -> Seq<char> {
    if code == 20 {
        "DDR"@
    } else if code == 21 {
        "DDR2"@
    } else if code == 24 {
        "DDR3"@
    } else if code == 26 {
        "DDR4"@
    } else if code == 27 {
        "LPDDR"@
    } else if code == 28 {
        "LPDDR2"@
    } else if code == 29 {
        "LPDDR3"@
    } else if code == 30 {
        "LPDDR4"@
    } else if code == 34 {
        "DDR5"@
    } else if code == 35 {
        "LPDDR5"@
    } else {
        "RAM"@
    }
}

/// Map an SMBIOS memory type code (`SMBIOSMemoryType`) to a display name.
fn smbios_mem_type(code: u64) -> (r: &'static str)
    ensures
        r@ == smbios_name(code),
{
    if code == 20 {
        "DDR"
    } else if code == 21 {
        "DDR2"
    } else if code == 24 {
        "DDR3"
    } else if code == 26 {
        "DDR4"
    } else if code == 27 {
        "LPDDR"
    } else if code == 28 {
        "LPDDR2"
    } else if code == 29 {
        "LPDDR3"
    } else if code == 30 {
        "LPDDR4"
    } else if code == 34 {
        "DDR5"
    } else if code == 35 {
        "LPDDR5"
    } else {
        "RAM"
    }
}

/// A module before any property is read: every field empty but the type `RAM`.
pub open spec fn new_module() -> DimmSlotView {
    DimmSlotView { mem_type: "RAM"@, ..empty_dimm() }
}

/// One `Key=Value` property applied to the module read so far.
pub open spec fn module_field(d: DimmSlotView, k: Seq<char>, v: Seq<char>) -> DimmSlotView {
    if k == "DeviceLocator"@ {
        DimmSlotView { locator: v, ..d }
    } else if k == "Capacity"@ {
        DimmSlotView { size_mb: num_of(v) / 1048576, ..d }
    } else if k == "Speed"@ {
        DimmSlotView { speed_mhz: num_of(v), ..d }
    } else if k == "ConfiguredClockSpeed"@ {
        DimmSlotView { configured_speed: num_of(v), ..d }
    } else if k == "Manufacturer"@ {
        DimmSlotView { manufacturer: v, ..d }
    } else if k == "PartNumber"@ {
        DimmSlotView { part_number: trim(v), ..d }
    } else if k == "SMBIOSMemoryType"@ {
        DimmSlotView { mem_type: smbios_name(num_of(v)), ..d }
    } else if k == "ConfiguredVoltage"@ {
        if num_of(v) > 0 {
            DimmSlotView { voltage: millivolts_text(num_of(v)), ..d }
        } else {
            d
        }
    } else {
        d
    }
}

/// `done` with `d` appended when its size is not zero.
pub open spec fn keep_sized(done: Seq<DimmSlotView>, d: DimmSlotView) -> Seq<DimmSlotView> {
    if d.size_mb > 0 {
        done.push(d)
    } else {
        done
    }
}

/// The modules finished so far and the module being read.
pub struct ModulesState {
    pub done: Seq<DimmSlotView>,
    pub cur: DimmSlotView,
}

/// One line of `Win32_PhysicalMemory` output applied to the reading state.
pub open spec fn modules_step(st: ModulesState, raw: Seq<char>) -> ModulesState {
    if is_separator(raw) {
        ModulesState { done: keep_sized(st.done, st.cur), cur: new_module() }
    } else {
        match kv_of(raw) {
            None => st,
            Some((k, v)) => ModulesState { cur: module_field(st.cur, k, v), ..st },
        }
    }
}

/// The reading state after the lines `ls`.
pub open spec fn modules_of(ls: Seq<Seq<char>>) -> ModulesState
    decreases ls.len(),
{
    if ls.len() == 0 {
        ModulesState { done: seq![], cur: new_module() }
    } else {
        modules_step(modules_of(ls.drop_last()), ls.last())
    }
}

/// The modules with a non-zero capacity that the lines `ls` describe, in order.
pub open spec fn physical_modules(ls: Seq<Seq<char>>) -> Seq<DimmSlotView> {
    keep_sized(modules_of(ls).done, modules_of(ls).cur)
}

/// The lines `ls` split at their `---` separator lines (the separators left
/// out): one block per object, the last one possibly empty.
pub open spec fn blocks(ls: Seq<Seq<char>>) -> Seq<Seq<Seq<char>>>
    decreases ls.len(),
{
    if ls.len() == 0 {
        seq![seq![]]
    } else {
        let bs = blocks(ls.drop_last());
        if is_separator(ls.last()) {
            bs.push(seq![])
        } else {
            bs.update(bs.len() - 1, bs.last().push(ls.last()))
        }
    }
}

/// The module that the lines of one block describe: each `Key=Value` line
/// applied in order to a module with no property read.
pub open spec fn module_of(b: Seq<Seq<char>>) -> DimmSlotView
    decreases b.len(),
{
    if b.len() == 0 {
        new_module()
    } else {
        match kv_of(b.last()) {
            Some((k, v)) => module_field(module_of(b.drop_last()), k, v),
            None => module_of(b.drop_last()),
        }
    }
}

/// The modules of the blocks `bs` whose capacity is not zero, in block order.
pub open spec fn sized_modules(bs: Seq<Seq<Seq<char>>>) -> Seq<DimmSlotView>
    decreases bs.len(),
{
    if bs.len() == 0 {
        seq![]
    } else {
        keep_sized(sized_modules(bs.drop_last()), module_of(bs.last()))
    }
}

proof fn lemma_blocks_nonempty(ls: Seq<Seq<char>>)
    ensures
        blocks(ls).len() >= 1,
    decreases ls.len(),
{
    if ls.len() > 0 {
        lemma_blocks_nonempty(ls.drop_last());
    }
}

proof fn lemma_modules_by_block(ls: Seq<Seq<char>>)
    ensures
        modules_of(ls).done == sized_modules(blocks(ls).drop_last()),
        modules_of(ls).cur == module_of(blocks(ls).last()),
    decreases ls.len(),
{
    if ls.len() == 0 {
        assert(blocks(ls).drop_last() =~= Seq::<Seq<Seq<char>>>::empty());
    } else {
        let p = ls.drop_last();
        let x = ls.last();
        lemma_modules_by_block(p);
        lemma_blocks_nonempty(p);
        let bs = blocks(p);
        if is_separator(x) {
            assert(blocks(ls).drop_last() =~= bs);
        } else {
            let nb = bs.update(bs.len() - 1, bs.last().push(x));
            assert(nb.drop_last() =~= bs.drop_last());
            assert(nb.last() == bs.last().push(x));
            assert(bs.last().push(x).drop_last() =~= bs.last());
        }
    }
}

/// The value of the last `key=value` line of `b`, if any.
pub open spec fn last_kv_value(b: Seq<Seq<char>>, key: Seq<char>) -> Option<Seq<char>>
    decreases b.len(),
{
    if b.len() == 0 {
        None
    } else {
        match kv_of(b.last()) {
            Some((k, v)) => if k == key {
                Some(v)
            } else {
                last_kv_value(b.drop_last(), key)
            },
            None => last_kv_value(b.drop_last(), key),
        }
    }
}

/// The memory type of a module block, by the SMBIOS code of its last
/// `SMBIOSMemoryType` line: 20 DDR, 21 DDR2, 24 DDR3, 26 DDR4, 27 LPDDR,
/// 28 LPDDR2, 29 LPDDR3, 30 LPDDR4, 34 DDR5, 35 LPDDR5; any other code (or
/// no such line) RAM.
pub proof fn lemma_module_type_table(b: Seq<Seq<char>>)
    ensures
        ({
            let t = module_of(b).mem_type;
            let code = match last_kv_value(b, "SMBIOSMemoryType"@) {
                Some(v) => num_of(v) as int,
                None => -1,
            };
            &&& code == 20 ==> t == "DDR"@
            &&& code == 21 ==> t == "DDR2"@
            &&& code == 24 ==> t == "DDR3"@
            &&& code == 26 ==> t == "DDR4"@
            &&& code == 27 ==> t == "LPDDR"@
            &&& code == 28 ==> t == "LPDDR2"@
            &&& code == 29 ==> t == "LPDDR3"@
            &&& code == 30 ==> t == "LPDDR4"@
            &&& code == 34 ==> t == "DDR5"@
            &&& code == 35 ==> t == "LPDDR5"@
            &&& (code != 20 && code != 21 && code != 24 && code != 26 && code != 27 && code != 28
                && code != 29 && code != 30 && code != 34 && code != 35) ==> t == "RAM"@
        }),
    decreases b.len(),
{
    reveal_strlit("SMBIOSMemoryType");
    reveal_strlit("DeviceLocator");
    reveal_strlit("Capacity");
    reveal_strlit("Speed");
    reveal_strlit("ConfiguredClockSpeed");
    reveal_strlit("Manufacturer");
    reveal_strlit("PartNumber");
    reveal_strlit("ConfiguredVoltage");
    assert("SMBIOSMemoryType"@.len() == 16);
    assert("DeviceLocator"@.len() == 13);
    assert("Capacity"@.len() == 8);
    assert("Speed"@.len() == 5);
    assert("ConfiguredClockSpeed"@.len() == 20);
    assert("Manufacturer"@.len() == 12);
    assert("PartNumber"@.len() == 10);
    assert("ConfiguredVoltage"@.len() == 17);
    if b.len() > 0 {
        lemma_module_type_table(b.drop_last());
    }
}

/// `Win32_PhysicalMemory` output block by block: one slot for each
/// `---`-separated block whose capacity is not zero, in block order, each the
/// module that its block describes (capacity in megabytes, the SMBIOS type
/// name with `RAM` for other or missing codes, the voltage text only for a
/// non-zero `ConfiguredVoltage`).
pub proof fn lemma_physical_modules_by_block(ls: Seq<Seq<char>>)
    ensures
        physical_modules(ls) == sized_modules(blocks(ls)),
{
    lemma_modules_by_block(ls);
    lemma_blocks_nonempty(ls);
    assert(blocks(ls).drop_last().push(blocks(ls).last()) =~= blocks(ls));
    assert(sized_modules(blocks(ls)) == keep_sized(
        sized_modules(blocks(ls).drop_last()),
        module_of(blocks(ls).last()),
    ));
}

fn new_module_exec() -> (d: DimmSlot)
    ensures
        d@ == new_module(),
{
    let mut d = DimmSlot::default();
    d.mem_type = string_lit("RAM");
    d
}

/// Parse `Win32_PhysicalMemory` `Key=Value` output into DIMM slots.
///
/// Modules are separated by `---` lines. `Capacity` is in bytes (converted to
/// megabytes), `Speed`/`ConfiguredClockSpeed` in MT/s, `SMBIOSMemoryType` is a
/// numeric SMBIOS code mapped to a display name (unknown codes become `RAM`),
/// and `ConfiguredVoltage` is in millivolts, formatted as e.g. `1.2 V` (empty
/// if zero or absent). Slots with zero capacity are dropped.
pub fn parse_physical_memory(text: &str) -> (slots: Vec<DimmSlot>)
    ensures
        dimms_view(slots@) == physical_modules(lines(text@)),
{
    let cs = chars_of(text);
    let spans = line_spans(&cs);
    let ghost ls = lines(cs@);
    let mut slots: Vec<DimmSlot> = Vec::new();
    let mut cur = new_module_exec();
    let mut k: usize = 0;
    assert(ls.take(0) =~= Seq::<Seq<char>>::empty());
    assert(dimms_view(slots@) =~= Seq::<DimmSlotView>::empty());
    while k < spans.len()
        invariant
            k <= spans.len() == ls.len(),
            ls == lines(cs@),
            forall|j: int|
                0 <= j < spans.len() ==> {
                    &&& (#[trigger] spans@[j]).0 <= spans@[j].1 <= cs.len()
                    &&& cs@.subrange(spans@[j].0 as int, spans@[j].1 as int) == ls[j]
                },
            dimms_view(slots@) == modules_of(ls.take(k as int)).done,
            cur@ == modules_of(ls.take(k as int)).cur,
        decreases spans.len() - k,
    {
        let (a, b) = spans[k];
        assert(ls.take(k + 1).drop_last() =~= ls.take(k as int));
        assert(ls.take(k + 1).last() == cs@.subrange(a as int, b as int));
        let (x, y) = trim_in(&cs, a, b);
        if span_eq(&cs, x, y, "---") {
            if cur.size_mb > 0 {
                let ghost before = slots@;
                slots.push(cur);
                assert(dimms_view(slots@) =~= dimms_view(before).push(slots@.last()@));
            }
            cur = new_module_exec();
        } else if let Some((k0, k1, v0, v1)) = kv_spans(&cs, a, b) {
            if span_eq(&cs, k0, k1, "DeviceLocator") {
                cur.locator = string_of(&cs, v0, v1);
            } else if span_eq(&cs, k0, k1, "Capacity") {
                cur.size_mb = num_in(&cs, v0, v1) / 1048576;
            } else if span_eq(&cs, k0, k1, "Speed") {
                cur.speed_mhz = num_in(&cs, v0, v1);
            } else if span_eq(&cs, k0, k1, "ConfiguredClockSpeed") {
                cur.configured_speed = num_in(&cs, v0, v1);
            } else if span_eq(&cs, k0, k1, "Manufacturer") {
                cur.manufacturer = string_of(&cs, v0, v1);
            } else if span_eq(&cs, k0, k1, "PartNumber") {
                let (p0, p1) = trim_in(&cs, v0, v1);
                cur.part_number = string_of(&cs, p0, p1);
            } else if span_eq(&cs, k0, k1, "SMBIOSMemoryType") {
                cur.mem_type = string_lit(smbios_mem_type(num_in(&cs, v0, v1)));
            } else if span_eq(&cs, k0, k1, "ConfiguredVoltage") {
                let mv = num_in(&cs, v0, v1);
                if mv > 0 {
                    cur.voltage = fmt_millivolts(mv);
                }
            }
        }
        k = k + 1;
    }
    assert(ls.take(ls.len() as int) =~= ls);
    if cur.size_mb > 0 {
        let ghost before = slots@;
        slots.push(cur);
        assert(dimms_view(slots@) =~= dimms_view(before).push(slots@.last()@));
    }
    slots
}

// ─── Win32_PhysicalMemoryArray ────────────────────────────────────────────────

/// One line of `Win32_PhysicalMemoryArray` output applied to
/// `(MemoryDevices, MaxCapacityEx, MaxCapacity)` read so far.
pub open spec fn array_kv_step(st: (u32, u64, u64), raw: Seq<char>) -> (u32, u64, u64) {
    match kv_of(raw) {
        None => st,
        Some((k, v)) => if k == "MemoryDevices"@ {
            (num32_of(v), st.1, st.2)
        } else if k == "MaxCapacityEx"@ {
            (st.0, num_of(v), st.2)
        } else if k == "MaxCapacity"@ {
            (st.0, st.1, num_of(v))
        } else {
            st
        },
    }
}

/// `(MemoryDevices, MaxCapacityEx, MaxCapacity)` after the lines `ls`.
pub open spec fn array_kv_of(ls: Seq<Seq<char>>) -> (u32, u64, u64)
    decreases ls.len(),
{
    if ls.len() == 0 {
        (0, 0, 0)
    } else {
        array_kv_step(array_kv_of(ls.drop_last()), ls.last())
    }
}

/// Parse `Win32_PhysicalMemoryArray` `Key=Value` output into a [`MemArrayInfo`].
///
/// Expects `MemoryDevices=<count>` and a maximum capacity in kilobytes from
/// `MaxCapacityEx` (preferred; supports > 2 TB) with `MaxCapacity` as a
/// fallback when the extended field is absent or zero.
pub fn parse_memory_array(text: &str) -> (info: MemArrayInfo)
    ensures
        info.total_slots == array_kv_of(lines(text@)).0,
        info.max_capacity_mb == (if array_kv_of(lines(text@)).1 > 0 {
            array_kv_of(lines(text@)).1
        } else {
            array_kv_of(lines(text@)).2
        }) / 1024,
{
    let cs = chars_of(text);
    let spans = line_spans(&cs);
    let ghost ls = lines(cs@);
    let mut slots: u32 = 0;
    let mut max_ex_kb: u64 = 0;
    let mut max_kb: u64 = 0;
    let mut k: usize = 0;
    assert(ls.take(0) =~= Seq::<Seq<char>>::empty());
    while k < spans.len()
        invariant
            k <= spans.len() == ls.len(),
            ls == lines(cs@),
            forall|j: int|
                0 <= j < spans.len() ==> {
                    &&& (#[trigger] spans@[j]).0 <= spans@[j].1 <= cs.len()
                    &&& cs@.subrange(spans@[j].0 as int, spans@[j].1 as int) == ls[j]
                },
            array_kv_of(ls.take(k as int)) == (slots, max_ex_kb, max_kb),
        decreases spans.len() - k,
    {
        let (a, b) = spans[k];
        assert(ls.take(k + 1).drop_last() =~= ls.take(k as int));
        assert(ls.take(k + 1).last() == cs@.subrange(a as int, b as int));
        if let Some((k0, k1, v0, v1)) = kv_spans(&cs, a, b) {
            if span_eq(&cs, k0, k1, "MemoryDevices") {
                slots = num32_in(&cs, v0, v1);
            } else if span_eq(&cs, k0, k1, "MaxCapacityEx") {
                max_ex_kb = num_in(&cs, v0, v1);
            } else if span_eq(&cs, k0, k1, "MaxCapacity") {
                max_kb = num_in(&cs, v0, v1);
            }
        }
        k = k + 1;
    }
    assert(ls.take(ls.len() as int) =~= ls);
    let max = if max_ex_kb > 0 {
        max_ex_kb
    } else {
        max_kb
    };
    MemArrayInfo { total_slots: slots, max_capacity_mb: max / 1024 }
}

// ─── Win32_BaseBoard ──────────────────────────────────────────────────────────

/// One line of `Win32_BaseBoard` output applied to the board info read so far.
pub open spec fn board_step(m: MoboInfoView, raw: Seq<char>) -> MoboInfoView {
    match kv_of(raw) {
        None => m,
        Some((k, v)) => if k == "Manufacturer"@ {
            MoboInfoView { manufacturer: v, ..m }
        } else if k == "Product"@ {
            MoboInfoView { product: v, ..m }
        } else {
            m
        },
    }
}

/// The board info that the lines `ls` describe, read in order from empty fields.
pub open spec fn board_of(ls: Seq<Seq<char>>) -> MoboInfoView
    decreases ls.len(),
{
    if ls.len() == 0 {
        empty_mobo()
    } else {
        board_step(board_of(ls.drop_last()), ls.last())
    }
}

/// Parse `Win32_BaseBoard` `Key=Value` output into a [`MoboInfo`].
///
/// Expects `Manufacturer=` and `Product=` lines.
pub fn parse_baseboard(text: &str) -> (info: MoboInfo)
    ensures
        info@ == board_of(lines(text@)),
{
    let cs = chars_of(text);
    let spans = line_spans(&cs);
    let ghost ls = lines(cs@);
    let mut info = MoboInfo::default();
    let mut k: usize = 0;
    assert(ls.take(0) =~= Seq::<Seq<char>>::empty());
    while k < spans.len()
        invariant
            k <= spans.len() == ls.len(),
            ls == lines(cs@),
            forall|j: int|
                0 <= j < spans.len() ==> {
                    &&& (#[trigger] spans@[j]).0 <= spans@[j].1 <= cs.len()
                    &&& cs@.subrange(spans@[j].0 as int, spans@[j].1 as int) == ls[j]
                },
            info@ == board_of(ls.take(k as int)),
        decreases spans.len() - k,
    {
        let (a, b) = spans[k];
        assert(ls.take(k + 1).drop_last() =~= ls.take(k as int));
        assert(ls.take(k + 1).last() == cs@.subrange(a as int, b as int));
        if let Some((k0, k1, v0, v1)) = kv_spans(&cs, a, b) {
            if span_eq(&cs, k0, k1, "Manufacturer") {
                info.manufacturer = string_of(&cs, v0, v1);
            } else if span_eq(&cs, k0, k1, "Product") {
                info.product = string_of(&cs, v0, v1);
            }
        }
        k = k + 1;
    }
    assert(ls.take(ls.len() as int) =~= ls);
    info
}

// ─── Get-Process ──────────────────────────────────────────────────────────────

/// The processes finished so far and the properties of the one being read.
pub struct ProcessesState {
    pub done: Seq<ProcessMemView>,
    pub pid: u32,
    pub name: Seq<char>,
    pub rss_kb: u64,
}

/// `st.done` with the process being read appended when its working set is
/// not zero.
pub open spec fn flush_process(st: ProcessesState) -> Seq<ProcessMemView> {
    if st.rss_kb > 0 {
        st.done.push(ProcessMemView { pid: st.pid, name: st.name, rss_kb: st.rss_kb })
    } else {
        st.done
    }
}

/// One line of `Get-Process` output applied to the reading state.
pub open spec fn processes_step(st: ProcessesState, raw: Seq<char>) -> ProcessesState {
    if is_separator(raw) {
        ProcessesState { done: flush_process(st), pid: 0, name: seq![], rss_kb: 0 }
    } else {
        match kv_of(raw) {
            None => st,
            Some((k, v)) => if k == "Id"@ {
                ProcessesState { pid: num32_of(v), ..st }
            } else if k == "Name"@ {
                ProcessesState { name: v, ..st }
            } else if k == "WS"@ {
                ProcessesState { rss_kb: num_of(v) / 1024, ..st }
            } else {
                st
            },
        }
    }
}

/// The reading state after the lines `ls`.
pub open spec fn processes_of(ls: Seq<Seq<char>>) -> ProcessesState
    decreases ls.len(),
{
    if ls.len() == 0 {
        ProcessesState { done: seq![], pid: 0, name: seq![], rss_kb: 0 }
    } else {
        processes_step(processes_of(ls.drop_last()), ls.last())
    }
}

/// The processes with a non-zero working set that the lines `ls` describe, in order.
pub open spec fn process_entries(ls: Seq<Seq<char>>) -> Seq<ProcessMemView> {
    flush_process(processes_of(ls))
}

/// Parse `Get-Process` `Key=Value` output into the top `n` memory consumers.
///
/// Processes are separated by `---` lines, each with `Id=`, `Name=`, and
/// `WS=<bytes>` (working set, converted to `rss_kb`). Entries with zero
/// working set are dropped; the result is sorted by memory descending and
/// truncated to `n`.
pub fn parse_process_list(text: &str, n: usize) -> (procs: Vec<ProcessMem>)
    ensures
        procs_view(procs@) == top_by_rss_of(process_entries(lines(text@)), n as nat),
{
    let cs = chars_of(text);
    let spans = line_spans(&cs);
    let ghost ls = lines(cs@);
    let mut all: Vec<ProcessMem> = Vec::new();
    let mut pid: u32 = 0;
    let mut name = String::new();
    let mut rss_kb: u64 = 0;
    let mut k: usize = 0;
    assert(ls.take(0) =~= Seq::<Seq<char>>::empty());
    assert(procs_view(all@) =~= Seq::<ProcessMemView>::empty());
    while k < spans.len()
        invariant
            k <= spans.len() == ls.len(),
            ls == lines(cs@),
            cs@ == text@,
            forall|j: int|
                0 <= j < spans.len() ==> {
                    &&& (#[trigger] spans@[j]).0 <= spans@[j].1 <= cs.len()
                    &&& cs@.subrange(spans@[j].0 as int, spans@[j].1 as int) == ls[j]
                },
            processes_of(ls.take(k as int)) == (ProcessesState {
                done: procs_view(all@),
                pid,
                name: name@,
                rss_kb,
            }),
        decreases spans.len() - k,
    {
        let (a, b) = spans[k];
        assert(ls.take(k + 1).drop_last() =~= ls.take(k as int));
        assert(ls.take(k + 1).last() == cs@.subrange(a as int, b as int));
        let (x, y) = trim_in(&cs, a, b);
        if span_eq(&cs, x, y, "---") {
            if rss_kb > 0 {
                let ghost before = all@;
                all.push(ProcessMem { pid, name, rss_kb });
                assert(procs_view(all@) =~= procs_view(before).push(all@.last()@));
            }
            pid = 0;
            name = String::new();
            rss_kb = 0;
        } else if let Some((k0, k1, v0, v1)) = kv_spans(&cs, a, b) {
            if span_eq(&cs, k0, k1, "Id") {
                pid = num32_in(&cs, v0, v1);
            } else if span_eq(&cs, k0, k1, "Name") {
                name = string_of(&cs, v0, v1);
            } else if span_eq(&cs, k0, k1, "WS") {
                rss_kb = num_in(&cs, v0, v1) / 1024;
            }
        }
        k = k + 1;
    }
    assert(ls.take(ls.len() as int) =~= ls);
    if rss_kb > 0 {
        let ghost before = all@;
        all.push(ProcessMem { pid, name, rss_kb });
        assert(procs_view(all@) =~= procs_view(before).push(all@.last()@));
    }
    top_by_rss(all, n)
}

proof fn lemma_modules_done_sized(ls: Seq<Seq<char>>)
    ensures
        forall|k: int|
            0 <= k < modules_of(ls).done.len() ==> (#[trigger] modules_of(ls).done[k]).size_mb > 0,
    decreases ls.len(),
{
    if ls.len() > 0 {
        let prev = modules_of(ls.drop_last());
        lemma_modules_done_sized(ls.drop_last());
        assert forall|k: int| 0 <= k < modules_of(ls).done.len() implies (#[trigger] modules_of(
            ls,
        ).done[k]).size_mb > 0 by {
            if k < prev.done.len() {
                assert(modules_of(ls).done[k] == prev.done[k]);
            }
        }
    }
}

/// Every module read from `Win32_PhysicalMemory` output has a non-zero capacity.
pub proof fn lemma_physical_modules_sized(ls: Seq<Seq<char>>)
    ensures
        forall|k: int|
            0 <= k < physical_modules(ls).len() ==> (#[trigger] physical_modules(ls)[k]).size_mb
                > 0,
{
    lemma_modules_done_sized(ls);
}

proof fn lemma_processes_done_resident(ls: Seq<Seq<char>>)
    ensures
        forall|k: int|
            0 <= k < processes_of(ls).done.len() ==> (#[trigger] processes_of(ls).done[k]).rss_kb
                > 0,
    decreases ls.len(),
{
    if ls.len() > 0 {
        let prev = processes_of(ls.drop_last());
        lemma_processes_done_resident(ls.drop_last());
        assert forall|k: int| 0 <= k < processes_of(ls).done.len() implies (#[trigger] processes_of(
            ls,
        ).done[k]).rss_kb > 0 by {
            if k < prev.done.len() {
                assert(processes_of(ls).done[k] == prev.done[k]);
            }
        }
    }
}

/// Every process read from `Get-Process` output has a non-zero working set.
pub proof fn lemma_process_entries_resident(ls: Seq<Seq<char>>)
    ensures
        forall|k: int|
            0 <= k < process_entries(ls).len() ==> (#[trigger] process_entries(ls)[k]).rss_kb > 0,
{
    lemma_processes_done_resident(ls);
}

/// The free pagefile space never exceeds the allocated space.
pub proof fn lemma_pagefile_free_within_total(ls: Seq<Seq<char>>)
    ensures
        pagefile_totals(ls).1 <= pagefile_totals(ls).0,
{
    let (alloc_sum, usage_sum) = page_of(ls);
    let alloc = sat64(alloc_sum as int);
    let usage = sat64(usage_sum as int);
    let free: int = if alloc > usage { alloc - usage } else { 0 };
    assert(free * 1024 <= alloc * 1024) by (nonlinear_arith)
        requires
            0 <= free <= alloc,
    ;
}

} // verus!
