//! Linux parsers: `/proc/meminfo`, `dmidecode`, `/proc/cpuinfo`,
//! `/proc/<pid>/status`, `vcgencmd` and hwmon.

use vstd::prelude::*;
use crate::text::{
    chars_of, contains, ends_with, find, find_in, first_u64_or_zero, first_u64_or_zero_in,
    line_spans, lines, parse_nat, parse_u32, parse_u32_in, parse_u64, parse_u64_in, span_contains,
    span_ends_with, span_eq, span_starts_with, split_once, split_once_in, starts_with, string_lit,
    string_of, trim, trim_end_matches, trim_end_matches_in, trim_in, trim_start_matches,
    trim_start_matches_in, lemma_find_bounds, lemma_find_is, lemma_lines_append, lemma_lines_single,
    strip_cr,
};
use crate::parsers::top::{top_by_rss, top_by_rss_of};
use crate::types::{
    dimms_view, empty_dimm, empty_mobo, procs_view, zero_mem_array, zero_mem_stats, DimmSlot,
    DimmSlotView, MemArrayInfo, MemStats, MoboInfo, MoboInfoView, PiBoardInfo, PiBoardInfoView,
    ProcessMem, ProcessMemView, TempReading, TempReadingView,
};

verus! {

// ─── /proc/meminfo ────────────────────────────────────────────────────────────

/// One `/proc/meminfo` line applied to the statistics read so far: a line
/// `Key: value ...` sets the field of a known key to the first number after
/// the colon (0 when it is missing or not a number); other lines change nothing.
pub open spec fn meminfo_step(m: MemStats, line: Seq<char>) -> MemStats {
    match split_once(line, ':') {
        None => m,
        Some((k, v)) => {
            let key = trim(k);
            let val = first_u64_or_zero(v);
            if key == "MemTotal"@ {
                MemStats { total_kb: val, ..m }
            } else if key == "MemFree"@ {
                MemStats { free_kb: val, ..m }
            } else if key == "MemAvailable"@ {
                MemStats { available_kb: val, ..m }
            } else if key == "Buffers"@ {
                MemStats { buffers_kb: val, ..m }
            } else if key == "Cached"@ {
                MemStats { cached_kb: val, ..m }
            } else if key == "SwapTotal"@ {
                MemStats { swap_total_kb: val, ..m }
            } else if key == "SwapFree"@ {
                MemStats { swap_free_kb: val, ..m }
            } else {
                m
            }
        },
    }
}

/// The statistics that the lines `ls` describe, read in order from all zeros.
pub open spec fn meminfo_of(ls: Seq<Seq<char>>) -> MemStats
    decreases ls.len(),
{
    if ls.len() == 0 {
        zero_mem_stats()
    } else {
        meminfo_step(meminfo_of(ls.drop_last()), ls.last())
    }
}

/// The keys that `/proc/meminfo` parsing reads.
pub open spec fn is_meminfo_key(k: Seq<char>) -> bool {
    k == "MemTotal"@ || k == "MemFree"@ || k == "MemAvailable"@ || k == "Buffers"@ || k
        == "Cached"@ || k == "SwapTotal"@ || k == "SwapFree"@
}

/// A line whose key is not one that is read (or that has no colon), appended
/// to `/proc/meminfo` text, changes nothing of the statistics.
pub proof fn lemma_meminfo_unknown_line(c: Seq<char>, l: Seq<char>)
    requires
        c.len() == 0 || c.last() == '\n',
        forall|j: int| 0 <= j < l.len() ==> l[j] != '\n',
        split_once(l, ':') matches Some((k, v)) ==> !is_meminfo_key(trim(k)),
    ensures
        meminfo_of(lines(c + l + seq!['\n'])) == meminfo_of(lines(c)),
{
    assert(c + l + seq!['\n'] =~= c + (l + seq!['\n']));
    lemma_lines_append(c, l + seq!['\n']);
    lemma_lines_single(l);
    let ls = lines(c);
    let x = strip_cr(l);
    assert(ls + seq![x] =~= ls.push(x));
    assert(ls.push(x).drop_last() =~= ls);
    lemma_find_bounds(l, ':');
    lemma_find_bounds(x, ':');
    if l.len() > 0 && l.last() == '\r' {
        let i = find(l, ':');
        if i >= 0 {
            assert(i < l.len() - 1);
            assert forall|j: int| 0 <= j < i implies x[j] != ':' by {
                assert(x[j] == l[j]);
            }
            lemma_find_is(x, ':', i);
            assert(x.take(i) =~= l.take(i));
        } else {
            assert forall|j: int| 0 <= j < x.len() implies x[j] != ':' by {
                assert(x[j] == l[j]);
            }
            lemma_find_is(x, ':', -1);
        }
    }
}

/// Parse `/proc/meminfo`-formatted text into a [`MemStats`]. Unknown keys are ignored.
pub fn parse_meminfo_content(content: &str) -> (s: MemStats)
    ensures
        s == meminfo_of(lines(content@)),
{
    let cs = chars_of(content);
    let spans = line_spans(&cs);
    let ghost ls = lines(cs@);
    let mut s = MemStats::default();
    let mut k: usize = 0;
    assert(ls.take(0) =~= Seq::<Seq<char>>::empty());
    while k < spans.len()
        invariant
            k <= spans.len() == ls.len(),
            ls == lines(cs@),
            forall|j: int|
                0 <= j < spans.len() ==> {
                    &&& (#[trigger] spans@[j]).0 <= spans@[j].1 <= cs.len()
                    &&& cs@.subrange(spans@[j].0 as int, spans@[j].1 as int) == ls[j]
                },
            s == meminfo_of(ls.take(k as int)),
        decreases spans.len() - k,
    {
        let (a, b) = spans[k];
        let ghost line = cs@.subrange(a as int, b as int);
        assert(ls.take(k + 1).drop_last() =~= ls.take(k as int));
        assert(ls.take(k + 1).last() == line);
        match split_once_in(&cs, a, b, ':') {
            None => {},
            Some(i) => {
                let (x, y) = trim_in(&cs, a, i);
                let val = first_u64_or_zero_in(&cs, i + 1, b);
                if span_eq(&cs, x, y, "MemTotal") {
                    s.total_kb = val;
                } else if span_eq(&cs, x, y, "MemFree") {
                    s.free_kb = val;
                } else if span_eq(&cs, x, y, "MemAvailable") {
                    s.available_kb = val;
                } else if span_eq(&cs, x, y, "Buffers") {
                    s.buffers_kb = val;
                } else if span_eq(&cs, x, y, "Cached") {
                    s.cached_kb = val;
                } else if span_eq(&cs, x, y, "SwapTotal") {
                    s.swap_total_kb = val;
                } else if span_eq(&cs, x, y, "SwapFree") {
                    s.swap_free_kb = val;
                }
            },
        }
        k = k + 1;
    }
    assert(ls.take(ls.len() as int) =~= ls);
    s
}

// ─── dmidecode -t 2 ───────────────────────────────────────────────────────────

/// One `dmidecode -t 2` line applied to the board info read so far.
pub open spec fn mobo_step(m: MoboInfoView, line: Seq<char>) -> MoboInfoView {
    match split_once(line, ':') {
        None => m,
        Some((k, v)) => {
            let key = trim(k);
            let val = trim(v);
            if key == "Manufacturer"@ {
                MoboInfoView { manufacturer: val, ..m }
            } else if key == "Product Name"@ {
                MoboInfoView { product: val, ..m }
            } else {
                m
            }
        },
    }
}

/// The board info that the lines `ls` describe, read in order from empty fields.
pub open spec fn mobo_of(ls: Seq<Seq<char>>) -> MoboInfoView
    decreases ls.len(),
{
    if ls.len() == 0 {
        empty_mobo()
    } else {
        mobo_step(mobo_of(ls.drop_last()), ls.last())
    }
}

/// Parse `dmidecode -t 2` output text into a [`MoboInfo`].
pub fn parse_mobo_output(text: &str) -> (info: MoboInfo)
    ensures
        info@ == mobo_of(lines(text@)),
{
    let cs = chars_of(text);
    let spans = line_spans(&cs);
    let ghost ls = lines(cs@);
    let mut info = MoboInfo::default();
    let mut k: usize = 0;
    assert(ls.take(0) =~= Seq::<Seq<char>>::empty());
    while k < spans.len()
        invariant
            k <= spans.len() == ls.len(),
            ls == lines(cs@),
            forall|j: int|
                0 <= j < spans.len() ==> {
                    &&& (#[trigger] spans@[j]).0 <= spans@[j].1 <= cs.len()
                    &&& cs@.subrange(spans@[j].0 as int, spans@[j].1 as int) == ls[j]
                },
            info@ == mobo_of(ls.take(k as int)),
        decreases spans.len() - k,
    {
        let (a, b) = spans[k];
        assert(ls.take(k + 1).drop_last() =~= ls.take(k as int));
        assert(ls.take(k + 1).last() == cs@.subrange(a as int, b as int));
        match split_once_in(&cs, a, b, ':') {
            None => {},
            Some(i) => {
                let (x, y) = trim_in(&cs, a, i);
                let (v0, v1) = trim_in(&cs, i + 1, b);
                if span_eq(&cs, x, y, "Manufacturer") {
                    info.manufacturer = string_of(&cs, v0, v1);
                } else if span_eq(&cs, x, y, "Product Name") {
                    info.product = string_of(&cs, v0, v1);
                }
            },
        }
        k = k + 1;
    }
    assert(ls.take(ls.len() as int) =~= ls);
    info
}

// ─── dmidecode -t 17 ──────────────────────────────────────────────────────────

/// `n * 1024`, saturating at `u64::MAX`.
pub open spec fn times_1024(n: u64) -> u64 {
    if n <= u64::MAX / 1024 {
        (n * 1024) as u64
    } else {
        u64::MAX
    }
}

/// A `Key: value` line of a memory device applied to the slot read so far.
pub open spec fn dimm_field(slot: DimmSlotView, key: Seq<char>, val: Seq<char>) -> DimmSlotView {
    if key == "Locator"@ {
        DimmSlotView { locator: val, ..slot }
    } else if key == "Type"@ {
        DimmSlotView { mem_type: val, ..slot }
    } else if key == "Manufacturer"@ {
        DimmSlotView { manufacturer: val, ..slot }
    } else if key == "Part Number"@ {
        DimmSlotView { part_number: trim(val), ..slot }
    } else if key == "Configured Voltage"@ {
        DimmSlotView { voltage: val, ..slot }
    } else if key == "Size"@ {
        if contains(val, "MB"@) {
            DimmSlotView { size_mb: first_u64_or_zero(val), ..slot }
        } else if contains(val, "GB"@) {
            DimmSlotView { size_mb: times_1024(first_u64_or_zero(val)), ..slot }
        } else {
            slot
        }
    } else if key == "Speed"@ {
        DimmSlotView { speed_mhz: first_u64_or_zero(val), ..slot }
    } else if key == "Configured Memory Speed"@ {
        DimmSlotView { configured_speed: first_u64_or_zero(val), ..slot }
    } else {
        slot
    }
}

/// The reading state of `dmidecode -t 17` output: the finished slots and the
/// slot being read.
pub struct DmiState {
    pub slots: Seq<DimmSlotView>,
    pub current: Option<DimmSlotView>,
}

/// Whether a (trimmed) line opens a memory device block.
pub open spec fn is_device_header(l: Seq<char>) -> bool {
    starts_with(l, "Memory Device"@) && !contains(l, "Mapped"@)
}

/// One line of `dmidecode -t 17` output applied to the reading state.
pub open spec fn dmi_step(st: DmiState, raw: Seq<char>) -> DmiState {
    let l = trim(raw);
    if is_device_header(l) {
        DmiState {
            slots: match st.current {
                Some(c) => st.slots.push(c),
                None => st.slots,
            },
            current: Some(empty_dimm()),
        }
    } else {
        match (st.current, split_once(l, ':')) {
            (Some(slot), Some((k, v))) => DmiState {
                slots: st.slots,
                current: Some(dimm_field(slot, trim(k), trim(v))),
            },
            _ => st,
        }
    }
}

/// The reading state after the lines `ls`.
pub open spec fn dmi_of(ls: Seq<Seq<char>>) -> DmiState
    decreases ls.len(),
{
    if ls.len() == 0 {
        DmiState { slots: Seq::empty(), current: None }
    } else {
        dmi_step(dmi_of(ls.drop_last()), ls.last())
    }
}

/// The slots of `s` whose size is not zero, in order.
pub open spec fn sized_only(s: Seq<DimmSlotView>) -> Seq<DimmSlotView>
    decreases s.len(),
{
    if s.len() == 0 {
        s
    } else if s.last().size_mb > 0 {
        sized_only(s.drop_last()).push(s.last())
    } else {
        sized_only(s.drop_last())
    }
}

/// The slots that the lines `ls` describe: every memory device block, with
/// the blocks of size zero left out.
pub open spec fn dmi_slots(ls: Seq<Seq<char>>) -> Seq<DimmSlotView> {
    let st = dmi_of(ls);
    sized_only(
        match st.current {
            Some(c) => st.slots.push(c),
            None => st.slots,
        },
    )
}

/// Keeps the slots whose size is not zero.
fn retain_sized(all: Vec<DimmSlot>) -> (out: Vec<DimmSlot>)
    ensures
        dimms_view(out@) == sized_only(dimms_view(all@)),
{
    let mut out: Vec<DimmSlot> = Vec::new();
    let mut all = all;
    let ghost orig = dimms_view(all@);
    let n = all.len();
    let mut rest: Vec<DimmSlot> = Vec::new();
    // Reverse so that popping yields the slots in order.
    while all.len() > 0
        invariant
            orig.len() == n,
            all.len() + rest.len() == n,
            forall|j: int| 0 <= j < all.len() ==> (#[trigger] all@[j])@ == orig[j],
            forall|j: int| 0 <= j < rest.len() ==> (#[trigger] rest@[j])@ == orig[n - 1 - j],
        decreases all.len(),
    {
        let d = all.pop().unwrap();
        rest.push(d);
    }
    let mut i: usize = 0;
    assert(orig.take(0) =~= Seq::<DimmSlotView>::empty());
    while rest.len() > 0
        invariant
            orig.len() == n,
            i + rest.len() == n,
            forall|j: int| 0 <= j < rest.len() ==> (#[trigger] rest@[j])@ == orig[n - 1 - j],
            dimms_view(out@) == sized_only(orig.take(i as int)),
        decreases rest.len(),
    {
        let d = rest.pop().unwrap();
        assert(d@ == orig[i as int]);
        assert(orig.take(i + 1).drop_last() =~= orig.take(i as int));
        let ghost before = out@;
        if d.size_mb > 0 {
            out.push(d);
            assert(dimms_view(out@) =~= dimms_view(before).push(orig[i as int]));
        }
        i = i + 1;
    }
    assert(orig.take(n as int) =~= orig);
    out
}

/// Parse `dmidecode -t 17` output text into DIMM slots. Slots with zero size
/// are dropped; a size in gigabytes too large for `u64` once turned into
/// megabytes saturates at `u64::MAX`.
pub fn parse_dmidecode_output(text: &str) -> (v: Vec<DimmSlot>)
    ensures
        dimms_view(v@) == dmi_slots(lines(text@)),
{
    let cs = chars_of(text);
    let spans = line_spans(&cs);
    let ghost ls = lines(cs@);
    let mut slots: Vec<DimmSlot> = Vec::new();
    let mut cur = DimmSlot::default();
    let mut has_cur = false;
    let mut k: usize = 0;
    assert(ls.take(0) =~= Seq::<Seq<char>>::empty());
    assert(dimms_view(slots@) =~= Seq::<DimmSlotView>::empty());
    while k < spans.len()
        invariant
            k <= spans.len() == ls.len(),
            ls == lines(cs@),
            forall|j: int|
                0 <= j < spans.len() ==> {
                    &&& (#[trigger] spans@[j]).0 <= spans@[j].1 <= cs.len()
                    &&& cs@.subrange(spans@[j].0 as int, spans@[j].1 as int) == ls[j]
                },
            dimms_view(slots@) == dmi_of(ls.take(k as int)).slots,
            has_cur <==> dmi_of(ls.take(k as int)).current is Some,
            has_cur ==> dmi_of(ls.take(k as int)).current == Some(cur@),
        decreases spans.len() - k,
    {
        let (a, b) = spans[k];
        assert(ls.take(k + 1).drop_last() =~= ls.take(k as int));
        assert(ls.take(k + 1).last() == cs@.subrange(a as int, b as int));
        let (x, y) = trim_in(&cs, a, b);
        if span_starts_with(&cs, x, y, "Memory Device") && !span_contains(&cs, x, y, "Mapped") {
            if has_cur {
                let ghost before = slots@;
                slots.push(cur);
                assert(dimms_view(slots@) =~= dimms_view(before).push(
                    dmi_of(ls.take(k as int)).current->0,
                ));
            }
            cur = DimmSlot::default();
            has_cur = true;
        } else if has_cur {
            match split_once_in(&cs, x, y, ':') {
                None => {},
                Some(i) => {
                    let (k0, k1) = trim_in(&cs, x, i);
                    let (v0, v1) = trim_in(&cs, i + 1, y);
                    if span_eq(&cs, k0, k1, "Locator") {
                        cur.locator = string_of(&cs, v0, v1);
                    } else if span_eq(&cs, k0, k1, "Type") {
                        cur.mem_type = string_of(&cs, v0, v1);
                    } else if span_eq(&cs, k0, k1, "Manufacturer") {
                        cur.manufacturer = string_of(&cs, v0, v1);
                    } else if span_eq(&cs, k0, k1, "Part Number") {
                        let (p0, p1) = trim_in(&cs, v0, v1);
                        cur.part_number = string_of(&cs, p0, p1);
                    } else if span_eq(&cs, k0, k1, "Configured Voltage") {
                        cur.voltage = string_of(&cs, v0, v1);
                    } else if span_eq(&cs, k0, k1, "Size") {
                        if span_contains(&cs, v0, v1, "MB") {
                            cur.size_mb = first_u64_or_zero_in(&cs, v0, v1);
                        } else if span_contains(&cs, v0, v1, "GB") {
                            let n = first_u64_or_zero_in(&cs, v0, v1);
                            cur.size_mb = if n <= u64::MAX / 1024 {
                                n * 1024
                            } else {
                                u64::MAX
                            };
                        }
                    } else if span_eq(&cs, k0, k1, "Speed") {
                        cur.speed_mhz = first_u64_or_zero_in(&cs, v0, v1);
                    } else if span_eq(&cs, k0, k1, "Configured Memory Speed") {
                        cur.configured_speed = first_u64_or_zero_in(&cs, v0, v1);
                    }
                },
            }
        }
        k = k + 1;
    }
    assert(ls.take(ls.len() as int) =~= ls);
    if has_cur {
        let ghost before = slots@;
        slots.push(cur);
        assert(dimms_view(slots@) =~= dimms_view(before).push(dmi_of(ls).current->0));
    }
    retain_sized(slots)
}

// ─── dmidecode -t 16 ──────────────────────────────────────────────────────────

/// `n * 1024 * 1024`, saturating at `u64::MAX`.
pub open spec fn times_1048576(n: u64) -> u64 {
    if n <= u64::MAX / 1048576 {
        (n * 1048576) as u64
    } else {
        u64::MAX
    }
}

/// One line of `dmidecode -t 16` output applied to the array read so far.
pub open spec fn array_step(info: MemArrayInfo, raw: Seq<char>) -> MemArrayInfo {
    match split_once(trim(raw), ':') {
        None => info,
        Some((k, v)) => {
            let key = trim(k);
            let val = trim(v);
            let n = first_u64_or_zero(val);
            if key == "Number Of Devices"@ {
                MemArrayInfo {
                    total_slots: match parse_u32(val) {
                        Some(x) => x,
                        None => 0,
                    },
                    ..info
                }
            } else if key == "Maximum Capacity"@ {
                if contains(val, "GB"@) {
                    MemArrayInfo { max_capacity_mb: times_1024(n), ..info }
                } else if contains(val, "MB"@) {
                    MemArrayInfo { max_capacity_mb: n, ..info }
                } else if contains(val, "TB"@) {
                    MemArrayInfo { max_capacity_mb: times_1048576(n), ..info }
                } else {
                    info
                }
            } else {
                info
            }
        },
    }
}

/// The array described by the lines `ls`.
pub open spec fn array_of(ls: Seq<Seq<char>>) -> MemArrayInfo
    decreases ls.len(),
{
    if ls.len() == 0 {
        zero_mem_array()
    } else {
        array_step(array_of(ls.drop_last()), ls.last())
    }
}

/// Parse `dmidecode -t 16` output text into a [`MemArrayInfo`] (slot count,
/// max capacity). A capacity too large for `u64` once turned into megabytes
/// saturates at `u64::MAX`.
pub fn parse_dmidecode_array_output(text: &str) -> (info: MemArrayInfo)
    ensures
        info == array_of(lines(text@)),
{
    let cs = chars_of(text);
    let spans = line_spans(&cs);
    let ghost ls = lines(cs@);
    let mut info = MemArrayInfo::default();
    let mut k: usize = 0;
    assert(ls.take(0) =~= Seq::<Seq<char>>::empty());
    while k < spans.len()
        invariant
            k <= spans.len() == ls.len(),
            ls == lines(cs@),
            forall|j: int|
                0 <= j < spans.len() ==> {
                    &&& (#[trigger] spans@[j]).0 <= spans@[j].1 <= cs.len()
                    &&& cs@.subrange(spans@[j].0 as int, spans@[j].1 as int) == ls[j]
                },
            info == array_of(ls.take(k as int)),
        decreases spans.len() - k,
    {
        let (a, b) = spans[k];
        assert(ls.take(k + 1).drop_last() =~= ls.take(k as int));
        assert(ls.take(k + 1).last() == cs@.subrange(a as int, b as int));
        let (x, y) = trim_in(&cs, a, b);
        match split_once_in(&cs, x, y, ':') {
            None => {},
            Some(i) => {
                let (k0, k1) = trim_in(&cs, x, i);
                let (v0, v1) = trim_in(&cs, i + 1, y);
                let n = first_u64_or_zero_in(&cs, v0, v1);
                if span_eq(&cs, k0, k1, "Number Of Devices") {
                    info.total_slots = match parse_u32_in(&cs, v0, v1) {
                        Some(x) => x,
                        None => 0,
                    };
                } else if span_eq(&cs, k0, k1, "Maximum Capacity") {
                    if span_contains(&cs, v0, v1, "GB") {
                        info.max_capacity_mb = if n <= u64::MAX / 1024 {
                            n * 1024
                        } else {
                            u64::MAX
                        };
                    } else if span_contains(&cs, v0, v1, "MB") {
                        info.max_capacity_mb = n;
                    } else if span_contains(&cs, v0, v1, "TB") {
                        info.max_capacity_mb = if n <= u64::MAX / 1048576 {
                            n * 1048576
                        } else {
                            u64::MAX
                        };
                    }
                }
            },
        }
        k = k + 1;
    }
    assert(ls.take(ls.len() as int) =~= ls);
    info
}

// ─── /proc/cpuinfo ────────────────────────────────────────────────────────────

/// Index of the first line of `ls` that starts with `p`, or `-1`.
pub open spec fn first_with_prefix(ls: Seq<Seq<char>>, p: Seq<char>) -> int
    decreases ls.len(),
{
    if ls.len() == 0 {
        -1
    } else if starts_with(ls[0], p) {
        0
    } else {
        let r = first_with_prefix(ls.drop_first(), p);
        if r < 0 {
            -1
        } else {
            r + 1
        }
    }
}

proof fn lemma_first_with_prefix(ls: Seq<Seq<char>>, p: Seq<char>)
    ensures
        -1 <= first_with_prefix(ls, p) < ls.len(),
        first_with_prefix(ls, p) >= 0 ==> starts_with(ls[first_with_prefix(ls, p)], p),
        forall|j: int|
            0 <= j < (if first_with_prefix(ls, p) < 0 {
                ls.len() as int
            } else {
                first_with_prefix(ls, p)
            }) ==> !starts_with(#[trigger] ls[j], p),
    decreases ls.len(),
{
    if ls.len() > 0 && !starts_with(ls[0], p) {
        lemma_first_with_prefix(ls.drop_first(), p);
        assert forall|j: int| 1 <= j < ls.len() implies ls[j] == ls.drop_first()[j - 1] by {}
    }
}

/// The LPDDR generation of a Raspberry Pi model.
pub open spec fn pi_mem_type(model: Seq<char>) -> Seq<char> {
    if contains(model, "Pi 5"@) {
        "LPDDR4X"@
    } else if contains(model, "Pi 4"@) || contains(model, "Pi Compute Module 4"@) {
        "LPDDR4"@
    } else if contains(model, "Pi 3"@) || contains(model, "Pi Compute Module 3"@) {
        "LPDDR2"@
    } else {
        "LPDDR"@
    }
}

/// The board that `/proc/cpuinfo` text describes: the text after the first
/// colon of the first line that starts with `Model`, trimmed, when it names
/// a Raspberry Pi.
pub open spec fn cpuinfo_pi(ls: Seq<Seq<char>>) -> Option<PiBoardInfoView> {
    let i = first_with_prefix(ls, "Model"@);
    if i < 0 {
        None
    } else {
        match split_once(ls[i], ':') {
            None => None,
            Some((_, rest)) => {
                let model = trim(rest);
                if contains(model, "Raspberry Pi"@) {
                    Some(
                        PiBoardInfoView {
                            model: model,
                            mem_type: pi_mem_type(model),
                            freq_mhz: None,
                            voltage: None,
                        },
                    )
                } else {
                    None
                }
            },
        }
    }
}

/// Parse /proc/cpuinfo content and detect Raspberry Pi model.
/// Returns PiBoardInfo with freq_mhz=None and voltage=None (caller adds those).
pub fn parse_cpuinfo_for_pi(cpuinfo: &str) -> (r: Option<PiBoardInfo>)
    ensures
        match (r, cpuinfo_pi(lines(cpuinfo@))) {
            (Some(info), Some(v)) => info@ == v,
            (None, None) => true,
            _ => false,
        },
{
    let cs = chars_of(cpuinfo);
    let spans = line_spans(&cs);
    let ghost ls = lines(cs@);
    proof {
        lemma_first_with_prefix(ls, "Model"@);
    }
    let mut k: usize = 0;
    let mut found = false;
    while k < spans.len() && !found
        invariant
            k <= spans.len() == ls.len(),
            ls == lines(cs@),
            forall|j: int|
                0 <= j < spans.len() ==> {
                    &&& (#[trigger] spans@[j]).0 <= spans@[j].1 <= cs.len()
                    &&& cs@.subrange(spans@[j].0 as int, spans@[j].1 as int) == ls[j]
                },
            forall|j: int| 0 <= j < k ==> !starts_with(#[trigger] ls[j], "Model"@),
            found ==> k < spans.len() && starts_with(ls[k as int], "Model"@),
        decreases spans.len() - k, if found { 0int } else { 1int },
    {
        let (a, b) = spans[k];
        if span_starts_with(&cs, a, b, "Model") {
            found = true;
        } else {
            k = k + 1;
        }
    }
    if !found {
        assert(first_with_prefix(ls, "Model"@) == -1) by {
            if first_with_prefix(ls, "Model"@) >= 0 {
                let f = first_with_prefix(ls, "Model"@);
                assert(starts_with(ls[f], "Model"@));
            }
        }
        return None;
    }
    assert(first_with_prefix(ls, "Model"@) == k) by {
        let f = first_with_prefix(ls, "Model"@);
        if f < 0 {
            assert(!starts_with(ls[k as int], "Model"@));
        } else if f < k {
            assert(!starts_with(ls[f], "Model"@));
        } else if f > k {
            assert(!starts_with(ls[k as int], "Model"@));
        }
    }
    let (a, b) = spans[k];
    match split_once_in(&cs, a, b, ':') {
        None => None,
        Some(i) => {
            let (m0, m1) = trim_in(&cs, i + 1, b);
            if !span_contains(&cs, m0, m1, "Raspberry Pi") {
                return None;
            }
            let mem_type = if span_contains(&cs, m0, m1, "Pi 5") {
                string_lit("LPDDR4X")
            } else if span_contains(&cs, m0, m1, "Pi 4") || span_contains(
                &cs,
                m0,
                m1,
                "Pi Compute Module 4",
            ) {
                string_lit("LPDDR4")
            } else if span_contains(&cs, m0, m1, "Pi 3") || span_contains(
                &cs,
                m0,
                m1,
                "Pi Compute Module 3",
            ) {
                string_lit("LPDDR2")
            } else {
                string_lit("LPDDR")
            };
            Some(
                PiBoardInfo {
                    model: string_of(&cs, m0, m1),
                    mem_type,
                    freq_mhz: None,
                    voltage: None,
                },
            )
        },
    }
}

/// The memory type that `/proc/cpuinfo` gives a Raspberry Pi, by its model:
/// a Pi 5 has LPDDR4X; a Pi 4 or Compute Module 4 LPDDR4; a Pi 3 or Compute
/// Module 3 LPDDR2; any older board LPDDR. The board found is the one the
/// model names, with no frequency or voltage yet.
pub proof fn lemma_pi_memory_types(ls: Seq<Seq<char>>)
    ensures
        cpuinfo_pi(ls) matches Some(v) ==> {
            let m = v.model;
            &&& contains(m, "Raspberry Pi"@)
            &&& v.freq_mhz is None && v.voltage is None
            &&& contains(m, "Pi 5"@) ==> v.mem_type == "LPDDR4X"@
            &&& !contains(m, "Pi 5"@) && (contains(m, "Pi 4"@) || contains(
                m,
                "Pi Compute Module 4"@,
            )) ==> v.mem_type == "LPDDR4"@
            &&& !contains(m, "Pi 5"@) && !contains(m, "Pi 4"@) && !contains(
                m,
                "Pi Compute Module 4"@,
            ) && (contains(m, "Pi 3"@) || contains(m, "Pi Compute Module 3"@)) ==> v.mem_type
                == "LPDDR2"@
            &&& !contains(m, "Pi 5"@) && !contains(m, "Pi 4"@) && !contains(
                m,
                "Pi Compute Module 4"@,
            ) && !contains(m, "Pi 3"@) && !contains(m, "Pi Compute Module 3"@) ==> v.mem_type
                == "LPDDR"@
        },
{
}

// ─── vcgencmd ─────────────────────────────────────────────────────────────────

/// `t.split(c).nth(1)`: the text between the first and the second `c`.
pub open spec fn second_field(t: Seq<char>, c: char) -> Option<Seq<char>> {
    let i = find(t, c);
    if i < 0 {
        None
    } else {
        let rest = t.skip(i + 1);
        let j = find(rest, c);
        if j < 0 {
            Some(rest)
        } else {
            Some(rest.take(j))
        }
    }
}

/// `split(c).nth(1)` on a span.
fn second_field_in(s: &Vec<char>, a: usize, b: usize, c: char) -> (r: Option<(usize, usize)>)
    requires
        a <= b <= s.len(),
    ensures
        match r {
            Some((x, y)) => a <= x <= y <= b && second_field(s@.subrange(a as int, b as int), c)
                == Some(s@.subrange(x as int, y as int)),
            None => second_field(s@.subrange(a as int, b as int), c) is None,
        },
{
    match find_in(s, a, b, c) {
        None => None,
        Some(i) => {
            assert(s@.subrange(a as int, b as int).skip(i - a + 1) =~= s@.subrange(
                i + 1,
                b as int,
            ));
            match find_in(s, i + 1, b, c) {
                None => Some((i + 1, b)),
                Some(j) => {
                    assert(s@.subrange(i + 1, b as int).take(j - (i + 1)) =~= s@.subrange(
                        i + 1,
                        j as int,
                    ));
                    Some((i + 1, j))
                },
            }
        },
    }
}

/// The SDRAM transfer rate in MT/s that `vcgencmd measure_clock sdram_c`
/// output (`frequency(0)=<hz>`) describes: the clock in whole MHz times 8;
/// `None` for a missing, unreadable or zero clock.
pub open spec fn vcgencmd_freq_of(text: Seq<char>) -> Option<u64> {
    match second_field(trim(text), '=') {
        None => None,
        Some(f) => match parse_u64(f) {
            None => None,
            Some(hz) => if hz == 0 {
                None
            } else {
                Some(((hz / 1_000_000) * 8) as u64)
            },
        },
    }
}

/// Parse `vcgencmd measure_clock sdram_c` output into a transfer rate in MT/s.
pub fn parse_vcgencmd_freq(text: &str) -> (r: Option<u64>)
    ensures
        r == vcgencmd_freq_of(text@),
{
    let cs = chars_of(text);
    let (a, b) = trim_in(&cs, 0, cs.len());
    assert(cs@.subrange(0, cs@.len() as int) =~= cs@);
    match second_field_in(&cs, a, b, '=') {
        None => None,
        Some((x, y)) => match parse_u64_in(&cs, x, y) {
            None => None,
            Some(hz) => {
                if hz == 0 {
                    None
                } else {
                    Some((hz / 1_000_000) * 8)
                }
            },
        },
    }
}

/// The voltage text that `vcgencmd measure_volts sdram_c` output
/// (`volt=<text>`) describes; `None` when it is missing or empty.
pub open spec fn vcgencmd_voltage_of(text: Seq<char>) -> Option<Seq<char>> {
    match second_field(trim(text), '=') {
        None => None,
        Some(f) => if trim(f).len() == 0 {
            None
        } else {
            Some(trim(f))
        },
    }
}

/// Parse `vcgencmd measure_volts sdram_c` output into its voltage text.
pub fn parse_vcgencmd_voltage(text: &str) -> (r: Option<String>)
    ensures
        match (r, vcgencmd_voltage_of(text@)) {
            (Some(s), Some(v)) => s@ == v,
            (None, None) => true,
            _ => false,
        },
{
    let cs = chars_of(text);
    let (a, b) = trim_in(&cs, 0, cs.len());
    assert(cs@.subrange(0, cs@.len() as int) =~= cs@);
    match second_field_in(&cs, a, b, '=') {
        None => None,
        Some((x, y)) => {
            let (v0, v1) = trim_in(&cs, x, y);
            if v0 == v1 {
                None
            } else {
                Some(string_of(&cs, v0, v1))
            }
        },
    }
}

/// The Raspberry Pi board that `/proc/cpuinfo` describes, with the SDRAM rate
/// and voltage read from the output of `vcgencmd measure_clock sdram_c` and
/// `vcgencmd measure_volts sdram_c` (each `None` when the command did not run).
pub fn pi_board_info(cpuinfo: &str, clock_out: Option<&str>, volts_out: Option<&str>) -> (r: Option<
    PiBoardInfo,
>)
    ensures
        match (r, cpuinfo_pi(lines(cpuinfo@))) {
            (Some(info), Some(v)) => {
                &&& info.model@ == v.model
                &&& info.mem_type@ == v.mem_type
                &&& info.freq_mhz == (match clock_out {
                    Some(t) => vcgencmd_freq_of(t@),
                    None => None,
                })
                &&& (match (info.voltage, volts_out) {
                    (Some(x), Some(t)) => vcgencmd_voltage_of(t@) == Some(x@),
                    (None, Some(t)) => vcgencmd_voltage_of(t@) is None,
                    (None, None) => true,
                    (Some(_), None) => false,
                })
            },
            (None, None) => true,
            _ => false,
        },
{
    match parse_cpuinfo_for_pi(cpuinfo) {
        None => None,
        Some(mut info) => {
            info.freq_mhz = match clock_out {
                Some(t) => parse_vcgencmd_freq(t),
                None => None,
            };
            info.voltage = match volts_out {
                Some(t) => parse_vcgencmd_voltage(t),
                None => None,
            };
            Some(info)
        },
    }
}

// ─── /proc/<pid>/status ───────────────────────────────────────────────────────

/// One `/proc/<pid>/status` line applied to the `(name, rss_kb)` read so far.
pub open spec fn status_line_step(st: (Seq<char>, u64), line: Seq<char>) -> (Seq<char>, u64) {
    if starts_with(line, "Name:"@) {
        (trim(line.skip(5)), st.1)
    } else if starts_with(line, "VmRSS:"@) {
        (st.0, first_u64_or_zero(line.skip(6)))
    } else {
        st
    }
}

/// `(name, rss_kb)` after the lines `ls`, from an empty name and zero RSS.
pub open spec fn status_fields(ls: Seq<Seq<char>>) -> (Seq<char>, u64)
    decreases ls.len(),
{
    if ls.len() == 0 {
        (seq![], 0)
    } else {
        status_line_step(status_fields(ls.drop_last()), ls.last())
    }
}

/// The process that the `/proc` directory `dir` with status file `status`
/// describes: `None` when `dir` is not a pid or the RSS is zero.
pub open spec fn proc_status_entry(dir: Seq<char>, status: Seq<char>) -> Option<ProcessMemView> {
    match parse_u32(dir) {
        None => None,
        Some(pid) => {
            let (name, rss_kb) = status_fields(lines(status));
            if rss_kb == 0 {
                None
            } else {
                Some(ProcessMemView { pid, name, rss_kb })
            }
        },
    }
}

/// The process that a `/proc/<dir>/status` file describes, if `dir` is a pid
/// and the process has a resident set.
pub fn parse_proc_status(dir: &str, status: &str) -> (r: Option<ProcessMem>)
    ensures
        match (r, proc_status_entry(dir@, status@)) {
            (Some(p), Some(v)) => p@ == v,
            (None, None) => true,
            _ => false,
        },
{
    let ds = chars_of(dir);
    assert(ds@.subrange(0, ds@.len() as int) =~= ds@);
    let pid = match parse_u32_in(&ds, 0, ds.len()) {
        None => return None,
        Some(p) => p,
    };
    let cs = chars_of(status);
    let spans = line_spans(&cs);
    let ghost ls = lines(cs@);
    let mut name = String::new();
    let mut rss_kb: u64 = 0;
    let mut k: usize = 0;
    assert(ls.take(0) =~= Seq::<Seq<char>>::empty());
    while k < spans.len()
        invariant
            k <= spans.len() == ls.len(),
            ls == lines(cs@),
            forall|j: int|
                0 <= j < spans.len() ==> {
                    &&& (#[trigger] spans@[j]).0 <= spans@[j].1 <= cs.len()
                    &&& cs@.subrange(spans@[j].0 as int, spans@[j].1 as int) == ls[j]
                },
            status_fields(ls.take(k as int)) == (name@, rss_kb),
        decreases spans.len() - k,
    {
        let (a, b) = spans[k];
        let ghost line = cs@.subrange(a as int, b as int);
        assert(ls.take(k + 1).drop_last() =~= ls.take(k as int));
        assert(ls.take(k + 1).last() == line);
        if span_starts_with(&cs, a, b, "Name:") {
            proof {
                reveal_strlit("Name:");
            }
            assert(line.skip(5) =~= cs@.subrange(a + 5, b as int));
            let (x, y) = trim_in(&cs, a + 5, b);
            name = string_of(&cs, x, y);
        } else if span_starts_with(&cs, a, b, "VmRSS:") {
            proof {
                reveal_strlit("VmRSS:");
            }
            assert(line.skip(6) =~= cs@.subrange(a + 6, b as int));
            rss_kb = first_u64_or_zero_in(&cs, a + 6, b);
        }
        k = k + 1;
    }
    assert(ls.take(ls.len() as int) =~= ls);
    if rss_kb == 0 {
        None
    } else {
        Some(ProcessMem { pid, name, rss_kb })
    }
}

/// The processes that the `(directory name, status text)` pairs describe, in order.
pub open spec fn status_entries(entries: Seq<(Seq<char>, Seq<char>)>) -> Seq<ProcessMemView>
    decreases entries.len(),
{
    if entries.len() == 0 {
        seq![]
    } else {
        let e = entries.last();
        match proc_status_entry(e.0, e.1) {
            Some(p) => status_entries(entries.drop_last()).push(p),
            None => status_entries(entries.drop_last()),
        }
    }
}

/// The views of `(directory name, status text)` pairs.
pub open spec fn entries_view(v: Seq<(String, String)>) -> Seq<(Seq<char>, Seq<char>)> {
    v.map_values(|e: (String, String)| (e.0@, e.1@))
}

/// The top `n` processes by RSS among the `/proc/<dir>/status` files given as
/// `(dir, status text)` pairs, largest first (stable for equal RSS).
pub fn top_from_statuses(entries: &Vec<(String, String)>, n: usize) -> (procs: Vec<ProcessMem>)
    ensures
        procs_view(procs@) == top_by_rss_of(status_entries(entries_view(entries@)), n as nat),
{
    let ghost es = entries_view(entries@);
    let mut all: Vec<ProcessMem> = Vec::new();
    let mut k: usize = 0;
    assert(es.take(0) =~= Seq::<(Seq<char>, Seq<char>)>::empty());
    assert(procs_view(all@) =~= Seq::<ProcessMemView>::empty());
    while k < entries.len()
        invariant
            k <= entries.len(),
            es == entries_view(entries@),
            procs_view(all@) == status_entries(es.take(k as int)),
        decreases entries.len() - k,
    {
        assert(es.take(k + 1).drop_last() =~= es.take(k as int));
        assert(es.take(k + 1).last() == (entries@[k as int].0@, entries@[k as int].1@));
        match parse_proc_status(entries[k].0.as_str(), entries[k].1.as_str()) {
            Some(p) => {
                let ghost before = all@;
                all.push(p);
                assert(procs_view(all@) =~= procs_view(before).push(all@.last()@));
            },
            None => {},
        }
        k = k + 1;
    }
    assert(es.take(es.len() as int) =~= es);
    top_by_rss(all, n)
}

// ─── hwmon ────────────────────────────────────────────────────────────────────

/// What `str::to_lowercase` returns for the characters `s`.
pub uninterp spec fn lowercase(s: Seq<char>) -> Seq<char>;

/// The ASCII lowercase of `c`: `A`–`Z` become `a`–`z`, every other character
/// stays as it is.
pub open spec fn ascii_lower(c: char) -> char {
    if 'A' <= c && c <= 'Z' {
        ((c as u32) + 32) as char
    } else {
        c
    }
}

/// Whether every character of `s` is ASCII.
pub open spec fn all_ascii(s: Seq<char>) -> bool {
    forall|i: int| 0 <= i < s.len() ==> (#[trigger] s[i] as u32) < 128
}

/// `str::to_lowercase`: the lowercase equivalent of the text, by the Unicode
/// lowercase mapping. The contract names the result (`lowercase`) and states
/// it only for ASCII text, where the mapping turns `A`–`Z` into `a`–`z` and
/// keeps every other character; the mapping beyond ASCII is not stated.
#[verifier::external_body]
fn to_lowercase(s: &String) -> (r: String)
    ensures
        r@ == lowercase(s@),
        all_ascii(s@) ==> r@ == s@.map_values(|c: char| ascii_lower(c)),
{
    s.to_lowercase()
}

/// The device name that a hwmon `name` file holds: its text trimmed and lowercased.
pub open spec fn hwmon_name_of(raw: Seq<char>) -> Seq<char> {
    lowercase(trim(raw))
}

/// The device name in a hwmon `name` file (trimmed, lowercased).
pub fn hwmon_device_name(raw: &str) -> (r: String)
    ensures
        r@ == hwmon_name_of(raw@),
        all_ascii(trim(raw@)) ==> r@ == trim(raw@).map_values(|c: char| ascii_lower(c)),
{
    let cs = chars_of(raw);
    let (a, b) = trim_in(&cs, 0, cs.len());
    assert(cs@.subrange(0, cs@.len() as int) =~= cs@);
    let t = string_of(&cs, a, b);
    to_lowercase(&t)
}

/// Whether a hwmon device name belongs to a memory module (`spd5118` for DDR5,
/// `dimmtemp` for older DIMMs): it mentions `dimm`, `spd` or `mem`.
pub open spec fn is_ram_device_name(name: Seq<char>) -> bool {
    contains(name, "dimm"@) || contains(name, "spd"@) || contains(name, "mem"@)
}

/// Whether the hwmon device `name` (already lowercased) is a memory module.
pub fn is_ram_device(name: &str) -> (r: bool)
    ensures
        r == is_ram_device_name(name@),
{
    let cs = chars_of(name);
    assert(cs@.subrange(0, cs@.len() as int) =~= cs@);
    span_contains(&cs, 0, cs.len(), "dimm") || span_contains(&cs, 0, cs.len(), "spd")
        || span_contains(&cs, 0, cs.len(), "mem")
}

/// The sensor prefix (`temp1`) of a hwmon file name `temp1_input`: the name
/// without its trailing `_input`s, for a name that starts with `temp` and
/// ends with `_input`.
pub open spec fn temp_input_prefix_of(fname: Seq<char>) -> Option<Seq<char>> {
    if starts_with(fname, "temp"@) && ends_with(fname, "_input"@) {
        Some(trim_end_matches(fname, "_input"@))
    } else {
        None
    }
}

/// The sensor prefix of a hwmon temperature input file name, if it is one.
pub fn temp_input_prefix(fname: &str) -> (r: Option<String>)
    ensures
        match (r, temp_input_prefix_of(fname@)) {
            (Some(p), Some(v)) => p@ == v,
            (None, None) => true,
            _ => false,
        },
{
    let cs = chars_of(fname);
    let n = cs.len();
    assert(cs@.subrange(0, n as int) =~= cs@);
    if !span_starts_with(&cs, 0, n, "temp") || !span_ends_with(&cs, 0, n, "_input") {
        return None;
    }
    let e = trim_end_matches_in(&cs, 0, n, "_input");
    Some(string_of(&cs, 0, e))
}

/// The label of sensor `prefix` of device `dev`: the trimmed text of its
/// `_label` file, or else `"<dev> <prefix without leading temp>"`, trimmed.
pub open spec fn temp_label_of(dev: Seq<char>, prefix: Seq<char>, label_file: Option<Seq<char>>) -> Seq<char> {
    match label_file {
        Some(t) => trim(t),
        None => trim(dev + seq![' '] + trim_start_matches(prefix, "temp"@)),
    }
}

/// The positive value that `parse::<i64>()` reads from the trimmed text, if any.
pub open spec fn positive_reading(text: Seq<char>) -> Option<i64> {
    match parse_nat(trim(text)) {
        Some(v) => if 0 < v && v <= i64::MAX {
            Some(v as i64)
        } else {
            None
        },
        None => None,
    }
}

/// The reading of sensor `prefix` of device `dev`, from its `_label` file and
/// its `_input` file (each `None` when it could not be read): `None` unless
/// the input holds a positive number of thousandths of a degree.
pub open spec fn temp_reading_of(
    dev: Seq<char>,
    prefix: Seq<char>,
    label_file: Option<Seq<char>>,
    input: Option<Seq<char>>,
) -> Option<TempReadingView> {
    match positive_reading(
        match input {
            Some(t) => t,
            None => seq![],
        },
    ) {
        Some(milli) => Some(
            TempReadingView { label: temp_label_of(dev, prefix, label_file), milli_celsius: milli },
        ),
        None => None,
    }
}

/// The reading of sensor `prefix` of the hwmon device `dev`.
pub fn temp_reading(dev: &str, prefix: &str, label_file: Option<&str>, input: Option<&str>) -> (r:
    Option<TempReading>)
    ensures
        match (
            r,
            temp_reading_of(
                dev@,
                prefix@,
                match label_file {
                    Some(t) => Some(t@),
                    None => None,
                },
                match input {
                    Some(t) => Some(t@),
                    None => None,
                },
            ),
        ) {
            (Some(t), Some(v)) => t@ == v,
            (None, None) => true,
            _ => false,
        },
{
    let ins = match input {
        Some(t) => chars_of(t),
        None => Vec::new(),
    };
    assert(ins@.subrange(0, ins@.len() as int) =~= ins@);
    let (a, b) = trim_in(&ins, 0, ins.len());
    let milli = match parse_u64_in(&ins, a, b) {
        None => return None,
        Some(v) => v,
    };
    if milli == 0 || milli > 0x7fff_ffff_ffff_ffff {
        return None;
    }
    let label = match label_file {
        Some(t) => {
            let ls = chars_of(t);
            assert(ls@.subrange(0, ls@.len() as int) =~= ls@);
            let (x, y) = trim_in(&ls, 0, ls.len());
            string_of(&ls, x, y)
        },
        None => {
            let mut buf = chars_of(dev);
            buf.push(' ');
            let ps = chars_of(prefix);
            assert(ps@.subrange(0, ps@.len() as int) =~= ps@);
            let p0 = trim_start_matches_in(&ps, 0, ps.len(), "temp");
            let ghost head = buf@;
            let mut j = p0;
            while j < ps.len()
                invariant
                    p0 <= j <= ps.len(),
                    buf@ == head + ps@.subrange(p0 as int, j as int),
                decreases ps.len() - j,
            {
                buf.push(ps[j]);
                assert(ps@.subrange(p0 as int, j + 1) =~= ps@.subrange(p0 as int, j as int).push(
                    ps@[j as int],
                ));
                j = j + 1;
            }
            assert(buf@ =~= dev@ + seq![' '] + trim_start_matches(prefix@, "temp"@));
            assert(buf@.subrange(0, buf@.len() as int) =~= buf@);
            let (x, y) = trim_in(&buf, 0, buf.len());
            string_of(&buf, x, y)
        },
    };
    Some(TempReading { label, milli_celsius: milli as i64 })
}

proof fn lemma_sized_only_sized(s: Seq<DimmSlotView>)
    ensures
        forall|k: int| 0 <= k < sized_only(s).len() ==> (#[trigger] sized_only(s)[k]).size_mb > 0,
    decreases s.len(),
{
    if s.len() > 0 {
        let prev = sized_only(s.drop_last());
        lemma_sized_only_sized(s.drop_last());
        assert forall|k: int| 0 <= k < sized_only(s).len() implies (#[trigger] sized_only(s)[k]).size_mb
            > 0 by {
            if k < prev.len() {
                assert(sized_only(s)[k] == prev[k]);
            }
        }
    }
}

/// Every slot read from `dmidecode -t 17` has a non-zero size: empty slots
/// are dropped.
pub proof fn lemma_dmi_slots_sized(ls: Seq<Seq<char>>)
    ensures
        forall|k: int| 0 <= k < dmi_slots(ls).len() ==> (#[trigger] dmi_slots(ls)[k]).size_mb > 0,
{
    let st = dmi_of(ls);
    lemma_sized_only_sized(
        match st.current {
            Some(c) => st.slots.push(c),
            None => st.slots,
        },
    );
}

/// Number of lines of `ls` that open a memory device block.
pub open spec fn device_headers(ls: Seq<Seq<char>>) -> nat
    decreases ls.len(),
{
    if ls.len() == 0 {
        0
    } else {
        device_headers(ls.drop_last()) + if is_device_header(trim(ls.last())) {
            1nat
        } else {
            0nat
        }
    }
}

proof fn lemma_dmi_blocks(ls: Seq<Seq<char>>)
    ensures
        dmi_of(ls).slots.len() + (if dmi_of(ls).current is Some {
            1nat
        } else {
            0nat
        }) == device_headers(ls),
    decreases ls.len(),
{
    if ls.len() > 0 {
        lemma_dmi_blocks(ls.drop_last());
    }
}

proof fn lemma_sized_only_len(s: Seq<DimmSlotView>)
    ensures
        sized_only(s).len() <= s.len(),
    decreases s.len(),
{
    if s.len() > 0 {
        lemma_sized_only_len(s.drop_last());
    }
}

/// `dmidecode -t 17` output gives at most one slot per memory device block,
/// and none without a block: lines before the first block are not read.
pub proof fn lemma_dmi_slots_within_blocks(ls: Seq<Seq<char>>)
    ensures
        dmi_slots(ls).len() <= device_headers(ls),
{
    lemma_dmi_blocks(ls);
    let st = dmi_of(ls);
    lemma_sized_only_len(
        match st.current {
            Some(c) => st.slots.push(c),
            None => st.slots,
        },
    );
}

/// The lines of each memory device block of `dmidecode -t 17` output, in
/// order: the lines after each device header up to the next one (lines before
/// the first header belong to no block).
pub open spec fn device_blocks(ls: Seq<Seq<char>>) -> Seq<Seq<Seq<char>>>
    decreases ls.len(),
{
    if ls.len() == 0 {
        seq![]
    } else {
        let bs = device_blocks(ls.drop_last());
        if is_device_header(trim(ls.last())) {
            bs.push(seq![])
        } else if bs.len() == 0 {
            bs
        } else {
            bs.update(bs.len() - 1, bs.last().push(ls.last()))
        }
    }
}

/// One line of a device block applied to the block's slot.
pub open spec fn dmi_line(slot: DimmSlotView, raw: Seq<char>) -> DimmSlotView {
    match split_once(trim(raw), ':') {
        Some((k, v)) => dimm_field(slot, trim(k), trim(v)),
        None => slot,
    }
}

/// The slot that the lines of one device block describe.
pub open spec fn block_slot(b: Seq<Seq<char>>) -> DimmSlotView
    decreases b.len(),
{
    if b.len() == 0 {
        empty_dimm()
    } else {
        dmi_line(block_slot(b.drop_last()), b.last())
    }
}

/// The slots of the blocks `bs`, in order.
pub open spec fn block_slots(bs: Seq<Seq<Seq<char>>>) -> Seq<DimmSlotView> {
    bs.map_values(|b: Seq<Seq<char>>| block_slot(b))
}

proof fn lemma_dmi_by_block(ls: Seq<Seq<char>>)
    ensures
        device_blocks(ls).len() == 0 ==> dmi_of(ls).slots.len() == 0 && dmi_of(ls).current is None,
        device_blocks(ls).len() > 0 ==> dmi_of(ls).slots == block_slots(
            device_blocks(ls).drop_last(),
        ) && dmi_of(ls).current == Some(block_slot(device_blocks(ls).last())),
    decreases ls.len(),
{
    if ls.len() > 0 {
        let p = ls.drop_last();
        let x = ls.last();
        lemma_dmi_by_block(p);
        let bs = device_blocks(p);
        if is_device_header(trim(x)) {
            let nb = bs.push(seq![]);
            assert(nb.drop_last() =~= bs);
            if bs.len() > 0 {
                assert(block_slots(bs) =~= block_slots(bs.drop_last()).push(block_slot(bs.last())));
            } else {
                assert(block_slots(bs) =~= Seq::<DimmSlotView>::empty());
            }
        } else if bs.len() > 0 {
            let nb = bs.update(bs.len() - 1, bs.last().push(x));
            assert(nb.drop_last() =~= bs.drop_last());
            assert(bs.last().push(x).drop_last() =~= bs.last());
        }
    }
}

/// `dmidecode -t 17` output block by block: the slots are, in order, those of
/// the memory device blocks whose size is not zero.
pub proof fn lemma_dmi_slots_by_block(ls: Seq<Seq<char>>)
    ensures
        dmi_slots(ls) == sized_only(block_slots(device_blocks(ls))),
{
    lemma_dmi_by_block(ls);
    let bs = device_blocks(ls);
    if bs.len() > 0 {
        assert(block_slots(bs) =~= block_slots(bs.drop_last()).push(block_slot(bs.last())));
    } else {
        assert(block_slots(bs) =~= Seq::<DimmSlotView>::empty());
    }
}

/// The trimmed value of the last `key: value` line of `b`, if any.
pub open spec fn last_value(b: Seq<Seq<char>>, key: Seq<char>) -> Option<Seq<char>>
    decreases b.len(),
{
    if b.len() == 0 {
        None
    } else {
        match split_once(trim(b.last()), ':') {
            Some((k, v)) => if trim(k) == key {
                Some(trim(v))
            } else {
                last_value(b.drop_last(), key)
            },
            None => last_value(b.drop_last(), key),
        }
    }
}

/// The trimmed value of the last `Size:` line of `b` that gives megabytes or
/// gigabytes, if any.
pub open spec fn last_size_value(b: Seq<Seq<char>>) -> Option<Seq<char>>
    decreases b.len(),
{
    if b.len() == 0 {
        None
    } else {
        match split_once(trim(b.last()), ':') {
            Some((k, v)) => if trim(k) == "Size"@ && (contains(trim(v), "MB"@) || contains(
                trim(v),
                "GB"@,
            )) {
                Some(trim(v))
            } else {
                last_size_value(b.drop_last())
            },
            None => last_size_value(b.drop_last()),
        }
    }
}

/// A text field: the value, or empty text without one.
pub open spec fn text_or_empty(v: Option<Seq<char>>) -> Seq<char> {
    match v {
        Some(t) => t,
        None => seq![],
    }
}

/// A speed field: the first number of the value, or 0 without one.
pub open spec fn number_or_zero(v: Option<Seq<char>>) -> u64 {
    match v {
        Some(t) => first_u64_or_zero(t),
        None => 0,
    }
}

/// What one memory device block gives, field by field, from the last line
/// for each key: the rated speed is the first number of the `Speed:` value and
/// the configured speed that of the `Configured Memory Speed:` value (0
/// without one); the locator, type, manufacturer and voltage are the values of
/// `Locator:`, `Type:`, `Manufacturer:` and `Configured Voltage:`, the part
/// number the `Part Number:` value trimmed (empty without one); the size is
/// the first number of the last `Size:` value in megabytes, or in gigabytes
/// times 1024 (saturating), 0 without one.
pub proof fn lemma_block_slot_fields(b: Seq<Seq<char>>)
    ensures
        block_slot(b).speed_mhz == number_or_zero(last_value(b, "Speed"@)),
        block_slot(b).configured_speed == number_or_zero(
            last_value(b, "Configured Memory Speed"@),
        ),
        block_slot(b).locator == text_or_empty(last_value(b, "Locator"@)),
        block_slot(b).mem_type == text_or_empty(last_value(b, "Type"@)),
        block_slot(b).manufacturer == text_or_empty(last_value(b, "Manufacturer"@)),
        block_slot(b).voltage == text_or_empty(last_value(b, "Configured Voltage"@)),
        block_slot(b).part_number == (match last_value(b, "Part Number"@) {
            Some(v) => trim(v),
            None => seq![],
        }),
        block_slot(b).size_mb == (match last_size_value(b) {
            Some(v) => if contains(v, "MB"@) {
                first_u64_or_zero(v)
            } else if first_u64_or_zero(v) <= u64::MAX / 1024 {
                (first_u64_or_zero(v) * 1024) as u64
            } else {
                u64::MAX
            },
            None => 0,
        }),
    decreases b.len(),
{
    reveal_strlit("Locator");
    reveal_strlit("Type");
    reveal_strlit("Manufacturer");
    reveal_strlit("Part Number");
    reveal_strlit("Configured Voltage");
    reveal_strlit("Size");
    reveal_strlit("Speed");
    reveal_strlit("Configured Memory Speed");
    assert("Locator"@.len() == 7);
    assert("Type"@.len() == 4);
    assert("Manufacturer"@.len() == 12);
    assert("Part Number"@.len() == 11);
    assert("Configured Voltage"@.len() == 18);
    assert("Size"@.len() == 4);
    assert("Speed"@.len() == 5);
    assert("Configured Memory Speed"@.len() == 23);
    assert("Type"@[0] != "Size"@[0]);
    if b.len() > 0 {
        lemma_block_slot_fields(b.drop_last());
    }
}

/// Every process read from `/proc/<pid>/status` files has a resident set.
pub proof fn lemma_status_entries_resident(es: Seq<(Seq<char>, Seq<char>)>)
    ensures
        forall|k: int|
            0 <= k < status_entries(es).len() ==> (#[trigger] status_entries(es)[k]).rss_kb > 0,
    decreases es.len(),
{
    if es.len() > 0 {
        let prev = status_entries(es.drop_last());
        lemma_status_entries_resident(es.drop_last());
        assert forall|k: int| 0 <= k < status_entries(es).len() implies (#[trigger] status_entries(
            es,
        )[k]).rss_kb > 0 by {
            if k < prev.len() {
                assert(status_entries(es)[k] == prev[k]);
            }
        }
    }
}

} // verus!
