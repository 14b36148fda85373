//! The figures and texts that the reports show, apart from layout and colour.

use vstd::prelude::*;
use crate::format::{dec, fmt_size, push_dec, push_lit, size_text};
use crate::text::{chars_of, contains, push_char, span_contains, span_eq, string_of, trim, trim_in};
use crate::types::{dimms_view, DimmSlot, DimmSlotView, MemArrayInfo, MemStats, PiBoardInfo};

verus! {

/// `a + b`, saturating at `u64::MAX`.
pub open spec fn sat_add(a: u64, b: u64) -> u64 {
    if a + b > u64::MAX {
        u64::MAX
    } else {
        (a + b) as u64
    }
}

/// `a - b`, saturating at 0.
pub open spec fn sat_sub(a: u64, b: u64) -> u64 {
    if a >= b {
        (a - b) as u64
    } else {
        0
    }
}

// ─── Memory table ─────────────────────────────────────────────────────────────

/// One `free -m` style row of the memory table, in megabytes.
#[derive(Debug, Clone, Copy, PartialEq, Eq)]
pub struct MemRow {
    pub total: u64,
    pub used: u64,
    pub free: u64,
    pub buff_cache: u64,
    pub available: u64,
}

/// The RAM row: `used` is total − free − buffers/cache (`free -m` semantics),
/// every figure in whole megabytes.
pub fn mem_row_mb(m: &MemStats) -> (r: MemRow)
    ensures
        r.total == m.total_kb / 1024,
        r.buff_cache == sat_add(m.buffers_kb, m.cached_kb) / 1024,
        r.used == sat_sub(sat_sub(m.total_kb, m.free_kb), sat_add(m.buffers_kb, m.cached_kb))
            / 1024,
        r.free == m.free_kb / 1024,
        r.available == m.available_kb / 1024,
{
    let buff_cache = m.buffers_kb.saturating_add(m.cached_kb);
    let used = m.total_kb.saturating_sub(m.free_kb).saturating_sub(buff_cache);
    MemRow {
        total: m.total_kb / 1024,
        used: used / 1024,
        free: m.free_kb / 1024,
        buff_cache: buff_cache / 1024,
        available: m.available_kb / 1024,
    }
}

/// RAM in use (total − available, 0 if more is available), in kilobytes.
pub fn mem_used_kb(m: &MemStats) -> (r: u64)
    ensures
        r == sat_sub(m.total_kb, m.available_kb),
{
    m.total_kb.saturating_sub(m.available_kb)
}

/// Swap in use (total − free, 0 if more is free), in kilobytes.
pub fn swap_used_kb(m: &MemStats) -> (r: u64)
    ensures
        r == sat_sub(m.swap_total_kb, m.swap_free_kb),
{
    m.swap_total_kb.saturating_sub(m.swap_free_kb)
}

/// `part` as a whole percentage of `total` (rounded down), or 0 for a zero total.
pub fn share_percent(part: u64, total: u64) -> (r: u64)
    requires
        total > 0 ==> part * 100 <= u64::MAX,
    ensures
        r == (if total > 0 {
            ((part * 100) / (total as int)) as u64
        } else {
            0
        }),
{
    if total > 0 {
        part * 100 / total
    } else {
        0
    }
}

// ─── Slots and capacity ───────────────────────────────────────────────────────

/// The sum of the slot sizes, in megabytes.
pub open spec fn total_size(s: Seq<DimmSlotView>) -> nat
    decreases s.len(),
{
    if s.len() == 0 {
        0
    } else {
        total_size(s.drop_last()) + s.last().size_mb as nat
    }
}

/// The largest rated speed among the slots, or 0.
pub open spec fn max_speed(s: Seq<DimmSlotView>) -> u64
    decreases s.len(),
{
    if s.len() == 0 {
        0
    } else if max_speed(s.drop_last()) >= s.last().speed_mhz {
        max_speed(s.drop_last())
    } else {
        s.last().speed_mhz
    }
}

/// The installed capacity in megabytes, saturating at `u64::MAX`.
pub fn installed_mb(dimms: &Vec<DimmSlot>) -> (r: u64)
    ensures
        r == (if total_size(dimms_view(dimms@)) > u64::MAX {
            u64::MAX as int
        } else {
            total_size(dimms_view(dimms@)) as int
        }),
{
    let ghost s = dimms_view(dimms@);
    let mut sum: u64 = 0;
    let mut i: usize = 0;
    assert(s.take(0) =~= Seq::<DimmSlotView>::empty());
    while i < dimms.len()
        invariant
            i <= dimms.len(),
            s == dimms_view(dimms@),
            sum == (if total_size(s.take(i as int)) > u64::MAX {
                u64::MAX as int
            } else {
                total_size(s.take(i as int)) as int
            }),
        decreases dimms.len() - i,
    {
        assert(s.take(i + 1).drop_last() =~= s.take(i as int));
        assert(s.take(i + 1).last() == dimms@[i as int]@);
        sum = sum.saturating_add(dimms[i].size_mb);
        i = i + 1;
    }
    assert(s.take(dimms.len() as int) =~= s);
    sum
}

/// The installed capacity in megabytes as a `u64` (saturating at `u64::MAX`).
pub open spec fn installed_of(s: Seq<DimmSlotView>) -> u64 {
    if total_size(s) > u64::MAX {
        u64::MAX
    } else {
        total_size(s) as u64
    }
}

/// Room left for more memory: the array's maximum capacity minus the
/// installed capacity, in megabytes (0 when nothing is left).
pub fn headroom_mb(dimms: &Vec<DimmSlot>, array: &MemArrayInfo) -> (r: u64)
    ensures
        r == sat_sub(array.max_capacity_mb, installed_of(dimms_view(dimms@))),
{
    let installed = installed_mb(dimms);
    array.max_capacity_mb.saturating_sub(installed)
}

/// The largest rated speed is at least the speed of every slot, and is the
/// speed of one of them (0 without slots).
pub proof fn lemma_max_speed_is_largest(s: Seq<DimmSlotView>)
    ensures
        forall|k: int| 0 <= k < s.len() ==> (#[trigger] s[k]).speed_mhz <= max_speed(s),
        s.len() == 0 ==> max_speed(s) == 0,
        s.len() > 0 ==> exists|k: int| 0 <= k < s.len() && (#[trigger] s[k]).speed_mhz == max_speed(s),
    decreases s.len(),
{
    if s.len() > 0 {
        let p = s.drop_last();
        lemma_max_speed_is_largest(p);
        assert forall|k: int| 0 <= k < s.len() implies (#[trigger] s[k]).speed_mhz <= max_speed(s) by {
            if k < p.len() {
                assert(s[k] == p[k]);
            }
        }
        if p.len() > 0 && max_speed(p) >= s.last().speed_mhz {
            let k = choose|k: int| 0 <= k < p.len() && (#[trigger] p[k]).speed_mhz == max_speed(p);
            assert(s[k] == p[k]);
        } else {
            assert(s[s.len() - 1] == s.last());
        }
    }
}

/// The largest rated speed among the slots in MT/s, or 0.
pub fn max_speed_mhz(dimms: &Vec<DimmSlot>) -> (r: u64)
    ensures
        r == max_speed(dimms_view(dimms@)),
        forall|k: int| 0 <= k < dimms.len() ==> (#[trigger] dimms@[k]).speed_mhz <= r,
        dimms.len() == 0 ==> r == 0,
        dimms.len() > 0 ==> exists|k: int| 0 <= k < dimms.len() && (#[trigger] dimms@[k]).speed_mhz == r,
{
    proof {
        let s = dimms_view(dimms@);
        lemma_max_speed_is_largest(s);
        assert forall|k: int| 0 <= k < dimms.len() implies (#[trigger] dimms@[k]).speed_mhz
            <= max_speed(s) by {
            assert(s[k] == dimms@[k]@);
        }
        if dimms.len() > 0 {
            let k = choose|k: int| 0 <= k < s.len() && (#[trigger] s[k]).speed_mhz == max_speed(s);
            assert(s[k] == dimms@[k]@);
        }
    }
    let ghost s = dimms_view(dimms@);
    let mut best: u64 = 0;
    let mut i: usize = 0;
    assert(s.take(0) =~= Seq::<DimmSlotView>::empty());
    while i < dimms.len()
        invariant
            i <= dimms.len(),
            s == dimms_view(dimms@),
            best == max_speed(s.take(i as int)),
        decreases dimms.len() - i,
    {
        assert(s.take(i + 1).drop_last() =~= s.take(i as int));
        assert(s.take(i + 1).last() == dimms@[i as int]@);
        let v = dimms[i].speed_mhz;
        if v > best {
            best = v;
        }
        i = i + 1;
    }
    assert(s.take(dimms.len() as int) =~= s);
    best
}

/// How the slots of a memory array are used.
#[derive(Debug, Clone, Copy, PartialEq, Eq)]
pub struct SlotUse {
    pub used: u32,
    pub free: u32,
}

/// The used slots (one per module, as a `u32`) and the free ones (the rest
/// of the array's slots, or 0).
pub fn slot_use(module_count: usize, array: &MemArrayInfo) -> (r: SlotUse)
    ensures
        r.used == module_count as u32,
        r.free == (if array.total_slots >= r.used {
            (array.total_slots - r.used) as u32
        } else {
            0
        }),
{
    let used = module_count as u32;
    SlotUse { used, free: array.total_slots.saturating_sub(used) }
}

// ─── Texts ────────────────────────────────────────────────────────────────────

/// A field as the classic report shows it: `—` when empty or `Unknown`.
pub open spec fn blank_dash_of(s: Seq<char>) -> Seq<char> {
    if s.len() == 0 || s == "Unknown"@ {
        "—"@
    } else {
        s
    }
}

/// A field as the interface shows it: trimmed, `—` when that is empty or
/// `Unknown`.
pub open spec fn trimmed_dash_of(s: Seq<char>) -> Seq<char> {
    if trim(s).len() == 0 || trim(s) == "Unknown"@ {
        "—"@
    } else {
        trim(s)
    }
}

/// A positive count in decimal, or `—` for 0.
pub open spec fn count_or_dash_of(n: u64) -> Seq<char> {
    if n > 0 {
        dec(n as nat)
    } else {
        "—"@
    }
}

/// `s`, or `—` when it is empty or `Unknown`.
pub fn blank_dash(s: &str) -> (r: String)
    ensures
        r@ == blank_dash_of(s@),
{
    let cs = chars_of(s);
    assert(cs@.subrange(0, cs@.len() as int) =~= cs@);
    if cs.len() == 0 || span_eq(&cs, 0, cs.len(), "Unknown") {
        let mut out = String::new();
        push_lit(&mut out, "—");
        out
    } else {
        string_of(&cs, 0, cs.len())
    }
}

/// A part number as the classic report shows it: `—` when empty or
/// `Unknown`, else trimmed.
pub open spec fn part_text_of(s: Seq<char>) -> Seq<char> {
    if s.len() == 0 || s == "Unknown"@ {
        "—"@
    } else {
        trim(s)
    }
}

/// A part number as the classic report shows it.
pub fn part_text(s: &str) -> (r: String)
    ensures
        r@ == part_text_of(s@),
{
    let cs = chars_of(s);
    assert(cs@.subrange(0, cs@.len() as int) =~= cs@);
    if cs.len() == 0 || span_eq(&cs, 0, cs.len(), "Unknown") {
        let mut out = String::new();
        push_lit(&mut out, "—");
        out
    } else {
        let (a, b) = trim_in(&cs, 0, cs.len());
        string_of(&cs, a, b)
    }
}

/// `s` trimmed, or `—` when that is empty or `Unknown`.
pub fn trimmed_dash(s: &str) -> (r: String)
    ensures
        r@ == trimmed_dash_of(s@),
{
    let cs = chars_of(s);
    assert(cs@.subrange(0, cs@.len() as int) =~= cs@);
    let (a, b) = trim_in(&cs, 0, cs.len());
    if a == b || span_eq(&cs, a, b, "Unknown") {
        let mut out = String::new();
        push_lit(&mut out, "—");
        out
    } else {
        string_of(&cs, a, b)
    }
}

/// `n` in decimal, or `—` for 0.
pub fn count_or_dash(n: u64) -> (r: String)
    ensures
        r@ == count_or_dash_of(n),
{
    let mut out = String::new();
    if n > 0 {
        push_dec(&mut out, n as u128);
    } else {
        push_lit(&mut out, "—");
    }
    out
}

/// `s` cut to `width` characters, ending in `…` when it was longer.
pub open spec fn ellipsized_of(s: Seq<char>, width: nat) -> Seq<char> {
    if s.len() > width {
        s.take(if width > 0 { width - 1 } else { 0 }).push('…')
    } else {
        s
    }
}

/// `s` cut to `width` characters, ending in `…` when it was longer.
pub fn ellipsize(s: &str, width: usize) -> (r: String)
    ensures
        r@ == ellipsized_of(s@, width as nat),
{
    let cs = chars_of(s);
    if cs.len() > width {
        let keep = if width > 0 {
            width - 1
        } else {
            0
        };
        let mut out = string_of(&cs, 0, keep);
        push_char(&mut out, '…');
        assert(cs@.subrange(0, keep as int) =~= cs@.take(keep as int));
        out
    } else {
        assert(cs@.subrange(0, cs@.len() as int) =~= cs@);
        string_of(&cs, 0, cs.len())
    }
}

/// The SDRAM rate shown for a Raspberry Pi: the measured rate, or the
/// default rate of a Pi 5 or Pi 4 model, or `—`.
pub open spec fn pi_rate_of(freq_mhz: Option<u64>, model: Seq<char>) -> Seq<char> {
    match freq_mhz {
        Some(mt) if mt > 0 => dec(mt as nat) + " MT/s"@,
        _ => if contains(model, "Pi 5"@) {
            "4267 MT/s (default)"@
        } else if contains(model, "Pi 4"@) {
            "3200 MT/s (default)"@
        } else {
            "—"@
        },
    }
}

/// The SDRAM rate shown for a Raspberry Pi board.
pub fn pi_rate_text(pi: &PiBoardInfo) -> (r: String)
    ensures
        r@ == pi_rate_of(pi.freq_mhz, pi.model@),
{
    let mut out = String::new();
    match pi.freq_mhz {
        Some(mt) if mt > 0 => {
            push_dec(&mut out, mt as u128);
            push_lit(&mut out, " MT/s");
            return out;
        },
        _ => {},
    }
    let cs = chars_of(pi.model.as_str());
    assert(cs@.subrange(0, cs@.len() as int) =~= cs@);
    if span_contains(&cs, 0, cs.len(), "Pi 5") {
        push_lit(&mut out, "4267 MT/s (default)");
    } else if span_contains(&cs, 0, cs.len(), "Pi 4") {
        push_lit(&mut out, "3200 MT/s (default)");
    } else {
        push_lit(&mut out, "—");
    }
    out
}

/// The board line: manufacturer and product (trimmed), whichever are known,
/// or `—`.
pub open spec fn board_text_of(manufacturer: Seq<char>, product: Seq<char>) -> Seq<char> {
    let v = trim(manufacturer);
    let p = trim(product);
    if v.len() == 0 && p.len() == 0 {
        "—"@
    } else if v.len() == 0 {
        p
    } else if p.len() == 0 {
        v
    } else {
        v + seq![' '] + p
    }
}

/// The board line of the interface.
pub fn board_text(manufacturer: &str, product: &str) -> (r: String)
    ensures
        r@ == board_text_of(manufacturer@, product@),
{
    let vs = chars_of(manufacturer);
    let ps = chars_of(product);
    assert(vs@.subrange(0, vs@.len() as int) =~= vs@);
    assert(ps@.subrange(0, ps@.len() as int) =~= ps@);
    let (v0, v1) = trim_in(&vs, 0, vs.len());
    let (p0, p1) = trim_in(&ps, 0, ps.len());
    if v0 == v1 && p0 == p1 {
        let mut out = String::new();
        push_lit(&mut out, "—");
        out
    } else if v0 == v1 {
        string_of(&ps, p0, p1)
    } else if p0 == p1 {
        string_of(&vs, v0, v1)
    } else {
        let mut out = string_of(&vs, v0, v1);
        push_char(&mut out, ' ');
        let tail = string_of(&ps, p0, p1);
        push_lit(&mut out, tail.as_str());
        out
    }
}

/// The module line of the summary: the module count and the average size.
pub open spec fn modules_text_of(count: nat, installed: u64) -> Seq<char> {
    dec(count) + " × "@ + size_text(((installed as nat) / count) as u64)
}

/// The module line of the summary for at least one module: the count and
/// the average installed size (of the saturating total).
pub fn modules_text(dimms: &Vec<DimmSlot>) -> (r: String)
    requires
        dimms.len() > 0,
    ensures
        r@ == modules_text_of(
            dimms@.len(),
            (if total_size(dimms_view(dimms@)) > u64::MAX {
                u64::MAX as int
            } else {
                total_size(dimms_view(dimms@)) as int
            }) as u64,
        ),
{
    let installed = installed_mb(dimms);
    let n = dimms.len();
    let mut out = String::new();
    push_dec(&mut out, n as u128);
    push_lit(&mut out, " × ");
    let size = fmt_size(installed / (n as u64));
    push_lit(&mut out, size.as_str());
    out
}

} // verus!
