//! macOS parsers: `vm_stat`, `sysctl`, `ps` and
//! `system_profiler SPMemoryDataType`.

use vstd::prelude::*;
use crate::parsers::linux::times_1024;
use crate::parsers::top::{top_by_rss, top_by_rss_of};
use crate::text::{
    chars_of, contains, find_sub, find_sub_in, find_ws, first_u64_or_zero, first_u64_or_zero_in,
    last_segment, lemma_find_ws_bounds, line_spans, lines, parse_u32,
    parse_u32_in, parse_u64, parse_u64_in, rfind_in, span_contains, span_ends_with, span_eq,
    span_starts_with, split_once, split_once_in, starts_with, ends_with, string_lit, string_of,
    trim, trim_end_char, trim_end_char_in, trim_in, trim_start, trim_start_in, find_ws_in,
    u64_or_zero, u64_or_zero_in, words, word_spans,
};
use crate::types::{
    dimms_view, empty_dimm, empty_mobo, procs_view, DimmSlot, DimmSlotView, MemArrayInfo,
    MemStats, MoboInfo, MoboInfoView, ProcessMem, ProcessMemView,
};

verus! {

// ─── vm_stat ──────────────────────────────────────────────────────────────────

/// `a.saturating_mul(b)`.
pub open spec fn sat_mul(a: u64, b: u64) -> u64 {
    if a * b > u64::MAX {
        u64::MAX
    } else {
        (a * b) as u64
    }
}

/// Pages of `page_size` bytes in kilobytes (the product saturating at `u64::MAX`).
pub open spec fn pages_to_kb(pages: u64, page_size: u64) -> u64 {
    sat_mul(pages, page_size) / 1024
}

/// The reading state of `vm_stat` output.
pub struct VmStatState {
    pub page_size: u64,
    pub free: u64,
    pub inactive: u64,
    pub speculative: u64,
    pub file_backed: u64,
}

/// The text of a header line after its first `page size of`, up to the next one.
pub open spec fn after_page_size_of(l: Seq<char>) -> Seq<char> {
    let p = "page size of"@;
    let after = l.skip(find_sub(l, p) + p.len());
    let j = find_sub(after, p);
    if j < 0 {
        after
    } else {
        after.take(j)
    }
}

/// One line of `vm_stat` output applied to the reading state.
pub open spec fn vm_step(st: VmStatState, raw: Seq<char>) -> VmStatState {
    let l = trim(raw);
    if contains(l, "page size of"@) {
        let size = first_u64_or_zero(after_page_size_of(l));
        if size > 0 {
            VmStatState { page_size: size, ..st }
        } else {
            st
        }
    } else {
        match split_once(l, ':') {
            None => st,
            Some((k, v)) => {
                let key = trim(k);
                let pages = u64_or_zero(trim_end_char(trim(v), '.'));
                if key == "Pages free"@ {
                    VmStatState { free: pages, ..st }
                } else if key == "Pages inactive"@ {
                    VmStatState { inactive: pages, ..st }
                } else if key == "Pages speculative"@ {
                    VmStatState { speculative: pages, ..st }
                } else if key == "File-backed pages"@ {
                    VmStatState { file_backed: pages, ..st }
                } else {
                    st
                }
            },
        }
    }
}

/// The reading state after the lines `ls` (pages of 4096 bytes until a header says otherwise).
pub open spec fn vm_of(ls: Seq<Seq<char>>) -> VmStatState
    decreases ls.len(),
{
    if ls.len() == 0 {
        VmStatState { page_size: 4096, free: 0, inactive: 0, speculative: 0, file_backed: 0 }
    } else {
        vm_step(vm_of(ls.drop_last()), ls.last())
    }
}

/// Free + inactive + speculative pages in kilobytes: the byte count of the
/// three together saturates at `u64::MAX`.
pub open spec fn available_kb_of(st: VmStatState) -> u64 {
    let bytes = (st.free + st.inactive + st.speculative) * st.page_size;
    (if bytes > u64::MAX {
        u64::MAX
    } else {
        bytes as u64
    }) / 1024
}

/// The statistics that `vm_stat` lines describe, with `total_kb` given.
pub open spec fn vm_stat_stats(ls: Seq<Seq<char>>, total_kb: u64) -> MemStats {
    let st = vm_of(ls);
    MemStats {
        total_kb,
        free_kb: pages_to_kb(st.free, st.page_size),
        available_kb: available_kb_of(st),
        buffers_kb: 0,
        cached_kb: pages_to_kb(st.file_backed, st.page_size),
        swap_total_kb: 0,
        swap_free_kb: 0,
    }
}

/// The page count that a `vm_stat` line gives for `key`: the number after the
/// colon with its trailing dot dropped (0 when it is not a number); `None` for
/// a header line and for a line with another key.
pub open spec fn vm_pages_line(raw: Seq<char>, key: Seq<char>) -> Option<u64> {
    let l = trim(raw);
    if contains(l, "page size of"@) {
        None
    } else {
        match split_once(l, ':') {
            None => None,
            Some((k, v)) => if trim(k) == key {
                Some(u64_or_zero(trim_end_char(trim(v), '.')))
            } else {
                None
            },
        }
    }
}

/// The page count of the last line of `ls` for `key`, or 0 without one.
pub open spec fn last_pages(ls: Seq<Seq<char>>, key: Seq<char>) -> u64
    decreases ls.len(),
{
    if ls.len() == 0 {
        0
    } else {
        match vm_pages_line(ls.last(), key) {
            Some(n) => n,
            None => last_pages(ls.drop_last(), key),
        }
    }
}

/// The page size that a header line announces, or 0.
pub open spec fn page_size_line(raw: Seq<char>) -> u64 {
    let l = trim(raw);
    if contains(l, "page size of"@) {
        first_u64_or_zero(after_page_size_of(l))
    } else {
        0
    }
}

/// The page size of the last header line of `ls` that announces a non-zero
/// one, or 4096 bytes.
pub open spec fn page_size_in(ls: Seq<Seq<char>>) -> u64
    decreases ls.len(),
{
    if ls.len() == 0 {
        4096
    } else if page_size_line(ls.last()) > 0 {
        page_size_line(ls.last())
    } else {
        page_size_in(ls.drop_last())
    }
}

/// `min(pages * page_size, u64::MAX) / 1024`.
pub open spec fn kb_of_pages(pages: int, page_size: u64) -> u64 {
    let bytes = pages * page_size;
    (if bytes > u64::MAX {
        u64::MAX
    } else {
        bytes as u64
    }) / 1024
}

proof fn lemma_vm_of_fields(ls: Seq<Seq<char>>)
    ensures
        vm_of(ls) == (VmStatState {
            page_size: page_size_in(ls),
            free: last_pages(ls, "Pages free"@),
            inactive: last_pages(ls, "Pages inactive"@),
            speculative: last_pages(ls, "Pages speculative"@),
            file_backed: last_pages(ls, "File-backed pages"@),
        }),
    decreases ls.len(),
{
    reveal_strlit("Pages free");
    reveal_strlit("Pages inactive");
    reveal_strlit("Pages speculative");
    reveal_strlit("File-backed pages");
    if ls.len() > 0 {
        let p = ls.drop_last();
        let x = ls.last();
        lemma_vm_of_fields(p);
        let st = vm_of(p);
        let u = vm_step(st, x);
        assert(vm_of(ls) == u);
        let l = trim(x);
        if contains(l, "page size of"@) {
            assert(vm_pages_line(x, "Pages free"@) is None);
            assert(vm_pages_line(x, "Pages inactive"@) is None);
            assert(vm_pages_line(x, "Pages speculative"@) is None);
            assert(vm_pages_line(x, "File-backed pages"@) is None);
        } else {
            assert(page_size_line(x) == 0);
            assert(u.page_size == page_size_in(ls));
            match split_once(l, ':') {
                None => {},
                Some((k, v)) => {
                    let key = trim(k);
                    let pages = u64_or_zero(trim_end_char(trim(v), '.'));
                    assert("Pages free"@.len() == 10);
                    assert("Pages inactive"@.len() == 14);
                    assert("Pages speculative"@.len() == 17);
                    assert("File-backed pages"@.len() == 17);
                    assert("Pages speculative"@[6] != "File-backed pages"@[6]);
                    assert(u.free == last_pages(ls, "Pages free"@));
                    assert(u.inactive == last_pages(ls, "Pages inactive"@));
                    assert(u.speculative == last_pages(ls, "Pages speculative"@));
                    assert(u.file_backed == last_pages(ls, "File-backed pages"@));
                },
            }
        }
    }
}

/// What `vm_stat` output gives, field by field: with `P` the page size of the
/// last header line that announces one (4096 bytes without), and `F`, `I`,
/// `S`, `B` the counts of the last `Pages free`, `Pages inactive`, `Pages
/// speculative` and `File-backed pages` lines (0 when absent or not a number),
/// free is `F` pages, available `F + I + S` pages and cached `B` pages, each
/// in kilobytes with the byte count saturating at `u64::MAX`; buffers and swap
/// are 0 and the total is the one given.
pub proof fn lemma_vm_stat_fields(ls: Seq<Seq<char>>, total_kb: u64)
    ensures
        page_size_in(ls) > 0,
        vm_stat_stats(ls, total_kb) == (MemStats {
            total_kb,
            free_kb: kb_of_pages(last_pages(ls, "Pages free"@) as int, page_size_in(ls)),
            available_kb: kb_of_pages(
                last_pages(ls, "Pages free"@) + last_pages(ls, "Pages inactive"@) + last_pages(
                    ls,
                    "Pages speculative"@,
                ),
                page_size_in(ls),
            ),
            buffers_kb: 0,
            cached_kb: kb_of_pages(last_pages(ls, "File-backed pages"@) as int, page_size_in(ls)),
            swap_total_kb: 0,
            swap_free_kb: 0,
        }),
    decreases ls.len(),
{
    lemma_vm_of_fields(ls);
    if ls.len() > 0 {
        lemma_vm_stat_fields(ls.drop_last(), total_kb);
    }
}

fn pages_to_kb_exec(pages: u64, page_size: u64) -> (r: u64)
    ensures
        r == pages_to_kb(pages, page_size),
{
    match pages.checked_mul(page_size) {
        Some(v) => v / 1024,
        None => u64::MAX / 1024,
    }
}

/// Parse `vm_stat` output text into a [`MemStats`].
///
/// The page size is taken from the header line
/// `Mach Virtual Memory Statistics: (page size of 16384 bytes)` (defaulting to
/// 4096 bytes if absent). Fills `free_kb` from "Pages free", `available_kb` as
/// free + inactive + speculative pages, and `cached_kb` from "File-backed pages",
/// each byte count saturating at `u64::MAX`. `total_kb` comes from the caller;
/// `buffers_kb` and the swap fields are 0.
pub fn parse_vm_stat_output(text: &str, total_kb: u64) -> (m: MemStats)
    ensures
        m == vm_stat_stats(lines(text@), total_kb),
{
    let cs = chars_of(text);
    let spans = line_spans(&cs);
    let ghost ls = lines(cs@);
    let mut page_size: u64 = 4096;
    let mut free: u64 = 0;
    let mut inactive: u64 = 0;
    let mut speculative: u64 = 0;
    let mut file_backed: u64 = 0;
    let mut k: usize = 0;
    assert(ls.take(0) =~= Seq::<Seq<char>>::empty());
    while k < spans.len()
        invariant
            k <= spans.len() == ls.len(),
            ls == lines(cs@),
            forall|j: int|
                0 <= j < spans.len() ==> {
                    &&& (#[trigger] spans@[j]).0 <= spans@[j].1 <= cs.len()
                    &&& cs@.subrange(spans@[j].0 as int, spans@[j].1 as int) == ls[j]
                },
            page_size > 0,
            vm_of(ls.take(k as int)) == (VmStatState {
                page_size,
                free,
                inactive,
                speculative,
                file_backed,
            }),
        decreases spans.len() - k,
    {
        let (a, b) = spans[k];
        assert(ls.take(k + 1).drop_last() =~= ls.take(k as int));
        assert(ls.take(k + 1).last() == cs@.subrange(a as int, b as int));
        let (x, y) = trim_in(&cs, a, b);
        let found = find_sub_in(&cs, x, y, "page size of");
        if let Some(i) = found {
            let ghost l = cs@.subrange(x as int, y as int);
            let n = "page size of".unicode_len();
            let s0 = i + n;
            assert(l.skip(i - x + n) =~= cs@.subrange(s0 as int, y as int));
            let e = match find_sub_in(&cs, s0, y, "page size of") {
                Some(j) => {
                    assert(cs@.subrange(s0 as int, y as int).take(j - s0) =~= cs@.subrange(
                        s0 as int,
                        j as int,
                    ));
                    j
                },
                None => y,
            };
            let size = first_u64_or_zero_in(&cs, s0, e);
            if size > 0 {
                page_size = size;
            }
        } else {
            match split_once_in(&cs, x, y, ':') {
                None => {},
                Some(i) => {
                    let (k0, k1) = trim_in(&cs, x, i);
                    let (v0, v1) = trim_in(&cs, i + 1, y);
                    let v2 = trim_end_char_in(&cs, v0, v1, '.');
                    let pages = u64_or_zero_in(&cs, v0, v2);
                    if span_eq(&cs, k0, k1, "Pages free") {
                        free = pages;
                    } else if span_eq(&cs, k0, k1, "Pages inactive") {
                        inactive = pages;
                    } else if span_eq(&cs, k0, k1, "Pages speculative") {
                        speculative = pages;
                    } else if span_eq(&cs, k0, k1, "File-backed pages") {
                        file_backed = pages;
                    }
                },
            }
        }
        k = k + 1;
    }
    assert(ls.take(ls.len() as int) =~= ls);
    let avail_pages = match free.checked_add(inactive) {
        None => None,
        Some(fi) => fi.checked_add(speculative),
    };
    let available_kb = match avail_pages {
        Some(t) => pages_to_kb_exec(t, page_size),
        None => {
            assert((free + inactive + speculative) * page_size > u64::MAX) by (nonlinear_arith)
                requires
                    free + inactive + speculative > u64::MAX,
                    page_size >= 1,
            ;
            u64::MAX / 1024
        },
    };
    MemStats {
        total_kb,
        free_kb: pages_to_kb_exec(free, page_size),
        available_kb,
        buffers_kb: 0,
        cached_kb: pages_to_kb_exec(file_backed, page_size),
        swap_total_kb: 0,
        swap_free_kb: 0,
    }
}

// ─── sysctl ───────────────────────────────────────────────────────────────────

/// The value token of `<name> = <value>` among the whitespace-separated words
/// `toks`, scanning as `find_swap_field_kb` does: a word equal to `name` is
/// followed by the check of the next word against `=` (which consumes it).
pub open spec fn swap_field(toks: Seq<Seq<char>>, name: Seq<char>) -> Option<Seq<char>>
    decreases toks.len(),
{
    if toks.len() == 0 {
        None
    } else if toks[0] == name {
        if toks.len() >= 2 && toks[1] == "="@ {
            if toks.len() >= 3 {
                Some(toks[2])
            } else {
                None
            }
        } else if toks.len() >= 2 {
            swap_field(toks.skip(2), name)
        } else {
            None
        }
    } else {
        swap_field(toks.drop_first(), name)
    }
}

/// The value token of `<name> = <value>` in `sysctl vm.swapusage` output
/// (e.g. `2048.00M` for `total`).
pub fn swap_field_token(text: &str, name: &str) -> (r: Option<String>)
    ensures
        match (r, swap_field(words(text@), name@)) {
            (Some(t), Some(v)) => t@ == v,
            (None, None) => true,
            _ => false,
        },
{
    let cs = chars_of(text);
    let ws = word_spans(&cs, 0, cs.len());
    let ghost toks = words(cs@);
    assert(cs@.subrange(0, cs@.len() as int) =~= cs@);
    let mut i: usize = 0;
    assert(toks.skip(0) =~= toks);
    while i < ws.len()
        invariant
            i <= ws.len() == toks.len(),
            toks == words(cs@),
            cs@ == text@,
            forall|k: int|
                0 <= k < ws.len() ==> {
                    &&& (#[trigger] ws@[k]).0 <= ws@[k].1 <= cs.len()
                    &&& cs@.subrange(ws@[k].0 as int, ws@[k].1 as int) == toks[k]
                },
            swap_field(toks.skip(i as int), name@) == swap_field(toks, name@),
        decreases ws.len() - i,
    {
        let ghost rest = toks.skip(i as int);
        let (a, b) = ws[i];
        assert(rest[0] == toks[i as int]);
        if span_eq(&cs, a, b, name) {
            if i + 1 < ws.len() {
                let (c, d) = ws[i + 1];
                assert(rest[1] == toks[i + 1]);
                if span_eq(&cs, c, d, "=") {
                    if i + 2 < ws.len() {
                        let (e, f) = ws[i + 2];
                        assert(rest[2] == toks[i + 2]);
                        return Some(string_of(&cs, e, f));
                    } else {
                        return None;
                    }
                }
                assert(rest.skip(2) =~= toks.skip(i + 2));
                i = i + 2;
            } else {
                return None;
            }
        } else {
            assert(rest.drop_first() =~= toks.skip(i + 1));
            i = i + 1;
        }
    }
    assert(toks.skip(i as int).len() == 0);
    None
}

/// Total physical RAM in kilobytes from `sysctl -n hw.memsize` output (bytes):
/// the trimmed text as a number of bytes divided by 1024, or 0.
pub open spec fn total_mem_kb_of(out: Option<Seq<char>>) -> u64 {
    match out {
        None => 0,
        Some(t) => match parse_u64(trim(t)) {
            Some(bytes) => bytes / 1024,
            None => 0,
        },
    }
}

/// Total physical RAM in kilobytes from the output of `sysctl -n hw.memsize`.
pub fn total_mem_kb(memsize: Option<&str>) -> (r: u64)
    ensures
        r == total_mem_kb_of(
            match memsize {
                Some(t) => Some(t@),
                None => None,
            },
        ),
{
    match memsize {
        None => 0,
        Some(t) => {
            let cs = chars_of(t);
            let (a, b) = trim_in(&cs, 0, cs.len());
            assert(cs@.subrange(0, cs@.len() as int) =~= cs@);
            match parse_u64_in(&cs, a, b) {
                Some(bytes) => bytes / 1024,
                None => 0,
            }
        },
    }
}

/// Memory usage statistics on macOS, from the output of `sysctl -n hw.memsize`
/// (if it ran), `vm_stat`, and the swap totals read from `sysctl vm.swapusage`.
pub fn collect_mem_stats(
    memsize: Option<&str>,
    vm_stat: &str,
    swap_total_kb: u64,
    swap_free_kb: u64,
) -> (m: MemStats)
    ensures
        m == (MemStats {
            swap_total_kb,
            swap_free_kb,
            ..vm_stat_stats(
                lines(vm_stat@),
                total_mem_kb_of(
                    match memsize {
                        Some(t) => Some(t@),
                        None => None,
                    },
                ),
            )
        }),
{
    let total_kb = total_mem_kb(memsize);
    let mut stats = parse_vm_stat_output(vm_stat, total_kb);
    stats.swap_total_kb = swap_total_kb;
    stats.swap_free_kb = swap_free_kb;
    stats
}

/// `(swap_total_kb, swap_free_kb)` from the sizes read for `total` and `free`
/// (each `None` when missing or unreadable): no swap without a non-zero total,
/// and a free size of 0 when it could not be read.
pub fn swap_totals(total: Option<u64>, free: Option<u64>) -> (r: (u64, u64))
    ensures
        r == (match total {
            Some(t) if t > 0 => (
                t,
                match free {
                    Some(f) => f,
                    None => 0,
                },
            ),
            _ => (0u64, 0u64),
        }),
{
    let total_kb = match total {
        Some(t) => t,
        None => 0,
    };
    if total_kb == 0 {
        return (0, 0);
    }
    let free_kb = match free {
        Some(f) => f,
        None => 0,
    };
    (total_kb, free_kb)
}

/// The board identification from `sysctl -n hw.model` output: manufacturer
/// `Apple` and the trimmed model, or empty fields when there is no model.
pub open spec fn mobo_from_model_of(out: Option<Seq<char>>) -> MoboInfoView {
    match out {
        Some(m) => if trim(m).len() > 0 {
            MoboInfoView { manufacturer: "Apple"@, product: trim(m) }
        } else {
            empty_mobo()
        },
        None => empty_mobo(),
    }
}

/// The board identification from the output of `sysctl -n hw.model`.
pub fn mobo_from_model(model: Option<&str>) -> (info: MoboInfo)
    ensures
        info@ == mobo_from_model_of(
            match model {
                Some(t) => Some(t@),
                None => None,
            },
        ),
{
    match model {
        None => MoboInfo::default(),
        Some(t) => {
            let cs = chars_of(t);
            let (a, b) = trim_in(&cs, 0, cs.len());
            assert(cs@.subrange(0, cs@.len() as int) =~= cs@);
            if a == b {
                MoboInfo::default()
            } else {
                MoboInfo { manufacturer: string_lit("Apple"), product: string_of(&cs, a, b) }
            }
        },
    }
}

// ─── ps ───────────────────────────────────────────────────────────────────────

/// The process that one `ps axo pid=,rss=,comm=` line describes: the pid, the
/// RSS in kilobytes and the last path component of the command; `None` for a
/// malformed line, a zero RSS or an empty name.
pub open spec fn ps_entry(line: Seq<char>) -> Option<ProcessMemView> {
    let l = trim(line);
    let i = find_ws(l);
    if i < 0 {
        None
    } else {
        let rest = trim_start(l.skip(i + 1));
        let j = find_ws(rest);
        if j < 0 {
            None
        } else {
            match (parse_u32(l.take(i)), parse_u64(rest.take(j))) {
                (Some(pid), Some(rss_kb)) => {
                    let name = last_segment(trim(rest.skip(j + 1)), '/');
                    if rss_kb == 0 || name.len() == 0 {
                        None
                    } else {
                        Some(ProcessMemView { pid, name, rss_kb })
                    }
                },
                _ => None,
            }
        }
    }
}

/// The processes that the lines `ls` describe, in order.
pub open spec fn ps_entries(ls: Seq<Seq<char>>) -> Seq<ProcessMemView>
    decreases ls.len(),
{
    if ls.len() == 0 {
        seq![]
    } else {
        match ps_entry(ls.last()) {
            Some(p) => ps_entries(ls.drop_last()).push(p),
            None => ps_entries(ls.drop_last()),
        }
    }
}

/// One `ps` line on the span `[a, b)`.
fn ps_line(cs: &Vec<char>, a: usize, b: usize) -> (r: Option<ProcessMem>)
    requires
        a <= b <= cs.len(),
    ensures
        match (r, ps_entry(cs@.subrange(a as int, b as int))) {
            (Some(p), Some(v)) => p@ == v,
            (None, None) => true,
            _ => false,
        },
{
    let ghost line = cs@.subrange(a as int, b as int);
    let (x, y) = trim_in(cs, a, b);
    let ghost l = cs@.subrange(x as int, y as int);
    let i = match find_ws_in(cs, x, y) {
        None => return None,
        Some(i) => i,
    };
    proof {
        lemma_find_ws_bounds(l);
    }
    assert(l.skip(i - x + 1) =~= cs@.subrange(i + 1, y as int));
    assert(l.take(i - x) =~= cs@.subrange(x as int, i as int));
    let r0 = trim_start_in(cs, i + 1, y);
    let ghost rest = cs@.subrange(r0 as int, y as int);
    let j = match find_ws_in(cs, r0, y) {
        None => return None,
        Some(j) => j,
    };
    assert(rest.take(j - r0) =~= cs@.subrange(r0 as int, j as int));
    assert(rest.skip(j - r0 + 1) =~= cs@.subrange(j + 1, y as int));
    let pid = match parse_u32_in(cs, x, i) {
        None => return None,
        Some(p) => p,
    };
    let rss_kb = match parse_u64_in(cs, r0, j) {
        None => return None,
        Some(r) => r,
    };
    let (c0, c1) = trim_in(cs, j + 1, y);
    let n0 = match rfind_in(cs, c0, c1, '/') {
        Some(s) => {
            assert(cs@.subrange(c0 as int, c1 as int).skip(s - c0 + 1) =~= cs@.subrange(
                s + 1,
                c1 as int,
            ));
            s + 1
        },
        None => c0,
    };
    if rss_kb == 0 || n0 == c1 {
        return None;
    }
    Some(ProcessMem { pid, name: string_of(cs, n0, c1), rss_kb })
}

/// Parse `ps axo pid=,rss=,comm=` output into the top `n` processes by RSS.
///
/// Each line looks like `  512 123456 /usr/sbin/foo`; RSS is already in
/// kilobytes on macOS. The process name is the last path component of the
/// command (which may itself contain spaces). Processes with zero RSS are
/// dropped; the result is sorted by RSS descending and truncated to `n`.
pub fn parse_ps_output(text: &str, n: usize) -> (procs: Vec<ProcessMem>)
    ensures
        procs_view(procs@) == top_by_rss_of(ps_entries(lines(text@)), n as nat),
{
    let cs = chars_of(text);
    let spans = line_spans(&cs);
    let ghost ls = lines(cs@);
    let mut all: Vec<ProcessMem> = Vec::new();
    let mut k: usize = 0;
    assert(ls.take(0) =~= Seq::<Seq<char>>::empty());
    assert(procs_view(all@) =~= Seq::<ProcessMemView>::empty());
    while k < spans.len()
        invariant
            k <= spans.len() == ls.len(),
            ls == lines(cs@),
            forall|j: int|
                0 <= j < spans.len() ==> {
                    &&& (#[trigger] spans@[j]).0 <= spans@[j].1 <= cs.len()
                    &&& cs@.subrange(spans@[j].0 as int, spans@[j].1 as int) == ls[j]
                },
            procs_view(all@) == ps_entries(ls.take(k as int)),
        decreases spans.len() - k,
    {
        let (a, b) = spans[k];
        assert(ls.take(k + 1).drop_last() =~= ls.take(k as int));
        assert(ls.take(k + 1).last() == cs@.subrange(a as int, b as int));
        match ps_line(&cs, a, b) {
            Some(p) => {
                let ghost before = all@;
                all.push(p);
                assert(procs_view(all@) =~= procs_view(before).push(all@.last()@));
            },
            None => {},
        }
        k = k + 1;
    }
    assert(ls.take(ls.len() as int) =~= ls);
    top_by_rss(all, n)
}

// ─── system_profiler SPMemoryDataType ─────────────────────────────────────────

/// A `system_profiler` size like `16 GB` or `512 MB` in megabytes (saturating
/// at `u64::MAX`); 0 for anything else (such as `Empty`).
pub open spec fn profiler_size_mb(val: Seq<char>) -> u64 {
    if contains(val, "GB"@) {
        times_1024(first_u64_or_zero(val))
    } else if contains(val, "MB"@) {
        first_u64_or_zero(val)
    } else {
        0
    }
}

fn profiler_size_mb_exec(cs: &Vec<char>, a: usize, b: usize) -> (r: u64)
    requires
        a <= b <= cs.len(),
    ensures
        r == profiler_size_mb(cs@.subrange(a as int, b as int)),
{
    if span_contains(cs, a, b, "GB") {
        let n = first_u64_or_zero_in(cs, a, b);
        if n <= u64::MAX / 1024 {
            n * 1024
        } else {
            u64::MAX
        }
    } else if span_contains(cs, a, b, "MB") {
        first_u64_or_zero_in(cs, a, b)
    } else {
        0
    }
}

/// The bank count `n` as a `u32`, saturating at `u32::MAX`.
pub open spec fn bank_count(n: nat) -> u32 {
    if n > u32::MAX {
        u32::MAX
    } else {
        n as u32
    }
}

/// The reading state of `system_profiler SPMemoryDataType` output.
pub struct ProfilerState {
    pub slots: Seq<DimmSlotView>,
    pub current: Option<DimmSlotView>,
    pub banks: nat,
    pub soldered_size_mb: u64,
    pub soldered_type: Seq<char>,
    pub soldered_manufacturer: Seq<char>,
}

/// `slots` with `s` appended when its size is not zero.
pub open spec fn push_sized(slots: Seq<DimmSlotView>, s: Option<DimmSlotView>) -> Seq<
    DimmSlotView,
> {
    match s {
        Some(d) => if d.size_mb > 0 {
            slots.push(d)
        } else {
            slots
        },
        None => slots,
    }
}

/// Whether a trimmed line is a bank header such as `BANK 0/DIMM0:`.
pub open spec fn is_bank_header(l: Seq<char>) -> bool {
    starts_with(l, "BANK"@) && ends_with(l, ":"@)
}

/// A `Key: value` line inside a bank applied to the slot read so far.
pub open spec fn bank_field(slot: DimmSlotView, key: Seq<char>, val: Seq<char>) -> DimmSlotView {
    if key == "Size"@ {
        DimmSlotView { size_mb: profiler_size_mb(val), ..slot }
    } else if key == "Type"@ {
        DimmSlotView { mem_type: val, ..slot }
    } else if key == "Manufacturer"@ {
        DimmSlotView { manufacturer: val, ..slot }
    } else if key == "Part Number"@ {
        DimmSlotView { part_number: val, ..slot }
    } else if key == "Speed"@ {
        DimmSlotView { speed_mhz: first_u64_or_zero(val), ..slot }
    } else {
        slot
    }
}

/// One line of `system_profiler` output applied to the reading state.
pub open spec fn profiler_step(st: ProfilerState, raw: Seq<char>) -> ProfilerState {
    let l = trim(raw);
    if l.len() == 0 {
        st
    } else if is_bank_header(l) {
        ProfilerState {
            slots: push_sized(st.slots, st.current),
            current: Some(DimmSlotView { locator: trim_end_char(l, ':'), ..empty_dimm() }),
            banks: st.banks + 1,
            ..st
        }
    } else {
        match split_once(l, ':') {
            None => st,
            Some((k, v)) => {
                let key = trim(k);
                let val = trim(v);
                if val.len() == 0 {
                    st
                } else {
                    match st.current {
                        Some(slot) => ProfilerState {
                            current: Some(bank_field(slot, key, val)),
                            ..st
                        },
                        None => if key == "Memory"@ {
                            ProfilerState {
                                soldered_size_mb: profiler_size_mb(val),
                                ..st
                            }
                        } else if key == "Type"@ {
                            ProfilerState { soldered_type: val, ..st }
                        } else if key == "Manufacturer"@ {
                            ProfilerState { soldered_manufacturer: val, ..st }
                        } else {
                            st
                        },
                    }
                }
            },
        }
    }
}

/// The reading state after the lines `ls`.
pub open spec fn profiler_of(ls: Seq<Seq<char>>) -> ProfilerState
    decreases ls.len(),
{
    if ls.len() == 0 {
        ProfilerState {
            slots: seq![],
            current: None,
            banks: 0,
            soldered_size_mb: 0,
            soldered_type: seq![],
            soldered_manufacturer: seq![],
        }
    } else {
        profiler_step(profiler_of(ls.drop_last()), ls.last())
    }
}

/// The slots that `system_profiler` lines describe: one per bank with a
/// non-zero size, or, with no bank at all, one `Soldered` slot for a
/// non-zero top-level `Memory` size.
pub open spec fn profiler_slots(ls: Seq<Seq<char>>) -> Seq<DimmSlotView> {
    let st = profiler_of(ls);
    let banks = push_sized(st.slots, st.current);
    if st.banks == 0 && st.soldered_size_mb > 0 {
        banks.push(
            DimmSlotView {
                locator: "Soldered"@,
                size_mb: st.soldered_size_mb,
                mem_type: st.soldered_type,
                manufacturer: st.soldered_manufacturer,
                ..empty_dimm()
            },
        )
    } else {
        banks
    }
}

/// Parse `system_profiler SPMemoryDataType` text into DIMM slots and a
/// [`MemArrayInfo`]. Handles both output shapes:
///
/// - **Intel Macs** — indented `BANK 0/DIMM0:` blocks, each with `Size`,
///   `Type`, `Speed`, `Manufacturer` and `Part Number` fields. One
///   [`DimmSlot`] per populated bank; the locator is the bank header without
///   its trailing colon. `total_slots` counts all banks, including empty ones.
/// - **Apple Silicon** — a top-level `Memory: 16 GB`, `Type:` and
///   `Manufacturer:` lines describing soldered unified memory: a single
///   [`DimmSlot`] with locator `Soldered` and no slots counted.
///
/// Sizes saturate at `u64::MAX` megabytes and the bank count at `u32::MAX`.
/// `max_capacity_mb` is always 0 — `system_profiler` does not report it.
pub fn parse_system_profiler_memory(text: &str) -> (r: (Vec<DimmSlot>, MemArrayInfo))
    ensures
        dimms_view(r.0@) == profiler_slots(lines(text@)),
        r.1.total_slots == bank_count(profiler_of(lines(text@)).banks),
        r.1.max_capacity_mb == 0,
{
    let cs = chars_of(text);
    let spans = line_spans(&cs);
    let ghost ls = lines(cs@);
    let mut slots: Vec<DimmSlot> = Vec::new();
    let mut cur = DimmSlot::default();
    let mut has_cur = false;
    let mut banks: u32 = 0;
    let mut soldered_size_mb: u64 = 0;
    let mut soldered_type = String::new();
    let mut soldered_manufacturer = String::new();
    let mut k: usize = 0;
    assert(ls.take(0) =~= Seq::<Seq<char>>::empty());
    assert(dimms_view(slots@) =~= Seq::<DimmSlotView>::empty());
    while k < spans.len()
        invariant
            k <= spans.len() == ls.len(),
            ls == lines(cs@),
            forall|j: int|
                0 <= j < spans.len() ==> {
                    &&& (#[trigger] spans@[j]).0 <= spans@[j].1 <= cs.len()
                    &&& cs@.subrange(spans@[j].0 as int, spans@[j].1 as int) == ls[j]
                },
            cs@ == text@,
            dimms_view(slots@) == profiler_of(ls.take(k as int)).slots,
            has_cur <==> profiler_of(ls.take(k as int)).current is Some,
            has_cur ==> profiler_of(ls.take(k as int)).current == Some(cur@),
            banks == bank_count(profiler_of(ls.take(k as int)).banks),
            soldered_size_mb == profiler_of(ls.take(k as int)).soldered_size_mb,
            soldered_type@ == profiler_of(ls.take(k as int)).soldered_type,
            soldered_manufacturer@ == profiler_of(ls.take(k as int)).soldered_manufacturer,
        decreases spans.len() - k,
    {
        let (a, b) = spans[k];
        let ghost st = profiler_of(ls.take(k as int));
        assert(ls.take(k + 1).drop_last() =~= ls.take(k as int));
        assert(ls.take(k + 1).last() == cs@.subrange(a as int, b as int));
        let (x, y) = trim_in(&cs, a, b);
        if x == y {
        } else if span_starts_with(&cs, x, y, "BANK") && span_ends_with(&cs, x, y, ":") {
            if has_cur && cur.size_mb > 0 {
                let ghost before = slots@;
                slots.push(cur);
                assert(dimms_view(slots@) =~= dimms_view(before).push(st.current->0));
            }
            if banks < u32::MAX {
                banks = banks + 1;
            }
            let e = trim_end_char_in(&cs, x, y, ':');
            cur = DimmSlot::default();
            cur.locator = string_of(&cs, x, e);
            has_cur = true;
        } else {
            match split_once_in(&cs, x, y, ':') {
                None => {},
                Some(i) => {
                    let (k0, k1) = trim_in(&cs, x, i);
                    let (v0, v1) = trim_in(&cs, i + 1, y);
                    if v0 == v1 {
                    } else if has_cur {
                        if span_eq(&cs, k0, k1, "Size") {
                            cur.size_mb = profiler_size_mb_exec(&cs, v0, v1);
                        } else if span_eq(&cs, k0, k1, "Type") {
                            cur.mem_type = string_of(&cs, v0, v1);
                        } else if span_eq(&cs, k0, k1, "Manufacturer") {
                            cur.manufacturer = string_of(&cs, v0, v1);
                        } else if span_eq(&cs, k0, k1, "Part Number") {
                            cur.part_number = string_of(&cs, v0, v1);
                        } else if span_eq(&cs, k0, k1, "Speed") {
                            cur.speed_mhz = first_u64_or_zero_in(&cs, v0, v1);
                        }
                    } else {
                        if span_eq(&cs, k0, k1, "Memory") {
                            soldered_size_mb = profiler_size_mb_exec(&cs, v0, v1);
                        } else if span_eq(&cs, k0, k1, "Type") {
                            soldered_type = string_of(&cs, v0, v1);
                        } else if span_eq(&cs, k0, k1, "Manufacturer") {
                            soldered_manufacturer = string_of(&cs, v0, v1);
                        }
                    }
                },
            }
        }
        k = k + 1;
    }
    assert(ls.take(ls.len() as int) =~= ls);
    if has_cur && cur.size_mb > 0 {
        let ghost before = slots@;
        slots.push(cur);
        assert(dimms_view(slots@) =~= dimms_view(before).push(profiler_of(ls).current->0));
    }
    if banks == 0 && soldered_size_mb > 0 {
        let ghost before = slots@;
        let mut d = DimmSlot::default();
        d.locator = string_lit("Soldered");
        d.size_mb = soldered_size_mb;
        d.mem_type = soldered_type;
        d.manufacturer = soldered_manufacturer;
        slots.push(d);
        assert(dimms_view(slots@) =~= dimms_view(before).push(dimms_view(slots@).last()));
    }
    (slots, MemArrayInfo { total_slots: banks, max_capacity_mb: 0 })
}

/// Every process read from `ps` output has a resident set and a name.
pub proof fn lemma_ps_entries_resident(ls: Seq<Seq<char>>)
    ensures
        forall|k: int|
            0 <= k < ps_entries(ls).len() ==> (#[trigger] ps_entries(ls)[k]).rss_kb > 0
                && ps_entries(ls)[k].name.len() > 0,
    decreases ls.len(),
{
    if ls.len() > 0 {
        let prev = ps_entries(ls.drop_last());
        lemma_ps_entries_resident(ls.drop_last());
        assert forall|k: int| 0 <= k < ps_entries(ls).len() implies (#[trigger] ps_entries(ls)[k]).rss_kb
            > 0 && ps_entries(ls)[k].name.len() > 0 by {
            if k < prev.len() {
                assert(ps_entries(ls)[k] == prev[k]);
            }
        }
    }
}

proof fn lemma_profiler_done_sized(ls: Seq<Seq<char>>)
    ensures
        forall|k: int|
            0 <= k < profiler_of(ls).slots.len() ==> (#[trigger] profiler_of(ls).slots[k]).size_mb
                > 0,
    decreases ls.len(),
{
    if ls.len() > 0 {
        lemma_profiler_done_sized(ls.drop_last());
    }
}

/// Every module read from `system_profiler` output has a non-zero size:
/// empty banks are dropped, and a soldered module only appears with a size.
pub proof fn lemma_profiler_slots_sized(ls: Seq<Seq<char>>)
    ensures
        forall|k: int|
            0 <= k < profiler_slots(ls).len() ==> (#[trigger] profiler_slots(ls)[k]).size_mb > 0,
{
    lemma_profiler_done_sized(ls);
}

/// Number of lines of `ls` that are bank headers such as `BANK 0/DIMM0:`.
pub open spec fn bank_headers(ls: Seq<Seq<char>>) -> nat
    decreases ls.len(),
{
    if ls.len() == 0 {
        0
    } else {
        bank_headers(ls.drop_last()) + if is_bank_header(trim(ls.last())) {
            1nat
        } else {
            0nat
        }
    }
}

/// The number of banks that `system_profiler` output counts is the number of
/// its bank header lines, empty banks included.
pub proof fn lemma_profiler_counts_banks(ls: Seq<Seq<char>>)
    ensures
        profiler_of(ls).banks == bank_headers(ls),
    decreases ls.len(),
{
    reveal_strlit("BANK");
    if ls.len() > 0 {
        lemma_profiler_counts_banks(ls.drop_last());
    }
}

/// The value of a top-level `key: value` line (outside any bank): the trimmed
/// text after the colon when it is not empty; `None` for any other line.
pub open spec fn top_line_value(raw: Seq<char>, key: Seq<char>) -> Option<Seq<char>> {
    let l = trim(raw);
    if l.len() == 0 || is_bank_header(l) {
        None
    } else {
        match split_once(l, ':') {
            None => None,
            Some((k, v)) => if trim(v).len() > 0 && trim(k) == key {
                Some(trim(v))
            } else {
                None
            },
        }
    }
}

/// The value of the last top-level line of `ls` for `key`, if any.
pub open spec fn last_top_value(ls: Seq<Seq<char>>, key: Seq<char>) -> Option<Seq<char>>
    decreases ls.len(),
{
    if ls.len() == 0 {
        None
    } else {
        match top_line_value(ls.last(), key) {
            Some(v) => Some(v),
            None => last_top_value(ls.drop_last(), key),
        }
    }
}

/// The text of an optional value, or the empty text.
pub open spec fn or_empty(v: Option<Seq<char>>) -> Seq<char> {
    match v {
        Some(t) => t,
        None => seq![],
    }
}

/// The size in megabytes of an optional `system_profiler` size, or 0.
pub open spec fn size_or_zero(v: Option<Seq<char>>) -> u64 {
    match v {
        Some(t) => profiler_size_mb(t),
        None => 0,
    }
}

proof fn lemma_profiler_top_level(ls: Seq<Seq<char>>)
    requires
        bank_headers(ls) == 0,
    ensures
        profiler_of(ls) == (ProfilerState {
            slots: seq![],
            current: None,
            banks: 0,
            soldered_size_mb: size_or_zero(last_top_value(ls, "Memory"@)),
            soldered_type: or_empty(last_top_value(ls, "Type"@)),
            soldered_manufacturer: or_empty(last_top_value(ls, "Manufacturer"@)),
        }),
    decreases ls.len(),
{
    reveal_strlit("Memory");
    reveal_strlit("Type");
    reveal_strlit("Manufacturer");
    assert("Memory"@.len() == 6);
    assert("Type"@.len() == 4);
    assert("Manufacturer"@.len() == 12);
    if ls.len() > 0 {
        lemma_profiler_top_level(ls.drop_last());
    }
}

/// Apple Silicon shape: without any bank header, `system_profiler` output
/// counts no slots and gives at most one slot, `Soldered`, exactly when the
/// last top-level `Memory` line has a size of more than 0 MB; its size is
/// that one and its type and manufacturer those of the last top-level `Type`
/// and `Manufacturer` lines.
pub proof fn lemma_profiler_without_banks(ls: Seq<Seq<char>>)
    requires
        bank_headers(ls) == 0,
    ensures
        profiler_of(ls).banks == 0,
        profiler_slots(ls) == (if size_or_zero(last_top_value(ls, "Memory"@)) > 0 {
            seq![
                DimmSlotView {
                    locator: "Soldered"@,
                    size_mb: size_or_zero(last_top_value(ls, "Memory"@)),
                    mem_type: or_empty(last_top_value(ls, "Type"@)),
                    manufacturer: or_empty(last_top_value(ls, "Manufacturer"@)),
                    ..empty_dimm()
                },
            ]
        } else {
            seq![]
        }),
{
    lemma_profiler_top_level(ls);
    let st = profiler_of(ls);
    assert(push_sized(st.slots, st.current) =~= Seq::<DimmSlotView>::empty());
    if st.soldered_size_mb > 0 {
        assert(Seq::<DimmSlotView>::empty().push(
            DimmSlotView {
                locator: "Soldered"@,
                size_mb: st.soldered_size_mb,
                mem_type: st.soldered_type,
                manufacturer: st.soldered_manufacturer,
                ..empty_dimm()
            },
        ) =~= seq![
            DimmSlotView {
                locator: "Soldered"@,
                size_mb: st.soldered_size_mb,
                mem_type: st.soldered_type,
                manufacturer: st.soldered_manufacturer,
                ..empty_dimm()
            },
        ]);
    }
}

/// The banks of `system_profiler` lines: for each bank header line, in order,
/// its name (the trimmed line without its trailing colon) and the lines after
/// it up to the next bank header.
pub open spec fn banks_of(ls: Seq<Seq<char>>) -> Seq<(Seq<char>, Seq<Seq<char>>)>
    decreases ls.len(),
{
    if ls.len() == 0 {
        seq![]
    } else {
        let bs = banks_of(ls.drop_last());
        let l = trim(ls.last());
        if l.len() > 0 && is_bank_header(l) {
            bs.push((trim_end_char(l, ':'), seq![]))
        } else if bs.len() == 0 {
            bs
        } else {
            bs.update(bs.len() - 1, (bs.last().0, bs.last().1.push(ls.last())))
        }
    }
}

/// One line inside a bank applied to the bank's slot: a `Key: value` line
/// with a non-empty value sets its field; other lines change nothing.
pub open spec fn bank_line(slot: DimmSlotView, raw: Seq<char>) -> DimmSlotView {
    let l = trim(raw);
    if l.len() == 0 {
        slot
    } else {
        match split_once(l, ':') {
            None => slot,
            Some((k, v)) => if trim(v).len() == 0 {
                slot
            } else {
                bank_field(slot, trim(k), trim(v))
            },
        }
    }
}

/// The slot of the bank named `name` with the lines `body`.
pub open spec fn bank_slot_of(name: Seq<char>, body: Seq<Seq<char>>) -> DimmSlotView
    decreases body.len(),
{
    if body.len() == 0 {
        DimmSlotView { locator: name, ..empty_dimm() }
    } else {
        bank_line(bank_slot_of(name, body.drop_last()), body.last())
    }
}

/// The slots of the banks `bs` whose size is not zero, in bank order.
pub open spec fn sized_banks(bs: Seq<(Seq<char>, Seq<Seq<char>>)>) -> Seq<DimmSlotView>
    decreases bs.len(),
{
    if bs.len() == 0 {
        seq![]
    } else {
        let d = bank_slot_of(bs.last().0, bs.last().1);
        if d.size_mb > 0 {
            sized_banks(bs.drop_last()).push(d)
        } else {
            sized_banks(bs.drop_last())
        }
    }
}

proof fn lemma_profiler_by_bank(ls: Seq<Seq<char>>)
    ensures
        banks_of(ls).len() == profiler_of(ls).banks,
        banks_of(ls).len() == 0 ==> profiler_of(ls).slots.len() == 0 && profiler_of(
            ls,
        ).current is None,
        banks_of(ls).len() > 0 ==> profiler_of(ls).slots == sized_banks(banks_of(ls).drop_last())
            && profiler_of(ls).current == Some(
            bank_slot_of(banks_of(ls).last().0, banks_of(ls).last().1),
        ),
    decreases ls.len(),
{
    if ls.len() > 0 {
        let p = ls.drop_last();
        let x = ls.last();
        lemma_profiler_by_bank(p);
        let bs = banks_of(p);
        let l = trim(x);
        if l.len() > 0 && is_bank_header(l) {
            let nb = bs.push((trim_end_char(l, ':'), seq![]));
            assert(nb.drop_last() =~= bs);
            if bs.len() > 0 {
                assert(bs.drop_last().push(bs.last()) =~= bs);
            } else {
                assert(bs =~= Seq::<(Seq<char>, Seq<Seq<char>>)>::empty());
            }
        } else if bs.len() > 0 {
            let body = bs.last().1;
            let nb = bs.update(bs.len() - 1, (bs.last().0, body.push(x)));
            assert(nb.drop_last() =~= bs.drop_last());
            assert(body.push(x).drop_last() =~= body);
        }
    }
}

/// Number of bank header lines: the banks that [`banks_of`] gives.
proof fn lemma_banks_of_count(ls: Seq<Seq<char>>)
    ensures
        banks_of(ls).len() == bank_headers(ls),
{
    lemma_profiler_by_bank(ls);
    lemma_profiler_counts_banks(ls);
}

proof fn lemma_bank_slot_locator(name: Seq<char>, body: Seq<Seq<char>>)
    ensures
        bank_slot_of(name, body).locator == name,
    decreases body.len(),
{
    if body.len() > 0 {
        lemma_bank_slot_locator(name, body.drop_last());
    }
}

/// Intel shape: with bank headers, `system_profiler` output gives, in input
/// order, the slot of each bank whose size is more than 0 MB and no other
/// (no `Soldered` slot); each slot is named after its bank header, and the
/// banks are exactly the bank header lines.
pub proof fn lemma_profiler_bank_slots(ls: Seq<Seq<char>>)
    requires
        bank_headers(ls) > 0,
    ensures
        banks_of(ls).len() == bank_headers(ls),
        profiler_slots(ls) == sized_banks(banks_of(ls)),
        forall|j: int|
            0 <= j < banks_of(ls).len() ==> (#[trigger] bank_slot_of(
                banks_of(ls)[j].0,
                banks_of(ls)[j].1,
            )).locator == banks_of(ls)[j].0,
{
    lemma_profiler_by_bank(ls);
    lemma_banks_of_count(ls);
    let bs = banks_of(ls);
    let st = profiler_of(ls);
    assert(bs.drop_last().push(bs.last()) =~= bs);
    assert(sized_banks(bs) == push_sized(st.slots, st.current));
    assert forall|j: int| 0 <= j < bs.len() implies (#[trigger] bank_slot_of(bs[j].0, bs[j].1)).locator
        == bs[j].0 by {
        lemma_bank_slot_locator(bs[j].0, bs[j].1);
    }
}

} // verus!
