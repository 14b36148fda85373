use raminfo::report::{
    blank_dash, board_text, count_or_dash, ellipsize, headroom_mb, installed_mb, mem_used_kb, swap_used_kb,
    max_speed_mhz, mem_row_mb, modules_text, part_text, pi_rate_text, share_percent, slot_use,
    trimmed_dash, MemRow, SlotUse,
};
use raminfo::types::{DimmSlot, MemArrayInfo, MemStats, PiBoardInfo};

fn dimm(size_mb: u64, speed_mhz: u64) -> DimmSlot {
    DimmSlot { size_mb, speed_mhz, ..Default::default() }
}

#[test]
fn memory_row_uses_free_m_semantics() {
    let m = MemStats {
        total_kb: 32_845_696,
        free_kb: 3_012_345,
        available_kb: 13_631_488,
        buffers_kb: 512_000,
        cached_kb: 8_000_000,
        swap_total_kb: 0,
        swap_free_kb: 0,
    };
    assert_eq!(
        mem_row_mb(&m),
        MemRow { total: 32075, used: 20821, free: 2941, buff_cache: 8312, available: 13312 }
    );
    let odd = MemStats { total_kb: 100, free_kb: 200, buffers_kb: u64::MAX, cached_kb: 5, ..Default::default() };
    assert_eq!(mem_row_mb(&odd).used, 0);
    assert_eq!(mem_row_mb(&odd).buff_cache, u64::MAX / 1024);
}

#[test]
fn shares_and_slots() {
    assert_eq!(share_percent(2_500_000, 32_845_696), 7);
    assert_eq!(share_percent(5, 0), 0);
    assert_eq!(slot_use(2, &MemArrayInfo { total_slots: 4, max_capacity_mb: 0 }), SlotUse { used: 2, free: 2 });
    assert_eq!(slot_use(6, &MemArrayInfo { total_slots: 4, max_capacity_mb: 0 }), SlotUse { used: 6, free: 0 });
}

#[test]
fn installed_capacity() {
    let dimms = vec![dimm(16384, 3200), dimm(8192, 4800), dimm(0, 0)];
    assert_eq!(installed_mb(&dimms), 24576);
    assert_eq!(max_speed_mhz(&dimms), 4800);
    let huge = vec![dimm(u64::MAX, 1), dimm(1, 2)];
    assert_eq!(installed_mb(&huge), u64::MAX);
    assert_eq!(max_speed_mhz(&Vec::new()), 0);
    assert_eq!(modules_text(&vec![dimm(16384, 0), dimm(16384, 0)]), "2 × 16 GB");
    assert_eq!(modules_text(&vec![dimm(512, 0)]), "1 × 512 MB");
}

#[test]
fn field_texts() {
    assert_eq!(blank_dash(""), "—");
    assert_eq!(blank_dash("Unknown"), "—");
    assert_eq!(blank_dash(" Samsung "), " Samsung ");
    assert_eq!(trimmed_dash("  "), "—");
    assert_eq!(trimmed_dash(" Unknown "), "—");
    assert_eq!(trimmed_dash(" 1.2 V "), "1.2 V");
    assert_eq!(part_text("M471A2K43DB1-CWE   "), "M471A2K43DB1-CWE");
    assert_eq!(part_text("Unknown"), "—");
    assert_eq!(count_or_dash(3200), "3200");
    assert_eq!(count_or_dash(0), "—");
}

#[test]
fn ellipsis() {
    assert_eq!(ellipsize("chrome", 20), "chrome");
    assert_eq!(ellipsize("a-very-long-process-name-indeed", 20), "a-very-long-process…");
    assert_eq!(ellipsize("abc", 3), "abc");
    assert_eq!(ellipsize("abcd", 3), "ab…");
    assert_eq!(ellipsize("abcd", 0), "…");
}

#[test]
fn board_and_pi_texts() {
    assert_eq!(board_text(" Gigabyte ", "Z390-AORUS"), "Gigabyte Z390-AORUS");
    assert_eq!(board_text("", " Z390 "), "Z390");
    assert_eq!(board_text("ASUS", ""), "ASUS");
    assert_eq!(board_text(" ", ""), "—");
    let pi = |model: &str, freq: Option<u64>| PiBoardInfo {
        model: model.to_string(),
        mem_type: "LPDDR4X".to_string(),
        freq_mhz: freq,
        voltage: None,
    };
    assert_eq!(pi_rate_text(&pi("Raspberry Pi 5 Model B", Some(4264))), "4264 MT/s");
    assert_eq!(pi_rate_text(&pi("Raspberry Pi 5 Model B", None)), "4267 MT/s (default)");
    assert_eq!(pi_rate_text(&pi("Raspberry Pi 4 Model B", Some(0))), "3200 MT/s (default)");
    assert_eq!(pi_rate_text(&pi("Raspberry Pi 3 Model B", None)), "—");
}

#[test]
fn used_figures_and_headroom() {
    let m = MemStats { total_kb: 1000, available_kb: 400, swap_total_kb: 100, swap_free_kb: 40, ..Default::default() };
    assert_eq!(mem_used_kb(&m), 600);
    assert_eq!(swap_used_kb(&m), 60);
    let odd = MemStats { total_kb: 10, available_kb: 400, swap_total_kb: 1, swap_free_kb: 40, ..Default::default() };
    assert_eq!(mem_used_kb(&odd), 0);
    assert_eq!(swap_used_kb(&odd), 0);
    let dimms = vec![dimm(16384, 3200), dimm(8192, 4800)];
    assert_eq!(headroom_mb(&dimms, &MemArrayInfo { total_slots: 4, max_capacity_mb: 65536 }), 40960);
    assert_eq!(headroom_mb(&dimms, &MemArrayInfo { total_slots: 4, max_capacity_mb: 16384 }), 0);
    assert_eq!(headroom_mb(&vec![dimm(u64::MAX, 1), dimm(1, 1)], &MemArrayInfo { total_slots: 2, max_capacity_mb: u64::MAX }), 0);
    assert_eq!(share_percent(u64::MAX, 0), 0);
}
