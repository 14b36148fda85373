use raminfo::parsers::macos::swap_totals;
use raminfo::parsers::linux::{
    hwmon_device_name, is_ram_device, parse_dmidecode_array_output,
    parse_dmidecode_output, parse_proc_status, parse_vcgencmd_freq,
    parse_vcgencmd_voltage, pi_board_info, temp_input_prefix, temp_reading, top_from_statuses,
};
use raminfo::parsers::macos::{
    collect_mem_stats as macos_collect_mem_stats, mobo_from_model,
    parse_system_profiler_memory, parse_vm_stat_output, swap_field_token,
    total_mem_kb,
};
use raminfo::parsers::top::top_by_rss;
use raminfo::parsers::windows::{
    collect_mem_stats as windows_collect_mem_stats, parse_pagefile,
};
use raminfo::types::ProcessMem;

// ─── /proc/<pid>/status ──────────────────────────────────────────────────────

const STATUS_FIREFOX: &str = "\
Name:\tfirefox
Umask:\t0022
State:\tS (sleeping)
VmPeak:\t 4000000 kB
VmRSS:\t  812345 kB
Threads:\t88
";

#[test]
fn proc_status_reads_name_and_rss() {
    let p = parse_proc_status("4242", STATUS_FIREFOX).unwrap();
    assert_eq!(p.pid, 4242);
    assert_eq!(p.name, "firefox");
    assert_eq!(p.rss_kb, 812345);
}

#[test]
fn proc_status_skips_non_pids_and_kernel_threads() {
    assert!(parse_proc_status("self", STATUS_FIREFOX).is_none());
    assert!(parse_proc_status("99999999999", STATUS_FIREFOX).is_none());
    // Kernel threads have no VmRSS line.
    assert!(parse_proc_status("2", "Name:\tkthreadd\nState:\tS\n").is_none());
    assert!(parse_proc_status("7", "Name:\tx\nVmRSS:\t0 kB\n").is_none());
}

#[test]
fn top_from_statuses_ranks_by_rss() {
    let entries = vec![
        ("1".to_string(), "Name:\tinit\nVmRSS:\t1000 kB\n".to_string()),
        ("net".to_string(), "Name:\tnot-a-pid\nVmRSS:\t9999999 kB\n".to_string()),
        ("20".to_string(), "Name:\tbig\nVmRSS:\t50000 kB\n".to_string()),
        ("30".to_string(), "Name:\tmid\nVmRSS:\t20000 kB\n".to_string()),
        ("31".to_string(), "Name:\tmid2\nVmRSS:\t20000 kB\n".to_string()),
    ];
    let top = top_from_statuses(&entries, 3);
    let names: Vec<&str> = top.iter().map(|p| p.name.as_str()).collect();
    assert_eq!(names, vec!["big", "mid", "mid2"]); // ties keep their order
    assert_eq!(top_from_statuses(&entries, usize::MAX).len(), 4);
    assert!(top_from_statuses(&entries, 0).is_empty());
}

#[test]
fn top_by_rss_is_sorted_and_stable() {
    let procs = vec![
        ProcessMem { pid: 1, name: "a".into(), rss_kb: 5 },
        ProcessMem { pid: 2, name: "b".into(), rss_kb: 9 },
        ProcessMem { pid: 3, name: "c".into(), rss_kb: 5 },
        ProcessMem { pid: 4, name: "d".into(), rss_kb: 7 },
    ];
    let out = top_by_rss(procs, 10);
    let pids: Vec<u32> = out.iter().map(|p| p.pid).collect();
    assert_eq!(pids, vec![2, 4, 1, 3]);
}

// ─── hwmon ───────────────────────────────────────────────────────────────────

#[test]
fn hwmon_device_names() {
    assert_eq!(hwmon_device_name("  SPD5118\n"), "spd5118");
    assert!(is_ram_device("spd5118"));
    assert!(is_ram_device("dimmtemp"));
    assert!(is_ram_device("jc42-mem"));
    assert!(!is_ram_device("coretemp"));
    assert!(!is_ram_device(""));
}

#[test]
fn temp_input_prefixes() {
    assert_eq!(temp_input_prefix("temp1_input").as_deref(), Some("temp1"));
    assert_eq!(temp_input_prefix("temp2_input_input").as_deref(), Some("temp2"));
    assert_eq!(temp_input_prefix("temp1_label"), None);
    assert_eq!(temp_input_prefix("fan1_input"), None);
}

#[test]
fn temp_readings() {
    let r = temp_reading("spd5118", "temp1", Some(" DIMM A1 \n"), Some("45250\n")).unwrap();
    assert_eq!(r.label, "DIMM A1");
    assert_eq!(r.milli_celsius, 45250);
    let r = temp_reading("spd5118", "temp1", None, Some("+39000")).unwrap();
    assert_eq!(r.label, "spd5118 1");
    assert_eq!(r.milli_celsius, 39000);
    assert!(temp_reading("spd5118", "temp1", None, Some("0")).is_none());
    assert!(temp_reading("spd5118", "temp1", None, Some("-5000")).is_none());
    assert!(temp_reading("spd5118", "temp1", None, Some("hot")).is_none());
    assert!(temp_reading("spd5118", "temp1", None, None).is_none());
    assert!(temp_reading("spd5118", "temp1", None, Some("9223372036854775808")).is_none());
    let r = temp_reading("x", "temptemp3", None, Some("9223372036854775807")).unwrap();
    assert_eq!(r.label, "x 3");
    assert_eq!(r.milli_celsius, i64::MAX);
}

// ─── Raspberry Pi ────────────────────────────────────────────────────────────

#[test]
fn vcgencmd_outputs() {
    assert_eq!(parse_vcgencmd_freq("frequency(0)=1066000000\n"), Some(1066 * 8));
    assert_eq!(parse_vcgencmd_freq("frequency(0)=0"), None);
    assert_eq!(parse_vcgencmd_freq("garbage"), None);
    assert_eq!(parse_vcgencmd_voltage("volt=1.1000V\n").as_deref(), Some("1.1000V"));
    assert_eq!(parse_vcgencmd_voltage("volt=  "), None);
}

#[test]
fn pi_board_combines_cpuinfo_and_vcgencmd() {
    let cpuinfo = "processor\t: 0\nModel\t\t: Raspberry Pi 5 Model B Rev 1.0\n";
    let pi = pi_board_info(cpuinfo, Some("frequency(0)=533000000"), Some("volt=0.6000V")).unwrap();
    assert_eq!(pi.model, "Raspberry Pi 5 Model B Rev 1.0");
    assert_eq!(pi.mem_type, "LPDDR4X");
    assert_eq!(pi.freq_mhz, Some(533 * 8));
    assert_eq!(pi.voltage.as_deref(), Some("0.6000V"));
    let pi = pi_board_info(cpuinfo, None, None).unwrap();
    assert_eq!(pi.freq_mhz, None);
    assert_eq!(pi.voltage, None);
    assert!(pi_board_info("Model : Some PC\n", Some("frequency(0)=1"), None).is_none());
}

// ─── Overflowing sizes and sums ──────────────────────────────────────────────

#[test]
fn overflowing_inputs_saturate() {
    let slots = parse_dmidecode_output("Memory Device\n\tSize: 18446744073709551615 GB\n\tLocator: A\n");
    assert_eq!(slots.len(), 1);
    assert_eq!(slots[0].size_mb, u64::MAX);
    assert_eq!(slots[0].locator, "A");
    assert_eq!(
        parse_dmidecode_output("Memory Device\n\tSize: 18014398509481984 GB\n")[0].size_mb,
        u64::MAX
    );
    assert_eq!(
        parse_dmidecode_output("Memory Device\n\tSize: 18014398509481983 GB\n")[0].size_mb,
        18014398509481983 * 1024
    );
    assert_eq!(
        parse_dmidecode_array_output("\tMaximum Capacity: 18446744073709551615 TB\n").max_capacity_mb,
        u64::MAX
    );
    assert_eq!(
        parse_dmidecode_array_output("\tMaximum Capacity: 17592186044416 TB\n").max_capacity_mb,
        u64::MAX
    );
    assert_eq!(
        parse_dmidecode_array_output("\tMaximum Capacity: 17592186044415 TB\n").max_capacity_mb,
        17592186044415 * 1048576
    );
    let m = parse_vm_stat_output("Pages free: 18446744073709551615.\nPages inactive: 1.\n", 0);
    assert_eq!(m.free_kb, u64::MAX / 1024);
    assert_eq!(m.available_kb, u64::MAX / 1024);
    let m = parse_vm_stat_output("Pages free: 4.\nPages inactive: 2.\nPages speculative: 2.\n", 0);
    assert_eq!(m.available_kb, 32);
    let (slots, array) = parse_system_profiler_memory("BANK 0/DIMM0:\n  Size: 18446744073709551615 GB\n");
    assert_eq!(slots.len(), 1);
    assert_eq!(slots[0].size_mb, u64::MAX);
    assert_eq!(array.total_slots, 1);
    assert_eq!(parse_pagefile("AllocatedBaseSize=18446744073709551615\n"), (u64::MAX, u64::MAX));
    assert_eq!(
        parse_pagefile("AllocatedBaseSize=18446744073709551615\n---\nAllocatedBaseSize=5\nCurrentUsage=1\n"),
        (u64::MAX, u64::MAX)
    );
    assert_eq!(
        parse_pagefile("AllocatedBaseSize=100\nCurrentUsage=18446744073709551615\n---\nCurrentUsage=1\n"),
        (102400, 0)
    );
    assert_eq!(parse_pagefile("AllocatedBaseSize=100\nCurrentUsage=300\n"), (102400, 0));
    assert_eq!(parse_pagefile("AllocatedBaseSize=100\nCurrentUsage=30\n"), (102400, 71680));
}

// ─── macOS ───────────────────────────────────────────────────────────────────

#[test]
fn swap_tokens() {
    let text = "vm.swapusage: total = 2048.00M  used = 1234.56M  free = 813.44M  (encrypted)";
    assert_eq!(swap_field_token(text, "total").as_deref(), Some("2048.00M"));
    assert_eq!(swap_field_token(text, "free").as_deref(), Some("813.44M"));
    assert_eq!(swap_field_token(text, "missing"), None);
    assert_eq!(swap_field_token("total =", "total"), None);
    assert_eq!(swap_field_token("total x total = 5K", "total").as_deref(), Some("5K"));
}

#[test]
fn macos_memory_stats() {
    assert_eq!(total_mem_kb(Some("17179869184\n")), 16777216);
    assert_eq!(total_mem_kb(Some("n/a")), 0);
    assert_eq!(total_mem_kb(None), 0);
    let m = macos_collect_mem_stats(Some("8589934592"), "Pages free: 10.\n", 2048, 1024);
    assert_eq!(m.total_kb, 8388608);
    assert_eq!(m.free_kb, 40);
    assert_eq!(m.swap_total_kb, 2048);
    assert_eq!(m.swap_free_kb, 1024);
    let b = mobo_from_model(Some("MacBookPro18,3\n"));
    assert_eq!(b.manufacturer, "Apple");
    assert_eq!(b.product, "MacBookPro18,3");
    assert!(mobo_from_model(Some("  ")).manufacturer.is_empty());
}

// ─── Windows ─────────────────────────────────────────────────────────────────

#[test]
fn windows_memory_stats() {
    let os = "TotalVisibleMemorySize=16000000\nFreePhysicalMemory=4000000\n";
    let pf = "AllocatedBaseSize=2048\nCurrentUsage=512\n---\n";
    let m = windows_collect_mem_stats(Some(os), Some(pf));
    assert_eq!(m.total_kb, 16000000);
    assert_eq!(m.free_kb, 4000000);
    assert_eq!(m.available_kb, 4000000);
    assert_eq!(m.swap_total_kb, 2048 * 1024);
    assert_eq!(m.swap_free_kb, 1536 * 1024);
    let m = windows_collect_mem_stats(None, None);
    assert_eq!(m.total_kb, 0);
    assert_eq!(m.swap_total_kb, 0);
}

// ─── Laws on concrete values ─────────────────────────────────────────────────

#[test]
fn meminfo_unknown_line_changes_nothing() {
    let c = "MemTotal: 1000 kB\nMemFree: 200 kB\n";
    let with = format!("{c}HugePages_Total: 7\n");
    let a = raminfo::parsers::linux::parse_meminfo_content(c);
    let b = raminfo::parsers::linux::parse_meminfo_content(&with);
    assert_eq!((a.total_kb, a.free_kb, a.available_kb), (b.total_kb, b.free_kb, b.available_kb));
    let b = raminfo::parsers::linux::parse_meminfo_content(&format!("{c}no colon here\r\n"));
    assert_eq!((a.total_kb, a.free_kb), (b.total_kb, b.free_kb));
}

#[test]
fn vm_stat_last_lines_win() {
    let text = "Mach Virtual Memory Statistics: (page size of 16384 bytes)\n\
Pages free: 10.\nPages free: 2.\nPages inactive: 1.\nPages speculative: 1.\n\
Mach Virtual Memory Statistics: (page size of 0 bytes)\nFile-backed pages: 3.\n";
    let m = parse_vm_stat_output(text, 9);
    assert_eq!(m.total_kb, 9);
    assert_eq!(m.free_kb, 32);
    assert_eq!(m.available_kb, 64);
    assert_eq!(m.cached_kb, 48);
}

#[test]
fn profiler_shapes() {
    let apple = "Memory:\n  Memory: 8 GB\n  Type: LPDDR4\n  Memory: 16 GB\n  Manufacturer: Micron\n";
    let (slots, array) = parse_system_profiler_memory(apple);
    assert_eq!(slots.len(), 1);
    assert_eq!(slots[0].locator, "Soldered");
    assert_eq!(slots[0].size_mb, 16384);
    assert_eq!(slots[0].mem_type, "LPDDR4");
    assert_eq!(slots[0].manufacturer, "Micron");
    assert_eq!((array.total_slots, array.max_capacity_mb), (0, 0));
    let intel = "Memory Slots:\n  BANK 0/DIMM0:\n    Size: 8 GB\n  BANK 1/DIMM0:\n    Size: Empty\n  BANK 2/DIMM0:\n    Size: 512 MB\n";
    let (slots, array) = parse_system_profiler_memory(intel);
    let names: Vec<&str> = slots.iter().map(|s| s.locator.as_str()).collect();
    assert_eq!(names, vec!["BANK 0/DIMM0", "BANK 2/DIMM0"]);
    assert_eq!(array.total_slots, 3);
}

#[test]
fn dmidecode_lines_before_a_device_are_ignored() {
    let text = "Size: 8 GB\nLocator: X\nMemory Device\n\tSize: 4 GB\n\tLocator: A\nMemory Device Mapped Address\n\tSize: 2 GB\n";
    let slots = parse_dmidecode_output(text);
    assert_eq!(slots.len(), 1);
    assert_eq!(slots[0].locator, "A");
    assert_eq!(slots[0].size_mb, 2048);
}

#[test]
fn swap_totals_need_a_total() {
    assert_eq!(swap_totals(Some(2097152), Some(832962)), (2097152, 832962));
    assert_eq!(swap_totals(Some(512), None), (512, 0));
    assert_eq!(swap_totals(Some(0), Some(5)), (0, 0));
    assert_eq!(swap_totals(None, Some(5)), (0, 0));
}
