use raminfo::tui::app::{
    key_action, Action, App, Key, KeyCode, Tab, MAX_INTERVAL_SECS, MIN_INTERVAL_SECS, TAB_COUNT,
};
use raminfo::tui::groups::group_by_name;
use raminfo::types::{MemStats, ProcessMem, Snapshot, TempReading};

fn key(code: KeyCode) -> Key {
    Key { code, control: false }
}

fn snapshot_with_procs(n: usize) -> Snapshot {
    Snapshot {
        mem: MemStats {
            total_kb: 1000,
            available_kb: 400,
            swap_total_kb: 100,
            swap_free_kb: 40,
            ..Default::default()
        },
        top_consumers: (0..n)
            .map(|i| ProcessMem { pid: i as u32, name: format!("p{i}"), rss_kb: 10 })
            .collect(),
        ..Default::default()
    }
}

#[test]
fn default_app_has_safe_samples() {
    let app = App::default();
    assert_eq!(app.used_history.last(), Some(0));
    assert_eq!(app.max_temp_milli(), None);
    assert!(app.temp_history.is_empty());
}

#[test]
fn derived_usage_values() {
    let app = App::new(snapshot_with_procs(3), 2);
    assert_eq!(app.used_kb(), 600);
    assert_eq!(app.swap_used_kb(), 60);
    assert_eq!(app.used_history.last(), Some(60));
}

#[test]
fn tab_keys_select_and_cycle() {
    let mut app = App::default();
    app.on_key(key(KeyCode::Char('3')));
    assert_eq!(app.tab, Tab::Processes);
    app.on_key(key(KeyCode::Tab));
    assert_eq!(app.tab, Tab::Temps);
    app.on_key(key(KeyCode::Right));
    assert_eq!(app.tab, Tab::Overview); // wraps
    app.on_key(key(KeyCode::BackTab));
    assert_eq!(app.tab, Tab::Temps); // wraps back
    app.on_key(key(KeyCode::Left));
    assert_eq!(app.tab, Tab::Processes);
    app.on_key(key(KeyCode::Char('1')));
    assert_eq!(app.tab, Tab::Overview);
}

#[test]
fn quit_keys() {
    for code in [KeyCode::Char('q'), KeyCode::Esc] {
        let mut app = App::default();
        app.on_key(key(code));
        assert!(app.quit, "{code:?} should quit");
    }
    let mut app = App::default();
    app.on_key(Key { code: KeyCode::Char('c'), control: true });
    assert!(app.quit, "Ctrl+C should quit");
    // A plain 'c' must not quit.
    let mut app = App::default();
    app.on_key(key(KeyCode::Char('c')));
    assert!(!app.quit);
}

#[test]
fn help_toggle_and_refresh() {
    let mut app = App::default();
    app.on_key(key(KeyCode::Char('?')));
    assert!(app.show_help);
    app.on_key(key(KeyCode::Char('?')));
    assert!(!app.show_help);

    assert!(!app.force_refresh);
    app.on_key(key(KeyCode::Char('r')));
    assert!(app.force_refresh);
}

#[test]
fn interval_keys_clamp() {
    let mut app = App::new(Snapshot::default(), 1);
    app.on_key(key(KeyCode::Char('-')));
    assert_eq!(app.interval_secs(), MIN_INTERVAL_SECS);
    app.on_key(key(KeyCode::Char('+')));
    assert_eq!(app.interval_secs(), 2);
    app.on_key(key(KeyCode::Char('=')));
    assert_eq!(app.interval_secs(), 3);
    for _ in 0..100 {
        app.slower();
    }
    assert_eq!(app.interval_secs(), MAX_INTERVAL_SECS);
}

#[test]
fn explicit_interval_above_the_maximum_is_honoured() {
    let mut app = App::new(Snapshot::default(), 300);
    assert_eq!(app.interval_secs(), 300);
    // `+` can never make the refresh *faster*.
    app.on_key(key(KeyCode::Char('+')));
    assert_eq!(app.interval_secs(), 300);
    // `-` pulls an out-of-range value back into the adjustable window.
    app.on_key(key(KeyCode::Char('-')));
    assert_eq!(app.interval_secs(), MAX_INTERVAL_SECS);
    app.on_key(key(KeyCode::Char('-')));
    assert_eq!(app.interval_secs(), MAX_INTERVAL_SECS - 1);
}

#[test]
fn sub_second_interval_is_floored() {
    // A one-millisecond interval has zero whole seconds.
    let app = App::new(Snapshot::default(), 0);
    assert_eq!(app.interval_secs(), MIN_INTERVAL_SECS);
}

#[test]
fn startup_without_processes_has_no_selection() {
    let app = App::new(Snapshot::default(), 2);
    assert_eq!(app.selected, None);
    let app = App::new(snapshot_with_procs(3), 2);
    assert_eq!(app.selected, Some(0));
}

#[test]
fn scrolling_stays_in_range() {
    let mut app = App::new(snapshot_with_procs(4), 2);
    assert_eq!(app.selected, Some(0));
    app.on_key(key(KeyCode::End));
    assert_eq!(app.selected, Some(3));
    app.on_key(key(KeyCode::Down));
    assert_eq!(app.selected, Some(3), "must not run past the end");
    app.on_key(key(KeyCode::Home));
    assert_eq!(app.selected, Some(0));
    app.on_key(key(KeyCode::Up));
    assert_eq!(app.selected, Some(0));
    app.on_key(key(KeyCode::PageDown));
    assert!(app.selected.unwrap() <= 3);
}

#[test]
fn scrolling_with_no_processes_is_safe() {
    let mut app = App::default();
    for code in [
        KeyCode::Down,
        KeyCode::Up,
        KeyCode::PageDown,
        KeyCode::PageUp,
        KeyCode::Home,
        KeyCode::End,
    ] {
        app.on_key(key(code));
    }
    assert_eq!(app.selected, None);
}

#[test]
fn apply_dynamic_keeps_static_hardware_and_shrinks_selection() {
    let mut snap = snapshot_with_procs(5);
    snap.mobo.product = "Z390".to_string();
    snap.array.total_slots = 4;
    let mut app = App::new(snap, 2);
    app.on_key(key(KeyCode::End));
    assert_eq!(app.selected, Some(4));

    let mut fresh = snapshot_with_procs(2);
    fresh.mem.available_kb = 100;
    fresh.temps = vec![TempReading { label: "DIMM 0".into(), milli_celsius: 44400 }];
    app.apply_dynamic(fresh);

    assert_eq!(app.snapshot.mobo.product, "Z390", "static data must survive a tick");
    assert_eq!(app.snapshot.array.total_slots, 4);
    assert_eq!(app.snapshot.mem.available_kb, 100);
    assert_eq!(app.updates, 1);
    assert_eq!(app.selected, Some(1), "selection clamped to new len");
    assert_eq!(app.temp_history.last(), Some(44));
    assert_eq!(app.used_history.last(), Some(90));
}

#[test]
fn tab_index_round_trips() {
    for i in 0..TAB_COUNT {
        assert_eq!(Tab::from_index(i).index(), i);
    }
    assert_eq!(Tab::from_index(99), Tab::Overview);
}

#[test]
fn page_keys_move_ten_rows() {
    let mut app = App::new(snapshot_with_procs(30), 2);
    app.on_key(key(KeyCode::Down));
    assert_eq!(app.selected, Some(1));
    app.on_key(key(KeyCode::Up));
    assert_eq!(app.selected, Some(0));
    app.on_key(key(KeyCode::PageDown));
    assert_eq!(app.selected, Some(10));
    app.on_key(key(KeyCode::PageDown));
    app.on_key(key(KeyCode::PageDown));
    assert_eq!(app.selected, Some(29));
    app.on_key(key(KeyCode::PageUp));
    assert_eq!(app.selected, Some(19));
    app.on_key(key(KeyCode::Up));
    assert_eq!(app.selected, Some(18));
}

#[test]
fn key_actions() {
    assert_eq!(key_action(key(KeyCode::Char('4'))), Action::SelectTab(3));
    assert_eq!(key_action(key(KeyCode::Char('5'))), Action::Ignore);
    assert_eq!(key_action(key(KeyCode::F(1))), Action::ToggleHelp);
    assert_eq!(key_action(key(KeyCode::F(2))), Action::Ignore);
    assert_eq!(key_action(Key { code: KeyCode::Char('C'), control: true }), Action::Quit);
    assert_eq!(key_action(Key { code: KeyCode::Char('1'), control: true }), Action::SelectTab(0));
    assert_eq!(key_action(key(KeyCode::Char('_'))), Action::Faster);
    assert_eq!(key_action(key(KeyCode::PageUp)), Action::ScrollUp(10));
}

#[test]
fn refresh_is_due_on_request_or_after_the_interval() {
    let mut app = App::new(Snapshot::default(), 3);
    assert!(!app.refresh_due(2_999_999_999));
    assert!(app.refresh_due(3_000_000_000));
    app.force_refresh = true;
    assert!(app.refresh_due(0));
}

#[test]
fn temperature_history_records_the_hottest_reading() {
    let mut app = App::default();
    let mut fresh = Snapshot::default();
    fresh.temps = vec![
        TempReading { label: "a".into(), milli_celsius: 41500 },
        TempReading { label: "b".into(), milli_celsius: 52499 },
        TempReading { label: "c".into(), milli_celsius: 38000 },
    ];
    app.apply_dynamic(fresh);
    assert_eq!(app.max_temp_milli(), Some(52499));
    assert_eq!(app.temp_history.iter(), vec![52]);
    assert_eq!(app.updates, 1);
}

#[test]
fn key_storm_keeps_selection_in_range() {
    let codes = [
        KeyCode::Down,
        KeyCode::Up,
        KeyCode::PageDown,
        KeyCode::PageUp,
        KeyCode::Home,
        KeyCode::End,
        KeyCode::Tab,
        KeyCode::BackTab,
        KeyCode::Left,
        KeyCode::Right,
        KeyCode::Char('1'),
        KeyCode::Char('4'),
        KeyCode::Char('r'),
        KeyCode::Char('+'),
        KeyCode::Char('-'),
        KeyCode::Char('?'),
    ];
    let base = snapshot_with_procs(3);
    let mut app = App::new(base.clone(), 2);
    let mut seed: u64 = 0x2545_F491_4F6C_DD1D;
    for i in 0..2000u32 {
        seed = seed.wrapping_mul(6364136223846793005).wrapping_add(1442695040888963407);
        app.on_key(key(codes[(seed >> 33) as usize % codes.len()]));
        if i % 7 == 0 {
            let mut fresh = base.clone();
            fresh.top_consumers.truncate((seed >> 17) as usize % 3);
            app.apply_dynamic(fresh);
        }
        let len = app.snapshot.top_consumers.len();
        match app.selected {
            Some(s) => assert!(s < len, "selection {s} out of range for {len} rows"),
            None => assert_eq!(len, 0, "only an empty list may have no selection"),
        }
        assert!(app.interval_secs() >= MIN_INTERVAL_SECS);
        assert!(app.used_history.len() <= 512);
    }
}

fn firefox_chrome_snapshot() -> Snapshot {
    Snapshot {
        mem: MemStats { total_kb: 32_845_696, ..Default::default() },
        top_consumers: vec![
            ProcessMem { pid: 1, name: "firefox".into(), rss_kb: 500_000 },
            ProcessMem { pid: 2, name: "chrome".into(), rss_kb: 900_000 },
            ProcessMem { pid: 3, name: "firefox".into(), rss_kb: 600_000 },
        ],
        ..Default::default()
    }
}

#[test]
fn processes_tab_groups_by_name_with_g() {
    let mut app = App::new(firefox_chrome_snapshot(), 2);
    app.select_tab(2);
    assert!(!app.grouped);
    assert_eq!(app.row_count(), 3);
    app.on_key(key(KeyCode::Char('g')));
    assert!(app.grouped);
    assert_eq!(app.row_count(), 2);
    let groups = group_by_name(&app.snapshot.top_consumers);
    assert_eq!(groups.len(), 2);
    assert_eq!(groups[0].name, "firefox");
    assert_eq!(groups[0].count, 2);
    assert_eq!(groups[0].rss_kb, 1_100_000);
    assert_eq!(raminfo::format::fmt_kb(groups[0].rss_kb), "1.0 GB");
    assert_eq!(groups[1].name, "chrome");
    assert_eq!(groups[1].count, 1);
    assert_eq!(groups[1].rss_kb, 900_000);
    app.on_key(key(KeyCode::Char('g')));
    assert!(!app.grouped);
    assert_eq!(app.row_count(), 3);
}

#[test]
fn grouping_keeps_the_selection_inside_the_groups() {
    let mut app = App::new(firefox_chrome_snapshot(), 2);
    app.on_key(key(KeyCode::End));
    assert_eq!(app.selected, Some(2));
    app.on_key(key(KeyCode::Char('g')));
    assert_eq!(app.selected, Some(1));
    app.on_key(key(KeyCode::Down));
    assert_eq!(app.selected, Some(1));
    app.apply_dynamic(Snapshot::default());
    assert!(app.grouped);
    assert_eq!(app.selected, None);
    assert_eq!(key_action(key(KeyCode::Char('g'))), Action::ToggleGroup);
}

#[test]
fn groups_with_equal_sums_keep_first_appearance_order() {
    let procs = vec![
        ProcessMem { pid: 1, name: "b".into(), rss_kb: 10 },
        ProcessMem { pid: 2, name: "a".into(), rss_kb: 5 },
        ProcessMem { pid: 3, name: "a".into(), rss_kb: 5 },
        ProcessMem { pid: 4, name: "c".into(), rss_kb: u64::MAX },
        ProcessMem { pid: 5, name: "c".into(), rss_kb: 1 },
    ];
    let g = group_by_name(&procs);
    let names: Vec<&str> = g.iter().map(|x| x.name.as_str()).collect();
    assert_eq!(names, vec!["c", "b", "a"]);
    assert_eq!(g[0].rss_kb, u64::MAX);
    assert_eq!(g[0].count, 2);
    assert_eq!(g[2].count, 2);
    assert!(group_by_name(&Vec::new()).is_empty());
}
