use sysmonitor::monitor::{ProcMonitor, SortCol};
use sysmonitor::procinfo::{Mode, ProcInfo};

fn proc(pid: u32, name: &str, state: char, rss: u64, vm: u64, ut: u64, st: u64) -> ProcInfo {
    ProcInfo {
        pid,
        name: name.to_string(),
        state,
        vmsize_kb: vm,
        rss_kb: rss,
        utime: ut,
        stime: st,
    }
}

fn sample() -> Vec<ProcInfo> {
    vec![
        proc(1, "systemd", 'S', 9000, 170000, 100, 50),
        proc(42, "Bash", 'S', 5000, 20000, 10, 5),
        proc(420, "firefox", 'R', 900000, 3000000, 5000, 900),
        proc(7, "kworker/0:1", 'I', 0, 0, 3, 4),
    ]
}

fn names(m: &ProcMonitor, idx: &[usize]) -> Vec<String> {
    idx.iter().map(|&i| m.procs[i].name.clone()).collect()
}

#[test]
fn new_monitor_starts_empty_with_mode_defaults() {
    let lite = ProcMonitor::new(Mode::Lite, 4, 1000, Some(77));
    assert!(lite.procs.is_empty());
    assert_eq!(lite.sort_col, SortCol::Ram);
    assert!(!lite.sort_asc);
    assert_eq!(lite.prev_jiffies, 77);
    assert_eq!(lite.interval_ms, 1000);
    assert_eq!(lite.jiffies_delta, 1);
    let full = ProcMonitor::new(Mode::Full, 4, 1000, None);
    assert_eq!(full.sort_col, SortCol::Cpu);
    assert_eq!(full.prev_jiffies, 0);
}

#[test]
fn refresh_measures_cpu_against_previous_sample() {
    let mut m = ProcMonitor::new(Mode::Lite, 2, 1 << 20, Some(1000));
    m.refresh(Some(1100), sample());
    assert_eq!(m.jiffies_delta, 100);
    assert_eq!(m.cpu_ticks_of(420), 0);
    let mut next = sample();
    next[2].utime += 30;
    next[2].stime += 20;
    next.push(proc(999, "new", 'R', 1, 1, 500, 500));
    m.refresh(Some(1200), next);
    assert_eq!(m.cpu_ticks_of(420), 50);
    assert_eq!(m.cpu_ticks_of(1), 0);
    assert_eq!(m.cpu_ticks_of(999), 0);
    assert_eq!(m.cpu_ticks_of(12345), 0);
    assert_eq!(m.prev_jiffies, 1200);
}

#[test]
fn missing_jiffies_keep_or_reset_the_count() {
    let mut lite = ProcMonitor::new(Mode::Lite, 1, 1, Some(500));
    lite.refresh(None, Vec::new());
    assert_eq!(lite.prev_jiffies, 500);
    assert_eq!(lite.jiffies_delta, 1);
    let mut full = ProcMonitor::new(Mode::Full, 1, 1, Some(500));
    full.refresh(None, Vec::new());
    assert_eq!(full.prev_jiffies, 0);
    assert_eq!(full.jiffies_delta, 1);
}

#[test]
fn full_mode_counts_new_processes_as_idle() {
    let mut m = ProcMonitor::new(Mode::Full, 2, 1, Some(0));
    m.refresh(Some(10), vec![proc(5, "a", 'R', 1, 1, 100, 0)]);
    assert_eq!(m.cpu_ticks_of(5), 0);
    m.refresh(Some(20), vec![proc(5, "a", 'R', 1, 1, 130, 0)]);
    assert_eq!(m.cpu_ticks_of(5), 30);
    assert_eq!(m.jiffies_delta, 10);
}

#[test]
fn ram_used_adds_resident_sizes() {
    let mut m = ProcMonitor::new(Mode::Lite, 1, 1, None);
    assert_eq!(m.ram_used_kb(), 0);
    m.refresh(None, sample());
    assert_eq!(m.ram_used_kb(), 914000);
}

#[test]
fn default_order_is_by_ram_descending() {
    let mut m = ProcMonitor::new(Mode::Lite, 1, 1, None);
    m.refresh(None, sample());
    let idx = m.filtered_sorted();
    assert_eq!(names(&m, &idx), vec!["firefox", "systemd", "Bash", "kworker/0:1"]);
}

#[test]
fn names_sort_case_insensitively() {
    let mut m = ProcMonitor::new(Mode::Lite, 1, 1, None);
    m.refresh(None, sample());
    m.click_sort(SortCol::Name);
    assert!(m.sort_asc);
    let idx = m.filtered_sorted();
    assert_eq!(names(&m, &idx), vec!["Bash", "firefox", "kworker/0:1", "systemd"]);
    m.click_sort(SortCol::Name);
    assert!(!m.sort_asc);
    let idx = m.filtered_sorted();
    assert_eq!(names(&m, &idx), vec!["systemd", "kworker/0:1", "firefox", "Bash"]);
}

#[test]
fn clicks_choose_column_and_direction() {
    let mut m = ProcMonitor::new(Mode::Full, 1, 1, None);
    m.click_sort(SortCol::Pid);
    assert_eq!((m.sort_col, m.sort_asc), (SortCol::Pid, true));
    m.click_sort(SortCol::VmSize);
    assert_eq!((m.sort_col, m.sort_asc), (SortCol::VmSize, false));
    m.click_sort(SortCol::VmSize);
    m.click_sort(SortCol::VmSize);
    assert_eq!((m.sort_col, m.sort_asc), (SortCol::VmSize, false));
    assert_eq!(m.sort_arrow(SortCol::VmSize), " \u{25BC}");
    assert_eq!(m.sort_arrow(SortCol::Pid), "");
    m.click_sort(SortCol::VmSize);
    assert_eq!(m.sort_arrow(SortCol::VmSize), " \u{25B2}");
}

#[test]
fn equal_keys_keep_table_order() {
    let mut m = ProcMonitor::new(Mode::Lite, 1, 1, None);
    m.refresh(None, vec![
        proc(3, "c", 'S', 10, 0, 0, 0),
        proc(1, "a", 'R', 10, 0, 0, 0),
        proc(2, "b", 'S', 20, 0, 0, 0),
    ]);
    let idx = m.filtered_sorted();
    assert_eq!(idx, vec![2, 0, 1]);
    m.click_sort(SortCol::State);
    assert_eq!(m.filtered_sorted(), vec![0, 2, 1]);
    m.click_sort(SortCol::Pid);
    assert_eq!(m.filtered_sorted(), vec![1, 2, 0]);
}

#[test]
fn search_matches_name_or_pid_ignoring_case() {
    let mut m = ProcMonitor::new(Mode::Lite, 1, 1, None);
    m.refresh(None, sample());
    m.search = String::from("BASH");
    let idx = m.filtered_sorted();
    assert_eq!(names(&m, &idx), vec!["Bash"]);
    m.search = String::from("42");
    let idx = m.filtered_sorted();
    assert_eq!(names(&m, &idx), vec!["firefox", "Bash"]);
    m.search = String::from("zzz");
    assert!(m.filtered_sorted().is_empty());
}

#[test]
fn full_mode_trims_the_search() {
    let mut m = ProcMonitor::new(Mode::Full, 1, 1, None);
    m.refresh(None, sample());
    m.search = String::from("  fire  ");
    let idx = m.filtered_sorted();
    assert_eq!(names(&m, &idx), vec!["firefox"]);
    let mut l = ProcMonitor::new(Mode::Lite, 1, 1, None);
    l.refresh(None, sample());
    l.search = String::from("  fire  ");
    assert!(l.filtered_sorted().is_empty());
}

#[test]
fn cpu_order_follows_ticks() {
    let mut m = ProcMonitor::new(Mode::Full, 4, 1, Some(0));
    m.refresh(Some(100), sample());
    let mut next = sample();
    next[1].utime += 40;
    next[3].stime += 2;
    m.refresh(Some(200), next);
    let idx = m.filtered_sorted();
    assert_eq!(names(&m, &idx), vec!["Bash", "kworker/0:1", "systemd", "firefox"]);
}

#[test]
fn zero_cpus_make_all_cpu_figures_equal() {
    let mut m = ProcMonitor::new(Mode::Full, 0, 1, Some(0));
    m.refresh(Some(100), sample());
    let mut next = sample();
    next[1].utime += 40;
    m.refresh(Some(200), next);
    assert_eq!(m.filtered_sorted(), vec![0, 1, 2, 3]);
}

#[test]
fn refresh_is_due_after_the_interval() {
    let mut m = ProcMonitor::new(Mode::Lite, 1, 1, None);
    assert!(!m.refresh_due(999));
    assert!(m.refresh_due(1000));
    m.interval_ms = 500;
    assert!(m.refresh_due(600));
}

#[test]
fn new_monitor_is_due_on_the_first_frame() {
    let m = ProcMonitor::new(Mode::Full, 4, 1, None);
    assert!(m.procs.is_empty());
    assert!(m.search.is_empty());
    assert!(m.refresh_due(2000));
}

#[test]
fn blank_search_lists_everything_in_full_mode() {
    let mut m = ProcMonitor::new(Mode::Full, 1, 1, None);
    m.refresh(None, sample());
    m.search = String::from("   ");
    assert_eq!(m.filtered_sorted().len(), 4);
}

#[test]
fn rows_are_listed_from_given_lowercase_names() {
    let procs = sample();
    let lower: Vec<Vec<char>> =
        vec!["systemd", "bash", "firefox", "kworker/0:1"].iter().map(|s| s.chars().collect()).collect();
    let cpu = vec![5, 9, 1, 9];
    let q: Vec<char> = "r".chars().collect();
    assert_eq!(sysmonitor::monitor::list_rows(&procs, &lower, &cpu, &q, SortCol::Name, true), vec![2, 3]);
    assert_eq!(sysmonitor::monitor::list_rows(&procs, &lower, &cpu, &[], SortCol::Cpu, false), vec![1, 3, 0, 2]);
    let q42: Vec<char> = "42".chars().collect();
    assert_eq!(sysmonitor::monitor::list_rows(&procs, &lower, &cpu, &q42, SortCol::Pid, true), vec![1, 2]);
}

#[test]
fn unreadable_processes_are_left_out_in_order() {
    let pids = vec![1u32, 7, 42, 420];
    let read = vec![
        Some(proc(1, "systemd", 'S', 1, 1, 0, 0)),
        None,
        Some(proc(42, "Bash", 'S', 1, 1, 0, 0)),
        Some(proc(420, "firefox", 'R', 1, 1, 0, 0)),
    ];
    let kept = sysmonitor::monitor::keep_read_procs(&pids, read);
    let kept_pids: Vec<u32> = kept.iter().map(|p| p.pid).collect();
    assert_eq!(kept_pids, vec![1, 42, 420]);
    let mut m = ProcMonitor::new(Mode::Lite, 1, 1, Some(0));
    m.refresh(Some(5), kept);
    for pid in [1u32, 42, 420] {
        assert!(m.prev_cpu.contains_key(&pid));
        assert!(m.cpu_ticks.contains_key(&pid));
    }
    assert_eq!(m.prev_cpu.len(), 3);
    assert_eq!(m.cpu_ticks.len(), 3);
}
