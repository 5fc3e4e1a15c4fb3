use sysmonitor::procfs::{
    collect_pids, fallback_cpus, online_cpus, parse_mem_total_kb, parse_proc, parse_stat_times,
    parse_status, parse_total_jiffies, sort_ascending, stat_is_sliceable,
};
use sysmonitor::procinfo::{Mode, ProcInfo};

const MEMINFO: &str = "MemTotal:       16314876 kB\nMemFree:         1234567 kB\n";

#[test]
fn mem_total_is_read_in_both_modes() {
    assert_eq!(parse_mem_total_kb(Mode::Lite, MEMINFO), 16314876);
    assert_eq!(parse_mem_total_kb(Mode::Full, MEMINFO), 16314876);
    assert_eq!(parse_mem_total_kb(Mode::Lite, ""), 0);
    assert_eq!(parse_mem_total_kb(Mode::Full, "MemFree: 5 kB\n"), 0);
}

#[test]
fn malformed_mem_total_stops_lite_but_not_full() {
    let text = "MemTotal: x kB\nMemTotal: 2048 kB\n";
    assert_eq!(parse_mem_total_kb(Mode::Lite, text), 0);
    assert_eq!(parse_mem_total_kb(Mode::Full, text), 2048);
    let no_unit = "MemTotal: 10\nMemTotal: 20 kB\n";
    assert_eq!(parse_mem_total_kb(Mode::Lite, no_unit), 20);
}

#[test]
fn online_range_gives_cpu_count() {
    assert_eq!(online_cpus(Mode::Lite, "0-7\n"), Some(8));
    assert_eq!(online_cpus(Mode::Full, "0-3"), Some(4));
    assert_eq!(online_cpus(Mode::Lite, "0"), None);
    assert_eq!(online_cpus(Mode::Lite, "0-3,5-7"), None);
    assert_eq!(online_cpus(Mode::Full, "a-b"), None);
}

#[test]
fn reversed_range_wraps_and_lite_keeps_one() {
    assert_eq!(online_cpus(Mode::Lite, "1-0"), Some(1));
    assert_eq!(online_cpus(Mode::Full, "1-0"), Some(0));
    assert_eq!(online_cpus(Mode::Full, "5-3"), Some(u32::MAX as usize));
}

#[test]
fn fallback_count_is_at_least_one() {
    assert_eq!(fallback_cpus(0), 1);
    assert_eq!(fallback_cpus(6), 6);
}

#[test]
fn jiffies_add_the_numbers_of_the_first_line() {
    let stat = "cpu  10 20 x 30\ncpu0 1 1 1 1\n";
    assert_eq!(parse_total_jiffies(stat), Some(60));
    assert_eq!(parse_total_jiffies(""), None);
    assert_eq!(parse_total_jiffies("\n"), Some(0));
    assert_eq!(parse_total_jiffies("cpu"), Some(0));
}

#[test]
fn jiffies_wrap_around() {
    let stat = format!("cpu {} 2\n", u64::MAX);
    assert_eq!(parse_total_jiffies(&stat), Some(1));
}

const STATUS_TABS: &str = "Name:\tbash\nUmask:\t0022\nState:\tS (sleeping)\nVmSize:\t   12345 kB\nVmRSS:\t    4567 kB\n";

#[test]
fn status_fields_are_read() {
    let f = parse_status(Mode::Lite, STATUS_TABS).unwrap();
    assert_eq!(f.name, "bash");
    assert_eq!(f.state, 'S');
    assert_eq!(f.vmsize_kb, 12345);
    assert_eq!(f.rss_kb, 4567);
    let g = parse_status(Mode::Full, STATUS_TABS).unwrap();
    assert_eq!(g.name, "bash");
    assert_eq!(g.rss_kb, 4567);
}

#[test]
fn lite_status_needs_a_tab_after_the_key() {
    let spaced = "Name: init\nState: R\n";
    assert!(parse_status(Mode::Lite, spaced).is_none());
    let f = parse_status(Mode::Full, spaced).unwrap();
    assert_eq!(f.name, "init");
    assert_eq!(f.state, 'R');
    assert_eq!(f.vmsize_kb, 0);
}

#[test]
fn kernel_threads_have_no_sizes() {
    let f = parse_status(Mode::Lite, "Name:\tkthreadd\nState:\tS (sleeping)\n").unwrap();
    assert_eq!(f.vmsize_kb, 0);
    assert_eq!(f.rss_kb, 0);
    assert_eq!(parse_status(Mode::Lite, "Name:\tx\nState:\t\n").unwrap().state, '?');
}

#[test]
fn malformed_size_rejects_the_process() {
    assert!(parse_status(Mode::Lite, "Name:\tx\nVmRSS:\tlots kB\n").is_none());
    assert!(parse_status(Mode::Full, "Name:x\nVmSize:\n").is_none());
    assert!(parse_status(Mode::Lite, "State:\tR\n").is_none());
}

const STAT: &str = "1234 (my (odd) name) S 1 1234 1234 0 -1 4194560 100 0 0 0 57 13 0 0 20 0 1 0 100\n";

#[test]
fn stat_times_follow_the_last_parenthesis() {
    assert!(stat_is_sliceable(STAT));
    assert_eq!(parse_stat_times(STAT), Some((57, 13)));
    assert_eq!(parse_stat_times("no parenthesis"), None);
    assert_eq!(parse_stat_times("1 (x) S 1 2"), None);
}

#[test]
fn stat_that_would_be_cut_badly_is_detected() {
    assert!(!stat_is_sliceable("1 (x)"));
    assert!(!stat_is_sliceable("1 (x)\u{e9}rest"));
    assert!(stat_is_sliceable("nothing to cut"));
}

#[test]
fn process_record_combines_both_files() {
    let f = parse_status(Mode::Lite, STATUS_TABS).unwrap();
    let p: ProcInfo = parse_proc(1234, f, STAT).unwrap();
    assert_eq!(p.pid, 1234);
    assert_eq!(p.name, "bash");
    assert_eq!((p.utime, p.stime), (57, 13));
    assert_eq!(p.total_time(), 70);
    let g = parse_status(Mode::Lite, STATUS_TABS).unwrap();
    assert!(parse_proc(1, g, "1 (x) S").is_none());
}

#[test]
fn total_time_saturates() {
    let p = ProcInfo {
        pid: 1,
        name: String::from("x"),
        state: 'R',
        vmsize_kb: 0,
        rss_kb: 0,
        utime: u64::MAX - 1,
        stime: 5,
    };
    assert_eq!(p.total_time(), u64::MAX);
}

#[test]
fn pids_are_the_numeric_entries() {
    let names: Vec<String> =
        ["self", "300", "12", "acpi", "7", "+5", "4294967296"].iter().map(|s| s.to_string()).collect();
    assert_eq!(collect_pids(Mode::Lite, &names), vec![5, 7, 12, 300]);
    assert_eq!(collect_pids(Mode::Full, &names), vec![300, 12, 7, 5]);
}

#[test]
fn sorting_keeps_every_value() {
    assert_eq!(sort_ascending(&vec![3, 1, 2, 1, 9, 0]), vec![0, 1, 1, 2, 3, 9]);
    assert_eq!(sort_ascending(&vec![]), Vec::<u32>::new());
}

#[test]
fn distinct_entries_give_strictly_increasing_pids() {
    let names: Vec<String> = ["31", "1", "2", "self", "1024", "7"].iter().map(|s| s.to_string()).collect();
    let pids = collect_pids(Mode::Lite, &names);
    assert_eq!(pids, vec![1, 2, 7, 31, 1024]);
    assert!(pids.windows(2).all(|w| w[0] < w[1]));
}
