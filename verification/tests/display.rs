use sysmonitor::format::{
    fmt_ram, state_color, state_dot, state_info, state_kind, state_label, truncate_name,
    updated_ago_text, Rgb, StateKind,
};
use sysmonitor::procinfo::Mode;

#[test]
fn small_sizes_are_whole_kilobytes() {
    assert_eq!(fmt_ram(0), "0 KB");
    assert_eq!(fmt_ram(1023), "1023 KB");
}

#[test]
fn megabytes_have_one_decimal() {
    assert_eq!(fmt_ram(1024), "1.0 MB");
    assert_eq!(fmt_ram(1536), "1.5 MB");
    assert_eq!(fmt_ram(1331), "1.3 MB");
    assert_eq!(fmt_ram(1048575), "1024.0 MB");
}

#[test]
fn halves_round_to_the_even_tenth() {
    assert_eq!(fmt_ram(1280), "1.2 MB");
    assert_eq!(fmt_ram(1126), "1.1 MB");
    assert_eq!(fmt_ram(1382), "1.3 MB");
}

#[test]
fn gigabytes_have_one_decimal() {
    assert_eq!(fmt_ram(1048576), "1.0 GB");
    assert_eq!(fmt_ram(16314876), "15.6 GB");
    assert_eq!(fmt_ram(u64::MAX), "17592186044416.0 GB");
}

#[test]
fn sizes_match_float_formatting() {
    for kb in [1024u64, 2047, 5000, 1048577, 3_000_000, 123_456_789, 9_007_199_254_740_993] {
        let expect = if kb >= 1_048_576 {
            format!("{:.1} GB", kb as f64 / 1_048_576.0)
        } else {
            format!("{:.1} MB", kb as f64 / 1024.0)
        };
        assert_eq!(fmt_ram(kb), expect);
    }
}

#[test]
fn states_have_labels_dots_and_colours() {
    assert_eq!(state_label('R'), "Running");
    assert_eq!(state_label('D'), "Disk I/O");
    assert_eq!(state_label('x'), "Other");
    assert_eq!(state_dot('S'), "\u{25CF}");
    assert_eq!(state_dot('I'), "\u{25CB}");
    assert_eq!(state_dot('?'), "\u{25CB}");
    assert_eq!(state_color('Z'), Rgb { r: 255, g: 80, b: 80 });
    assert_eq!(state_info('D'), ("Disk", Rgb { r: 250, g: 204, b: 21 }));
    assert_eq!(state_info('q').1, Rgb { r: 148, g: 163, b: 184 });
    assert_eq!(state_kind('T'), StateKind::Stopped);
}

#[test]
fn short_names_stay_whole() {
    assert_eq!(truncate_name("bash", 30), "bash");
    assert_eq!(truncate_name(&"a".repeat(30), 30), "a".repeat(30));
}

#[test]
fn long_names_are_cut_to_the_limit() {
    let long = "abcdefghijklmnopqrstuvwxyz0123456789";
    let cut = truncate_name(long, 30);
    assert_eq!(cut, "abcdefghijklmnopqrstuvwxyz0...");
    assert_eq!(cut.len(), 30);
    assert_eq!(truncate_name("\u{e9}\u{e9}\u{e9}\u{e9}", 5), "\u{e9}...");
}

#[test]
fn footer_tells_the_age() {
    assert_eq!(updated_ago_text(Mode::Lite, 250), "Atualizado 250ms atr\u{e1}s");
    assert_eq!(updated_ago_text(Mode::Lite, 61_005), "Atualizado 61s 5ms atr\u{e1}s");
    assert_eq!(updated_ago_text(Mode::Full, 61_005), "atualizado h\u{e1} 61005ms");
}

#[test]
fn sizes_match_float_formatting_over_a_range() {
    let mut kb: u64 = 1024;
    while kb < 40_000_000 {
        let expect = if kb >= 1_048_576 {
            format!("{:.1} GB", kb as f64 / 1_048_576.0)
        } else {
            format!("{:.1} MB", kb as f64 / 1024.0)
        };
        assert_eq!(fmt_ram(kb), expect, "kb = {}", kb);
        kb += if kb < 2_000_000 { 1 } else { 97 };
    }
    for shift in 50..64 {
        for delta in 0..64u64 {
            let kb = (1u64 << shift) + delta * 977;
            assert_eq!(fmt_ram(kb), format!("{:.1} GB", kb as f64 / 1_048_576.0), "kb = {}", kb);
        }
    }
}

#[test]
fn both_tables_pick_the_same_unit() {
    assert_eq!(fmt_ram(512), "512 KB");
    assert_eq!(fmt_ram(3_145_728), "3.0 GB");
    for kb in [1023u64, 1024, 1_048_575, 1_048_576, u64::MAX] {
        let float_unit = if kb as f64 >= 1_048_576.0 { "GB" } else if kb as f64 >= 1024.0 { "MB" } else { "KB" };
        assert!(fmt_ram(kb).ends_with(float_unit));
    }
}
