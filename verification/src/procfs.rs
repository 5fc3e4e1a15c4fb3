//! The text of the kernel's `/proc` and `/sys` files, read into numbers and
//! process records.

use vstd::prelude::*;
use crate::text::{
    chars_of, lines, lines_of, slice_chars, string_of, strip_prefix, strip_prefix_of, strip_suffix,
    strip_suffix_of, trim, trim_chars, views, words, words_of,
};
use crate::number::{parse_u32, parse_u32_chars, parse_u64, parse_u64_chars};
use crate::procinfo::{Mode, ProcInfo, wrap_add};

verus! {

// ---------------------------------------------------------------------
// /proc/meminfo
// ---------------------------------------------------------------------

/// What the `MemTotal:` line `l` says, when it decides the result:
/// `Lite` stops at the first `MemTotal:` line that ends in ` kB` and reads 0
/// when its number is malformed; `Full` stops only at a line whose number
/// reads.
pub open spec fn mem_total_hit(mode: Mode, l: Seq<char>) -> Option<u64> {
    match strip_prefix(l, "MemTotal:"@) {
        Some(rest) => match strip_suffix(trim(rest), " kB"@) {
            Some(kb) => match mode {
                Mode::Lite => Some(
                    match parse_u64(trim(kb)) {
                        Some(v) => v,
                        None => 0,
                    },
                ),
                Mode::Full => parse_u64(trim(kb)),
            },
            None => None,
        },
        None => None,
    }
}

/// The total memory in kB that the lines `ls` of `/proc/meminfo` give: the
/// first line that decides, or 0.
pub open spec fn mem_total_of_lines(mode: Mode, ls: Seq<Seq<char>>) -> u64
    decreases ls.len(),
{
    if ls.len() == 0 {
        0
    } else {
        match mem_total_hit(mode, ls[0]) {
            Some(v) => v,
            None => mem_total_of_lines(mode, ls.drop_first()),
        }
    }
}

/// The total memory in kB that the text of `/proc/meminfo` gives.
pub open spec fn mem_total_kb(mode: Mode, content: Seq<char>) -> u64 {
    mem_total_of_lines(mode, lines(content))
}

fn mem_total_line(mode: Mode, l: &[char]) -> (r: Option<u64>)
    ensures
        r == mem_total_hit(mode, l@),
{
    let key = chars_of("MemTotal:");
    let unit = chars_of(" kB");
    match strip_prefix_of(l, &key) {
        Some(rest) => {
            let t = trim_chars(&rest);
            match strip_suffix_of(&t, &unit) {
                Some(kb) => {
                    let k = trim_chars(&kb);
                    let v = parse_u64_chars(&k);
                    match mode {
                        Mode::Lite => match v {
                            Some(x) => Some(x),
                            None => Some(0),
                        },
                        Mode::Full => v,
                    }
                },
                None => None,
            }
        },
        None => None,
    }
}

/// Reads the total memory in kB from the text of `/proc/meminfo`; 0 when
/// no line gives it.
pub fn parse_mem_total_kb(mode: Mode, content: &str) -> (r: u64)
    ensures
        r == mem_total_kb(mode, content@),
{
    let cs = chars_of(content);
    let ls = lines_of(&cs);
    let ghost all = views(ls@);
    let mut i: usize = 0;
    assert(all.skip(0) =~= all);
    while i < ls.len()
        invariant
            i <= ls@.len(),
            all == views(ls@),
            all == lines(content@),
            mem_total_of_lines(mode, all) == mem_total_of_lines(mode, all.skip(i as int)),
        decreases ls@.len() - i,
    {
        assert(all.skip(i as int).drop_first() =~= all.skip(i + 1));
        assert(all.skip(i as int)[0] == ls@[i as int]@);
        match mem_total_line(mode, ls[i].as_slice()) {
            Some(v) => {
                return v;
            },
            None => {},
        }
        i = i + 1;
    }
    0
}

// ---------------------------------------------------------------------
// /sys/devices/system/cpu/online
// ---------------------------------------------------------------------

/// Position of the first `c` in `s`, or -1.
pub open spec fn first_index(s: Seq<char>, c: char) -> int
    decreases s.len(),
{
    if s.len() == 0 {
        -1
    } else if s[0] == c {
        0
    } else {
        let r = first_index(s.drop_first(), c);
        if r < 0 {
            -1
        } else {
            r + 1
        }
    }
}

/// A found position lies inside `s` and holds `c`.
pub proof fn lemma_first_index(s: Seq<char>, c: char)
    ensures
        -1 <= first_index(s, c) < s.len(),
        first_index(s, c) >= 0 ==> s[first_index(s, c)] == c,
        forall|j: int| 0 <= j < s.len() && (first_index(s, c) < 0 || j < first_index(s, c))
            ==> s[j] != c,
    decreases s.len(),
{
    if s.len() > 0 && s[0] != c {
        lemma_first_index(s.drop_first(), c);
        assert forall|j: int| 0 <= j < s.len() && (first_index(s, c) < 0 || j < first_index(s, c))
            implies s[j] != c by {
            if j > 0 {
                assert(s[j] == s.drop_first()[j - 1]);
            }
        }
    }
}

/// `y - x + 1` modulo 2^32: a range whose end lies below its start wraps
/// around.
pub open spec fn cpu_span(x: u32, y: u32) -> u32 {
    let d = y - x + 1;
    if d < 0 {
        (d + 0x1_0000_0000) as u32
    } else if d > u32::MAX {
        (d - 0x1_0000_0000) as u32
    } else {
        d as u32
    }
}

/// The CPU count that a range `a-b` in the `online` file gives: `b - a + 1`
/// (at least 1 in `Lite`); `None` when the trimmed text is not two numbers
/// around its first `'-'`.
pub open spec fn online_cpu_count(mode: Mode, content: Seq<char>) -> Option<usize> {
    let t = trim(content);
    let k = first_index(t, '-');
    if k < 0 {
        None
    } else {
        match (parse_u32(t.take(k)), parse_u32(t.skip(k + 1))) {
            (Some(x), Some(y)) => {
                let n = cpu_span(x, y) as usize;
                match mode {
                    Mode::Lite => Some(if n < 1 { 1usize } else { n }),
                    Mode::Full => Some(n),
                }
            },
            _ => None,
        }
    }
}

fn find_char(s: &[char], c: char) -> (r: Option<usize>)
    ensures
        r matches Some(k) ==> first_index(s@, c) == k,
        r is None ==> first_index(s@, c) == -1,
{
    let mut i: usize = 0;
    assert(s@.skip(0) =~= s@);
    while i < s.len()
        invariant
            i <= s@.len(),
            first_index(s@, c) == if first_index(s@.skip(i as int), c) < 0 {
                -1
            } else {
                first_index(s@.skip(i as int), c) + i
            },
        decreases s@.len() - i,
    {
        assert(s@.skip(i as int).drop_first() =~= s@.skip(i + 1));
        assert(s@.skip(i as int)[0] == s@[i as int]);
        if s[i] == c {
            return Some(i);
        }
        i = i + 1;
    }
    None
}

/// Reads the CPU count from the text of `/sys/devices/system/cpu/online`
/// when it is one range `a-b`.
pub fn online_cpus(mode: Mode, content: &str) -> (r: Option<usize>)
    ensures
        r == online_cpu_count(mode, content@),
{
    let cs = chars_of(content);
    let t = trim_chars(&cs);
    match find_char(&t, '-') {
        None => None,
        Some(k) => {
            proof {
                lemma_first_index(t@, '-');
            }
            let tl = t.len();
            let a = slice_chars(&t, 0, k);
            let b = slice_chars(&t, k + 1, tl);
            assert(a@ =~= t@.take(k as int));
            assert(b@ =~= t@.skip(k + 1));
            let pa = parse_u32_chars(&a);
            let pb = parse_u32_chars(&b);
            match (pa, pb) {
                (Some(x), Some(y)) => {
                    let n = y.wrapping_sub(x).wrapping_add(1) as usize;
                    match mode {
                        Mode::Lite => Some(if n < 1 { 1 } else { n }),
                        Mode::Full => Some(n),
                    }
                },
                _ => None,
            }
        },
    }
}

/// The CPU count when the `online` file does not give it: the number of
/// `cpuN` directories found, counting from `cpu0`, and at least 1.
pub fn fallback_cpus(probed: usize) -> (r: usize)
    ensures
        r == if probed < 1 { 1 } else { probed },
{
    if probed < 1 {
        1
    } else {
        probed
    }
}


// ---------------------------------------------------------------------
// /proc/stat
// ---------------------------------------------------------------------

/// The sum, modulo 2^64, of the words of `ws` that read as `u64`; the
/// others are skipped.
pub open spec fn sum_of_numbers(ws: Seq<Seq<char>>) -> u64
    decreases ws.len(),
{
    if ws.len() == 0 {
        0
    } else {
        match parse_u64(ws.last()) {
            Some(v) => wrap_add(sum_of_numbers(ws.drop_last()), v),
            None => sum_of_numbers(ws.drop_last()),
        }
    }
}

/// Adding up the jiffy counts: nothing gives 0, one more word that reads
/// as a number adds it (modulo 2^64), and one that does not changes nothing.
pub proof fn law_jiffies_add_up(ws: Seq<Seq<char>>, w: Seq<char>)
    ensures
        sum_of_numbers(Seq::<Seq<char>>::empty()) == 0,
        parse_u64(w) matches Some(v) ==> sum_of_numbers(ws.push(w)) as int == (sum_of_numbers(ws)
            + v) % 0x1_0000_0000_0000_0000,
        parse_u64(w) is None ==> sum_of_numbers(ws.push(w)) == sum_of_numbers(ws),
{
    assert(ws.push(w).drop_last() =~= ws);
    if let Some(v) = parse_u64(w) {
        let t = sum_of_numbers(ws) + v;
        if t > u64::MAX {
            vstd::arithmetic::div_mod::lemma_fundamental_div_mod_converse(
                t,
                0x1_0000_0000_0000_0000,
                1,
                t - 0x1_0000_0000_0000_0000,
            );
        } else {
            vstd::arithmetic::div_mod::lemma_fundamental_div_mod_converse(
                t,
                0x1_0000_0000_0000_0000,
                0,
                t,
            );
        }
    }
}

/// The total CPU time in jiffies that the text of `/proc/stat` gives: the
/// numbers after the first word of its first line, added up; `None` when
/// the text has no line.
pub open spec fn total_jiffies(content: Seq<char>) -> Option<u64> {
    let ls = lines(content);
    if ls.len() == 0 {
        None
    } else {
        let ws = words(ls[0]);
        Some(sum_of_numbers(if ws.len() == 0 { ws } else { ws.skip(1) }))
    }
}

/// Reads the total CPU time in jiffies from the text of `/proc/stat`.
pub fn parse_total_jiffies(content: &str) -> (r: Option<u64>)
    ensures
        r == total_jiffies(content@),
{
    let cs = chars_of(content);
    let ls = lines_of(&cs);
    if ls.len() == 0 {
        return None;
    }
    let ws = words_of(ls[0].as_slice());
    if ws.len() == 0 {
        return Some(0);
    }
    let ghost fields = views(ws@).skip(1);
    let mut sum: u64 = 0;
    let mut i: usize = 1;
    assert(fields.take(0) =~= Seq::<Seq<char>>::empty());
    while i < ws.len()
        invariant
            1 <= i <= ws@.len(),
            fields == views(ws@).skip(1),
            sum == sum_of_numbers(fields.take(i - 1)),
        decreases ws@.len() - i,
    {
        let ghost next = fields.take(i as int);
        assert(next.drop_last() =~= fields.take(i - 1));
        assert(next.last() == ws@[i as int]@);
        match parse_u64_chars(ws[i].as_slice()) {
            Some(v) => {
                sum = sum.wrapping_add(v);
            },
            None => {},
        }
        i = i + 1;
    }
    assert(fields.take(i - 1) =~= fields);
    Some(sum)
}


// ---------------------------------------------------------------------
// /proc/<pid>/status
// ---------------------------------------------------------------------

/// The fields that `/proc/<pid>/status` gives a process.
#[derive(Debug)]
pub struct StatusFields {
    pub name: String,
    pub state: char,
    pub vmsize_kb: u64,
    pub rss_kb: u64,
}

/// The key of the name line: `Lite` wants a tab after the colon.
pub open spec fn name_key(mode: Mode) -> Seq<char> {
    match mode {
        Mode::Lite => "Name:\t"@,
        Mode::Full => "Name:"@,
    }
}

/// The key of the state line.
pub open spec fn state_key(mode: Mode) -> Seq<char> {
    match mode {
        Mode::Lite => "State:\t"@,
        Mode::Full => "State:"@,
    }
}

/// The key of the virtual-memory-size line.
pub open spec fn vmsize_key(mode: Mode) -> Seq<char> {
    match mode {
        Mode::Lite => "VmSize:\t"@,
        Mode::Full => "VmSize:"@,
    }
}

/// The key of the resident-set-size line.
pub open spec fn rss_key(mode: Mode) -> Seq<char> {
    match mode {
        Mode::Lite => "VmRSS:\t"@,
        Mode::Full => "VmRSS:"@,
    }
}

/// The number that the first word of `v` reads as.
pub open spec fn first_number(v: Seq<char>) -> Option<u64> {
    let ws = words(trim(v));
    if ws.len() > 0 {
        parse_u64(ws[0])
    } else {
        None
    }
}

/// The first character of `v`, or `'?'` when it is empty.
pub open spec fn first_char_or_unknown(v: Seq<char>) -> char {
    if v.len() > 0 {
        v[0]
    } else {
        '?'
    }
}

/// The fields gathered so far (name, state, VmSize, VmRSS) after the line
/// `l`: a name or state line sets that field; a VmSize or VmRSS line sets
/// it or, when its number does not read, rejects the whole file.
pub open spec fn status_step(
    mode: Mode,
    acc: Option<(Seq<char>, char, u64, u64)>,
    l: Seq<char>,
) -> Option<(Seq<char>, char, u64, u64)> {
    match acc {
        None => None,
        Some(st) => if strip_prefix(l, name_key(mode)) is Some {
            Some((trim(strip_prefix(l, name_key(mode))->0), st.1, st.2, st.3))
        } else if strip_prefix(l, state_key(mode)) is Some {
            Some(
                (
                    st.0,
                    first_char_or_unknown(trim(strip_prefix(l, state_key(mode))->0)),
                    st.2,
                    st.3,
                ),
            )
        } else if strip_prefix(l, vmsize_key(mode)) is Some {
            match first_number(strip_prefix(l, vmsize_key(mode))->0) {
                Some(n) => Some((st.0, st.1, n, st.3)),
                None => None,
            }
        } else if strip_prefix(l, rss_key(mode)) is Some {
            match first_number(strip_prefix(l, rss_key(mode))->0) {
                Some(n) => Some((st.0, st.1, st.2, n)),
                None => None,
            }
        } else {
            acc
        },
    }
}

/// A line that starts with `other` does not start with a `key` that differs
/// from `other` at a position within both.
proof fn lemma_not_prefix(l: Seq<char>, key: Seq<char>, other: Seq<char>, k: int)
    requires
        0 <= k < key.len(),
        k < other.len(),
        key[k] != other[k],
        l.take(other.len() as int) == other,
        other.len() <= l.len(),
    ensures
        strip_prefix(l, key) is None,
{
    if key.len() <= l.len() && l.take(key.len() as int) == key {
        assert(l.take(key.len() as int)[k] == l[k]);
        assert(l.take(other.len() as int)[k] == l[k]);
    }
}

/// What one line of a status file does, by its key: `Name:` sets the
/// trimmed name, `State:` the first character of the trimmed state (`'?'`
/// when empty), `VmSize:` the virtual size and `VmRSS:` the resident size to
/// the number of their first word, rejecting the file when that word does
/// not read as a number. `Lite` expects a tab after each colon.
pub proof fn law_status_line(mode: Mode, st: (Seq<char>, char, u64, u64), v: Seq<char>)
    ensures
        ({
            let tab = match mode {
                Mode::Lite => seq!['\t'],
                Mode::Full => Seq::<char>::empty(),
            };
            let w = words(trim(v));
            let n = if w.len() > 0 {
                parse_u64(w[0])
            } else {
                None
            };
            &&& status_step(mode, Some(st), "Name:"@ + tab + v) == Some((trim(v), st.1, st.2, st.3))
            &&& status_step(mode, Some(st), "State:"@ + tab + v) == Some(
                (st.0, if trim(v).len() > 0 { trim(v)[0] } else { '?' }, st.2, st.3),
            )
            &&& status_step(mode, Some(st), "VmSize:"@ + tab + v) == match n {
                Some(x) => Some((st.0, st.1, x, st.3)),
                None => None,
            }
            &&& status_step(mode, Some(st), "VmRSS:"@ + tab + v) == match n {
                Some(x) => Some((st.0, st.1, st.2, x)),
                None => None,
            }
        }),
{
    reveal_strlit("Name:");
    reveal_strlit("State:");
    reveal_strlit("VmSize:");
    reveal_strlit("VmRSS:");
    reveal_strlit("Name:\t");
    reveal_strlit("State:\t");
    reveal_strlit("VmSize:\t");
    reveal_strlit("VmRSS:\t");
    let tab = match mode {
        Mode::Lite => seq!['\t'],
        Mode::Full => Seq::<char>::empty(),
    };
    let (kn, ks, kv, kr) = (name_key(mode), state_key(mode), vmsize_key(mode), rss_key(mode));
    assert(kn =~= "Name:"@ + tab);
    assert(ks =~= "State:"@ + tab);
    assert(kv =~= "VmSize:"@ + tab);
    assert(kr =~= "VmRSS:"@ + tab);
    let (ln, ls, lv, lr) = (kn + v, ks + v, kv + v, kr + v);
    assert(ln.take(kn.len() as int) =~= kn && ln.skip(kn.len() as int) =~= v);
    assert(ls.take(ks.len() as int) =~= ks && ls.skip(ks.len() as int) =~= v);
    assert(lv.take(kv.len() as int) =~= kv && lv.skip(kv.len() as int) =~= v);
    assert(lr.take(kr.len() as int) =~= kr && lr.skip(kr.len() as int) =~= v);
    lemma_not_prefix(ls, kn, ks, 0);
    lemma_not_prefix(lv, kn, kv, 0);
    lemma_not_prefix(lv, ks, kv, 0);
    lemma_not_prefix(lr, kn, kr, 0);
    lemma_not_prefix(lr, ks, kr, 0);
    lemma_not_prefix(lr, kv, kr, 2);
}

/// The fields after all the lines `ls`, starting from an empty name, state
/// `'?'` and sizes 0.
pub open spec fn status_fold(mode: Mode, ls: Seq<Seq<char>>) -> Option<
    (Seq<char>, char, u64, u64),
>
    decreases ls.len(),
{
    if ls.len() == 0 {
        Some((Seq::empty(), '?', 0u64, 0u64))
    } else {
        status_step(mode, status_fold(mode, ls.drop_last()), ls.last())
    }
}

/// The fields of a process that the text of `/proc/<pid>/status` gives;
/// `None` when a size does not read or the name is empty.
pub open spec fn status_of(mode: Mode, text: Seq<char>) -> Option<(Seq<char>, char, u64, u64)> {
    match status_fold(mode, lines(text)) {
        Some(st) => if st.0.len() > 0 {
            Some(st)
        } else {
            None
        },
        None => None,
    }
}

fn first_number_of(v: &[char]) -> (r: Option<u64>)
    ensures
        r == first_number(v@),
{
    let t = trim_chars(v);
    let ws = words_of(&t);
    if ws.len() > 0 {
        assert(views(ws@)[0] == ws@[0]@);
        parse_u64_chars(ws[0].as_slice())
    } else {
        None
    }
}

/// Reads the name, state and memory sizes of a process from the text of
/// its `/proc/<pid>/status` file.
pub fn parse_status(mode: Mode, text: &str) -> (r: Option<StatusFields>)
    ensures
        r matches Some(f) ==> status_of(mode, text@) == Some(
            (f.name@, f.state, f.vmsize_kb, f.rss_kb),
        ),
        r is None ==> status_of(mode, text@) is None,
{
    let nk = chars_of(
        match mode {
            Mode::Lite => "Name:\t",
            Mode::Full => "Name:",
        },
    );
    let sk = chars_of(
        match mode {
            Mode::Lite => "State:\t",
            Mode::Full => "State:",
        },
    );
    let vk = chars_of(
        match mode {
            Mode::Lite => "VmSize:\t",
            Mode::Full => "VmSize:",
        },
    );
    let rk = chars_of(
        match mode {
            Mode::Lite => "VmRSS:\t",
            Mode::Full => "VmRSS:",
        },
    );
    assert(nk@ == name_key(mode) && sk@ == state_key(mode) && vk@ == vmsize_key(mode) && rk@
        == rss_key(mode));
    let cs = chars_of(text);
    let ls = lines_of(&cs);
    let ghost all = views(ls@);
    let mut name: Vec<char> = Vec::new();
    let mut state: char = '?';
    let mut vmsize: u64 = 0;
    let mut rss: u64 = 0;
    let mut i: usize = 0;
    assert(all.take(0) =~= Seq::<Seq<char>>::empty());
    assert(name@ =~= Seq::<char>::empty());
    while i < ls.len()
        invariant
            i <= ls@.len(),
            all == views(ls@),
            all == lines(text@),
            nk@ == name_key(mode),
            sk@ == state_key(mode),
            vk@ == vmsize_key(mode),
            rk@ == rss_key(mode),
            status_fold(mode, all.take(i as int)) == Some((name@, state, vmsize, rss)),
        decreases ls@.len() - i,
    {
        let ghost next = all.take(i + 1);
        assert(next.drop_last() =~= all.take(i as int));
        assert(next.last() == ls@[i as int]@);
        let line = ls[i].as_slice();
        match strip_prefix_of(line, &nk) {
            Some(v) => {
                name = trim_chars(&v);
            },
            None => match strip_prefix_of(line, &sk) {
                Some(v) => {
                    let t = trim_chars(&v);
                    state = if t.len() > 0 {
                        t[0]
                    } else {
                        '?'
                    };
                },
                None => match strip_prefix_of(line, &vk) {
                    Some(v) => match first_number_of(&v) {
                        Some(n) => {
                            vmsize = n;
                        },
                        None => {
                            proof {
                                lemma_status_fold_stays_none(mode, all, i as int + 1);
                            }
                            return None;
                        },
                    },
                    None => match strip_prefix_of(line, &rk) {
                        Some(v) => match first_number_of(&v) {
                            Some(n) => {
                                rss = n;
                            },
                            None => {
                                proof {
                                    lemma_status_fold_stays_none(mode, all, i as int + 1);
                                }
                                return None;
                            },
                        },
                        None => {},
                    },
                },
            },
        }
        i = i + 1;
    }
    assert(all.take(ls@.len() as int) =~= all);
    if name.len() == 0 {
        return None;
    }
    Some(StatusFields { name: string_of(&name), state, vmsize_kb: vmsize, rss_kb: rss })
}

/// Once a status file is rejected, later lines do not bring it back.
proof fn lemma_status_fold_stays_none(mode: Mode, ls: Seq<Seq<char>>, k: int)
    requires
        0 <= k <= ls.len(),
        status_fold(mode, ls.take(k)) is None,
    ensures
        status_fold(mode, ls) is None,
    decreases ls.len() - k,
{
    if k < ls.len() {
        assert(ls.take(k + 1).drop_last() =~= ls.take(k));
        lemma_status_fold_stays_none(mode, ls, k + 1);
    } else {
        assert(ls.take(k) =~= ls);
    }
}


// ---------------------------------------------------------------------
// /proc/<pid>/stat
// ---------------------------------------------------------------------

/// Position of the last `c` in `s`, or -1.
pub open spec fn last_index(s: Seq<char>, c: char) -> int
    decreases s.len(),
{
    if s.len() == 0 {
        -1
    } else if s.last() == c {
        s.len() - 1
    } else {
        last_index(s.drop_last(), c)
    }
}

/// Whether the fields after the command name of a `stat` text can be cut
/// out: the slice that starts two bytes after the last `')'` must start on
/// a character boundary inside the text. Where this fails, taking the
/// slice panics.
pub open spec fn stat_sliceable(s: Seq<char>) -> bool {
    let r = last_index(s, ')');
    r < 0 || (r + 1 < s.len() && (s[r + 1] as u32) < 128)
}

/// User and system time in clock ticks that the text of `/proc/<pid>/stat`
/// gives: the 12th and 13th words after the character that follows the last
/// `')'`.
pub open spec fn stat_times(s: Seq<char>) -> Option<(u64, u64)> {
    let r = last_index(s, ')');
    if r < 0 {
        None
    } else {
        let ws = words(s.skip(r + 2));
        if ws.len() > 12 && parse_u64(ws[11]) is Some && parse_u64(ws[12]) is Some {
            Some((parse_u64(ws[11])->0, parse_u64(ws[12])->0))
        } else {
            None
        }
    }
}

/// A found position lies inside `s` and holds `c`.
pub proof fn lemma_last_index(s: Seq<char>, c: char)
    ensures
        -1 <= last_index(s, c) < s.len(),
        last_index(s, c) >= 0 ==> s[last_index(s, c)] == c,
    decreases s.len(),
{
    if s.len() > 0 && s.last() != c {
        lemma_last_index(s.drop_last(), c);
    }
}

fn find_last_char(s: &[char], c: char) -> (r: Option<usize>)
    ensures
        r matches Some(k) ==> last_index(s@, c) == k,
        r is None ==> last_index(s@, c) == -1,
{
    let mut j: usize = s.len();
    assert(s@.take(j as int) =~= s@);
    while j > 0
        invariant
            j <= s@.len(),
            last_index(s@, c) == last_index(s@.take(j as int), c),
        decreases j,
    {
        assert(s@.take(j as int).drop_last() =~= s@.take(j - 1));
        assert(s@.take(j as int).last() == s@[j - 1]);
        if s[j - 1] == c {
            return Some(j - 1);
        }
        j = j - 1;
    }
    None
}

/// Whether the fields after the command name of the `stat` text can be cut
/// out (see `stat_sliceable`).
pub fn stat_is_sliceable(stat: &str) -> (r: bool)
    ensures
        r == stat_sliceable(stat@),
{
    let cs = chars_of(stat);
    let n = cs.len();
    match find_last_char(&cs, ')') {
        None => true,
        Some(k) => {
            proof {
                lemma_last_index(cs@, ')');
            }
            k + 1 < n && (cs[k + 1] as u32) < 128
        },
    }
}

/// Reads the user and system times from the text of `/proc/<pid>/stat`.
pub fn parse_stat_times(stat: &str) -> (r: Option<(u64, u64)>)
    requires
        stat_sliceable(stat@),
    ensures
        r == stat_times(stat@),
{
    let cs = chars_of(stat);
    let n = cs.len();
    match find_last_char(&cs, ')') {
        None => None,
        Some(k) => {
            proof {
                lemma_last_index(cs@, ')');
            }
            let rest = slice_chars(&cs, k + 2, n);
            assert(rest@ =~= cs@.skip(k + 2));
            let ws = words_of(&rest);
            if ws.len() > 12 {
                assert(views(ws@)[11] == ws@[11]@);
                assert(views(ws@)[12] == ws@[12]@);
                let u = parse_u64_chars(ws[11].as_slice());
                let t = parse_u64_chars(ws[12].as_slice());
                match (u, t) {
                    (Some(u), Some(t)) => Some((u, t)),
                    _ => None,
                }
            } else {
                None
            }
        },
    }
}

/// The process that a status reading and a `stat` text describe.
pub open spec fn proc_of(
    pid: u32,
    st: (Seq<char>, char, u64, u64),
    stat: Seq<char>,
) -> Option<(u32, Seq<char>, char, u64, u64, u64, u64)> {
    match stat_times(stat) {
        Some(t) => Some((pid, st.0, st.1, st.2, st.3, t.0, t.1)),
        None => None,
    }
}

/// A process record keeps every field where it came from: the PID asked
/// for, the name, state, virtual and resident sizes of the status reading,
/// and the user and system times of the `stat` text.
pub proof fn law_record_keeps_fields(pid: u32, st: (Seq<char>, char, u64, u64), stat: Seq<char>)
    ensures
        proc_of(pid, st, stat) is Some <==> stat_times(stat) is Some,
        proc_of(pid, st, stat) matches Some(t) ==> t.0 == pid && t.1 == st.0 && t.2 == st.1 && t.3
            == st.2 && t.4 == st.3 && stat_times(stat) == Some((t.5, t.6)),
{
}

/// The record of process `pid`, from its status fields and the text of its
/// `stat` file; `None` when the times do not read.
pub fn parse_proc(pid: u32, fields: StatusFields, stat: &str) -> (r: Option<ProcInfo>)
    requires
        stat_sliceable(stat@),
    ensures
        r matches Some(p) ==> proc_of(
            pid,
            (fields.name@, fields.state, fields.vmsize_kb, fields.rss_kb),
            stat@,
        ) == Some((p.pid, p.name@, p.state, p.vmsize_kb, p.rss_kb, p.utime, p.stime)),
        r matches Some(p) ==> p.pid == pid && p.name@ == fields.name@ && p.state == fields.state
            && p.vmsize_kb == fields.vmsize_kb && p.rss_kb == fields.rss_kb,
        r matches Some(p) ==> stat_times(stat@) == Some((p.utime, p.stime)),
        r is None ==> stat_times(stat@) is None,
{
    match parse_stat_times(stat) {
        Some((utime, stime)) => Some(
            ProcInfo {
                pid,
                name: fields.name,
                state: fields.state,
                vmsize_kb: fields.vmsize_kb,
                rss_kb: fields.rss_kb,
                utime,
                stime,
            },
        ),
        None => None,
    }
}


// ---------------------------------------------------------------------
// The entries of /proc
// ---------------------------------------------------------------------

/// The characters of each string.
pub open spec fn string_views(names: Seq<String>) -> Seq<Seq<char>> {
    names.map_values(|s: String| s@)
}

/// The entry names that read as `u32`, read, in their order.
pub open spec fn parsed_pids(names: Seq<Seq<char>>) -> Seq<u32>
    decreases names.len(),
{
    if names.len() == 0 {
        Seq::empty()
    } else {
        match parse_u32(names.last()) {
            Some(p) => parsed_pids(names.drop_last()).push(p),
            None => parsed_pids(names.drop_last()),
        }
    }
}

/// Whether `s` is in ascending order.
pub open spec fn ascending(s: Seq<u32>) -> bool {
    forall|i: int, j: int| 0 <= i < j < s.len() ==> s[i] <= s[j]
}

/// The PIDs that the entry names of `/proc` give: those that read as `u32`,
/// in their order (`Full`), or ascending (`Lite`).
pub fn collect_pids(mode: Mode, names: &Vec<String>) -> (r: Vec<u32>)
    ensures
        mode is Full ==> r@ == parsed_pids(string_views(names@)),
        mode is Lite ==> ascending(r@) && r@.to_multiset() == parsed_pids(
            string_views(names@),
        ).to_multiset(),
{
    let ghost all = string_views(names@);
    let mut pids: Vec<u32> = Vec::new();
    let mut i: usize = 0;
    assert(all.take(0) =~= Seq::<Seq<char>>::empty());
    while i < names.len()
        invariant
            i <= names@.len(),
            all == string_views(names@),
            pids@ == parsed_pids(all.take(i as int)),
        decreases names@.len() - i,
    {
        let ghost next = all.take(i + 1);
        assert(next.drop_last() =~= all.take(i as int));
        assert(next.last() == names@[i as int]@);
        let cs = chars_of(names[i].as_str());
        match parse_u32_chars(&cs) {
            Some(p) => {
                pids.push(p);
            },
            None => {},
        }
        i = i + 1;
    }
    assert(all.take(names@.len() as int) =~= all);
    match mode {
        Mode::Lite => sort_ascending(&pids),
        Mode::Full => pids,
    }
}

/// Every PID read from the entry names comes from one of them.
proof fn lemma_parsed_pid_source(names: Seq<Seq<char>>, x: u32)
    requires
        parsed_pids(names).contains(x),
    ensures
        exists|i: int| 0 <= i < names.len() && #[trigger] parse_u32(names[i]) == Some(x),
    decreases names.len(),
{
    let rest = names.drop_last();
    match parse_u32(names.last()) {
        Some(p) => {
            if x == p {
                assert(parse_u32(names[names.len() - 1]) == Some(x));
            } else {
                let k = choose|k: int| 0 <= k < parsed_pids(names).len() && parsed_pids(names)[k] == x;
                assert(parsed_pids(rest)[k] == x);
                lemma_parsed_pid_source(rest, x);
                let i = choose|i: int| 0 <= i < rest.len() && #[trigger] parse_u32(rest[i]) == Some(x);
                assert(names[i] == rest[i]);
            }
        },
        None => {
            lemma_parsed_pid_source(rest, x);
            let i = choose|i: int| 0 <= i < rest.len() && #[trigger] parse_u32(rest[i]) == Some(x);
            assert(names[i] == rest[i]);
        },
    }
}

/// The PIDs are exactly the numbers that entry names read as: a number is
/// among them when, and only when, some name reads as it.
pub proof fn law_pids_are_the_numeric_entries(names: Seq<Seq<char>>, x: u32)
    ensures
        parsed_pids(names).contains(x) <==> exists|i: int|
            0 <= i < names.len() && #[trigger] parse_u32(names[i]) == Some(x),
    decreases names.len(),
{
    if parsed_pids(names).contains(x) {
        lemma_parsed_pid_source(names, x);
    }
    if exists|i: int| 0 <= i < names.len() && #[trigger] parse_u32(names[i]) == Some(x) {
        let i = choose|i: int| 0 <= i < names.len() && #[trigger] parse_u32(names[i]) == Some(x);
        let rest = names.drop_last();
        if i == names.len() - 1 {
            let s = parsed_pids(names);
            assert(s == parsed_pids(rest).push(x));
            assert(s[s.len() - 1] == x);
        } else {
            assert(rest[i] == names[i]);
            law_pids_are_the_numeric_entries(rest, x);
            let k = choose|k: int| 0 <= k < parsed_pids(rest).len() && parsed_pids(rest)[k] == x;
            match parse_u32(names.last()) {
                Some(p) => {
                    assert(parsed_pids(names)[k] == x);
                },
                None => {},
            }
        }
    }
}

/// Entry names that denote different numbers give PIDs without repeats.
proof fn lemma_parsed_pids_distinct(names: Seq<Seq<char>>)
    requires
        forall|i: int, j: int|
            0 <= i < j < names.len() && parse_u32(names[i]) is Some && parse_u32(names[j]) is Some
                ==> #[trigger] parse_u32(names[i]) != #[trigger] parse_u32(names[j]),
    ensures
        parsed_pids(names).no_duplicates(),
    decreases names.len(),
{
    if names.len() > 0 {
        let rest = names.drop_last();
        assert forall|i: int, j: int|
            0 <= i < j < rest.len() && parse_u32(rest[i]) is Some && parse_u32(rest[j]) is Some
                implies #[trigger] parse_u32(rest[i]) != #[trigger] parse_u32(rest[j]) by {
            assert(rest[i] == names[i] && rest[j] == names[j]);
        }
        lemma_parsed_pids_distinct(rest);
        match parse_u32(names.last()) {
            Some(p) => {
                if parsed_pids(rest).contains(p) {
                    lemma_parsed_pid_source(rest, p);
                    let i = choose|i: int| 0 <= i < rest.len() && #[trigger] parse_u32(rest[i]) == Some(p);
                    assert(rest[i] == names[i]);
                    assert(parse_u32(names[i]) == parse_u32(names[names.len() - 1]));
                    assert(false);
                }
                let s = parsed_pids(rest).push(p);
                assert forall|a: int, b: int| 0 <= a < s.len() && 0 <= b < s.len() && a != b implies s[a]
                    != s[b] by {
                    if a == s.len() - 1 {
                        assert(parsed_pids(rest).contains(s[b]));
                    } else if b == s.len() - 1 {
                        assert(parsed_pids(rest).contains(s[a]));
                    }
                }
            },
            None => {},
        }
    }
}

/// When no two entry names of `/proc` denote the same number, as in the
/// kernel's listing, the PIDs of the classic table come out strictly
/// ascending: no process appears twice.
pub proof fn law_distinct_entries_give_increasing_pids(names: Seq<Seq<char>>, r: Seq<u32>)
    requires
        forall|i: int, j: int|
            0 <= i < j < names.len() && parse_u32(names[i]) is Some && parse_u32(names[j]) is Some
                ==> #[trigger] parse_u32(names[i]) != #[trigger] parse_u32(names[j]),
        ascending(r),
        r.to_multiset() == parsed_pids(names).to_multiset(),
    ensures
        forall|i: int, j: int| 0 <= i < j < r.len() ==> r[i] < r[j],
{
    lemma_parsed_pids_distinct(names);
    parsed_pids(names).lemma_multiset_has_no_duplicates();
    r.lemma_multiset_has_no_duplicates_conv();
    assert forall|i: int, j: int| 0 <= i < j < r.len() implies r[i] < r[j] by {
        assert(r[i] <= r[j]);
        assert(r[i] != r[j]);
    }
}

/// The values of `v` in ascending order.
pub fn sort_ascending(v: &Vec<u32>) -> (r: Vec<u32>)
    ensures
        ascending(r@),
        r@.to_multiset() == v@.to_multiset(),
{
    let mut out: Vec<u32> = Vec::new();
    let mut i: usize = 0;
    assert(v@.take(0) =~= Seq::<u32>::empty());
    while i < v.len()
        invariant
            i <= v@.len(),
            ascending(out@),
            out@.to_multiset() == v@.take(i as int).to_multiset(),
        decreases v@.len() - i,
    {
        let x = v[i];
        let mut p: usize = 0;
        while p < out.len() && out[p] <= x
            invariant
                p <= out@.len(),
                forall|k: int| 0 <= k < p ==> out@[k] <= x,
            decreases out@.len() - p,
        {
            p = p + 1;
        }
        let ghost before = out@;
        out.insert(p, x);
        assert(out@ == before.insert(p as int, x));
        assert forall|a: int, b: int| 0 <= a < b < out@.len() implies out@[a] <= out@[b] by {
            if b < p {
            } else if b == p {
            } else if a < p {
                assert(out@[b] == before[b - 1]);
            } else if a == p {
                assert(out@[b] == before[b - 1]);
                assert(before[p as int] > x);
            } else {
                assert(out@[b] == before[b - 1]);
                assert(out@[a] == before[a - 1]);
            }
        }
        assert(v@.take(i + 1) =~= v@.take(i as int).push(x));
        proof {
            vstd::seq_lib::to_multiset_insert(before, p as int, x);
            vstd::seq_lib::to_multiset_build(v@.take(i as int), x);
        }
        i = i + 1;
    }
    assert(v@.take(v@.len() as int) =~= v@);
    out
}

} // verus!
