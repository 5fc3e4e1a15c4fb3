//! What the process table shows: sizes, process states and their colours,
//! shortened names, and the age of the last refresh.

use vstd::prelude::*;
use crate::text::{chars_of, push_chars, string_of};
use crate::number::{decimal, digit_char, digit_of, push_decimal};
use crate::procinfo::Mode;
use vstd::utf8::{encode_scalar, encode_utf8};

verus! {

// ---------------------------------------------------------------------
// Sizes
// ---------------------------------------------------------------------

/// The spacing of the `f64` values around `kb`: 1 below 2^53, doubling
/// with each further binary digit.
pub open spec fn double_spacing(kb: nat) -> nat
    decreases kb,
{
    if kb < 0x20_0000_0000_0000 {
        1
    } else {
        2 * double_spacing(kb / 2)
    }
}

/// `n / d` rounded to the nearest integer, halves to the even one.
pub open spec fn round_half_even(n: nat, d: nat) -> nat
    recommends
        d > 0,
{
    let q = n / d;
    let r = n % d;
    if 2 * r > d || (2 * r == d && q % 2 == 1) {
        q + 1
    } else {
        q
    }
}

/// The value of `kb as f64`: `kb` rounded to the nearest multiple of the
/// spacing, halves to the even multiple.
pub open spec fn as_double(kb: nat) -> nat {
    round_half_even(kb, double_spacing(kb)) * double_spacing(kb)
}

/// `value / unit` in tenths, rounded as `{:.1}` rounds the exact binary
/// value: to the nearest tenth, halves to the even tenth.
pub open spec fn tenths(value: nat, unit: nat) -> nat {
    round_half_even(10 * value, unit)
}

/// A count of tenths written with one decimal place.
pub open spec fn one_decimal(t: nat) -> Seq<char> {
    decimal(t / 10) + seq!['.', digit_char(t % 10)]
}

/// The text that the table shows for a size of `kb` kilobytes: GB with one
/// decimal from 1 048 576 kB, MB with one decimal from 1024 kB, else whole KB.
pub open spec fn ram_text(kb: u64) -> Seq<char> {
    if kb >= 1048576 {
        one_decimal(tenths(as_double(kb as nat), 1048576)) + " GB"@
    } else if kb >= 1024 {
        one_decimal(tenths(as_double(kb as nat), 1024)) + " MB"@
    } else {
        decimal(kb as nat) + " KB"@
    }
}

/// Above 2^53 the spacing still leaves at least 2^52 steps below `kb`.
proof fn lemma_double_spacing(kb: nat)
    ensures
        double_spacing(kb) >= 1,
        kb >= 0x20_0000_0000_0000 ==> kb / double_spacing(kb) >= 0x10_0000_0000_0000,
    decreases kb,
{
    if kb >= 0x20_0000_0000_0000 {
        let h = kb / 2;
        lemma_double_spacing(h);
        let d = double_spacing(h);
        if h >= 0x20_0000_0000_0000 {
            vstd::arithmetic::div_mod::lemma_div_denominator(kb as int, 2, d as int);
        } else {
            assert(d == 1);
        }
    }
}

/// Comparing `kb as f64` with a threshold of at most 2^52 kB, as the
/// modern table picks the unit, agrees with comparing `kb` itself, as the
/// classic table does: both tables pick the same unit for every size.
pub proof fn law_double_thresholds(kb: u64, threshold: nat)
    requires
        threshold <= 0x10_0000_0000_0000,
    ensures
        (as_double(kb as nat) >= threshold) == (kb >= threshold),
{
    lemma_double_spacing(kb as nat);
    let d = double_spacing(kb as nat);
    let q = (kb as nat) / d;
    if kb < 0x20_0000_0000_0000 {
        assert(d == 1);
        let n = kb as nat;
        assert(n / 1 == n && n % 1 == 0) by (nonlinear_arith);
        assert(round_half_even(kb as nat, 1) == kb);
    } else {
        assert(round_half_even(kb as nat, d) >= q);
        assert(round_half_even(kb as nat, d) * d >= threshold) by (nonlinear_arith)
            requires
                round_half_even(kb as nat, d) >= q,
                q >= 0x10_0000_0000_0000,
                d >= 1,
                threshold <= 0x10_0000_0000_0000,
        ;
    }
}

/// The rounded quotient is within half a divisor of the exact one.
proof fn lemma_round_half_even_near(n: nat, d: nat)
    requires
        d > 0,
    ensures
        round_half_even(n, d) * d <= n + d / 2 + d % 2,
        n <= round_half_even(n, d) * d + d / 2,
{
    let q = n / d;
    let r = n % d;
    vstd::arithmetic::div_mod::lemma_fundamental_div_mod(n as int, d as int);
    assert(0 <= r < d) by {
        vstd::arithmetic::div_mod::lemma_mod_bound(n as int, d as int);
    }
    assert((q + 1) * d == q * d + d) by (nonlinear_arith);
}

/// How a size is shown: below 1024 kB as whole KB; below 2^53 kB in MB or
/// GB with one decimal, the shown tenths being the nearest to the exact
/// size (within half a tenth); from 1024 kB on, MB below 1 048 576 kB and
/// GB from there.
pub proof fn law_ram_text(kb: u64)
    ensures
        kb < 1024 ==> ram_text(kb) == decimal(kb as nat) + " KB"@,
        1024 <= kb < 1048576 ==> exists|t: nat|
            ram_text(kb) == #[trigger] one_decimal(t) + " MB"@ && t * 1024 <= 10 * kb + 512 && 10
                * kb <= t * 1024 + 512,
        1048576 <= kb < 0x20_0000_0000_0000 ==> exists|t: nat|
            ram_text(kb) == #[trigger] one_decimal(t) + " GB"@ && t * 1048576 <= 10 * kb + 524288
                && 10 * kb <= t * 1048576 + 524288,
        forall|t: nat| #[trigger] one_decimal(t) == decimal(t / 10) + seq!['.', digit_char(t % 10)],
{
    if kb >= 1024 && kb < 0x20_0000_0000_0000 {
        let n = kb as nat;
        assert(double_spacing(n) == 1);
        assert(n / 1 == n && n % 1 == 0) by (nonlinear_arith);
        assert(as_double(n) == n);
        if kb < 1048576 {
            let t = tenths(n, 1024);
            lemma_round_half_even_near(10 * n, 1024);
            assert(ram_text(kb) == one_decimal(t) + " MB"@);
        } else {
            let t = tenths(n, 1048576);
            lemma_round_half_even_near(10 * n, 1048576);
            assert(ram_text(kb) == one_decimal(t) + " GB"@);
        }
    }
}

/// `kb as f64`, as an integer.
fn double_value(kb: u64) -> (r: u128)
    ensures
        r == as_double(kb as nat),
        r <= 2 * kb + 1,
{
    let mut t: u64 = kb;
    let mut d: u128 = 1;
    let mut low: u128 = 0;
    while t >= 0x20_0000_0000_0000
        invariant
            kb == t * d + low,
            low < d,
            1 <= d <= kb + 1,
            double_spacing(kb as nat) == d * double_spacing(t as nat),
        decreases t,
    {
        let b = t % 2;
        let t2 = t / 2;
        assert(double_spacing(t as nat) == 2 * double_spacing(t2 as nat));
        assert(t == 2 * t2 + b);
        let ghost old_d = d;
        let ghost old_low = low;
        proof {
            assert(kb == t2 * (2 * old_d) + (b * old_d + old_low)) by (nonlinear_arith)
                requires
                    kb == t * old_d + old_low,
                    t == 2 * t2 + b,
            ;
            assert(b * old_d + old_low < 2 * old_d) by (nonlinear_arith)
                requires
                    b <= 1,
                    old_low < old_d,
            ;
            assert(old_d * double_spacing(t as nat) == (2 * old_d) * double_spacing(t2 as nat))
                by (nonlinear_arith)
                requires
                    double_spacing(t as nat) == 2 * double_spacing(t2 as nat),
            ;
            assert(2 * old_d <= kb + 1) by (nonlinear_arith)
                requires
                    kb == t2 * (2 * old_d) + (b * old_d + old_low),
                    t2 >= 1,
            ;
        }
        low = low + (b as u128) * d;
        d = d * 2;
        t = t2;
    }
    assert(double_spacing(t as nat) == 1);
    let ghost sp = double_spacing(t as nat);
    assert(double_spacing(kb as nat) == d) by (nonlinear_arith)
        requires
            double_spacing(kb as nat) == d * sp,
            sp == 1,
    ;
    proof {
        vstd::arithmetic::div_mod::lemma_fundamental_div_mod_converse(
            kb as int,
            d as int,
            t as int,
            low as int,
        );
    }
    let q = t as u128;
    let q2 = if 2 * low > d || (2 * low == d && q % 2 == 1) {
        q + 1
    } else {
        q
    };
    proof {
        assert(q2 * d <= kb + d) by (nonlinear_arith)
            requires
                kb == q * d + low,
                q2 <= q + 1,
                low >= 0,
        ;
    }
    assert(round_half_even(kb as nat, d as nat) == q2);
    q2 * d
}

/// `n / d` rounded to the nearest integer, halves to the even one.
fn round_div(n: u128, d: u128) -> (r: u128)
    requires
        d > 0,
        n <= 0xFFFF_FFFF_FFFF_FFFF_FFFF,
    ensures
        r == round_half_even(n as nat, d as nat),
{
    let q = n / d;
    let r = n % d;
    assert(q <= n) by (nonlinear_arith)
        requires
            d > 0,
            q == n / d,
    ;
    if r > d - r || (r == d - r && q % 2 == 1) {
        q + 1
    } else {
        q
    }
}

/// Writes a size in kilobytes for display (`fmt_ram` of the table).
pub fn fmt_ram(kb: u64) -> (r: String)
    ensures
        r@ == ram_text(kb),
{
    let mut out: Vec<char> = Vec::new();
    if kb >= 1024 {
        let unit: u128 = if kb >= 1048576 {
            1048576
        } else {
            1024
        };
        let v = double_value(kb);
        let t = round_div(10 * v, unit);
        push_decimal(&mut out, t / 10);
        out.push('.');
        out.push(digit_of(t % 10));
        let suffix = chars_of(
            if kb >= 1048576 {
                " GB"
            } else {
                " MB"
            },
        );
        let mut s = string_of(&out);
        push_chars(&mut s, &suffix);
        assert(s@ =~= ram_text(kb));
        s
    } else {
        push_decimal(&mut out, kb as u128);
        let suffix = chars_of(" KB");
        let mut s = string_of(&out);
        push_chars(&mut s, &suffix);
        assert(s@ =~= ram_text(kb));
        s
    }
}



// ---------------------------------------------------------------------
// Process states
// ---------------------------------------------------------------------

/// An opaque colour given by its red, green and blue components.
#[derive(Clone, Copy, Debug, PartialEq, Eq, Structural)]
pub struct Rgb {
    pub r: u8,
    pub g: u8,
    pub b: u8,
}

/// The kind of a process state letter of `/proc/<pid>/status`.
#[derive(Clone, Copy, Debug, PartialEq, Eq, Structural)]
pub enum StateKind {
    Running,
    Sleep,
    Disk,
    Zombie,
    Stopped,
    Idle,
    Other,
}

/// The kind that a state letter names.
pub open spec fn kind_of(c: char) -> StateKind {
    if c == 'R' {
        StateKind::Running
    } else if c == 'S' {
        StateKind::Sleep
    } else if c == 'D' {
        StateKind::Disk
    } else if c == 'Z' {
        StateKind::Zombie
    } else if c == 'T' {
        StateKind::Stopped
    } else if c == 'I' {
        StateKind::Idle
    } else {
        StateKind::Other
    }
}

/// The kind that the state letter `c` names.
pub fn state_kind(c: char) -> (k: StateKind)
    ensures
        k == kind_of(c),
{
    if c == 'R' {
        StateKind::Running
    } else if c == 'S' {
        StateKind::Sleep
    } else if c == 'D' {
        StateKind::Disk
    } else if c == 'Z' {
        StateKind::Zombie
    } else if c == 'T' {
        StateKind::Stopped
    } else if c == 'I' {
        StateKind::Idle
    } else {
        StateKind::Other
    }
}

/// The six state letters of the kernel name six different kinds, and
/// every other character is an unknown state.
pub proof fn law_state_letters(c: char)
    ensures
        kind_of('R') == StateKind::Running,
        kind_of('S') == StateKind::Sleep,
        kind_of('D') == StateKind::Disk,
        kind_of('Z') == StateKind::Zombie,
        kind_of('T') == StateKind::Stopped,
        kind_of('I') == StateKind::Idle,
        c != 'R' && c != 'S' && c != 'D' && c != 'Z' && c != 'T' && c != 'I' ==> kind_of(c)
            == StateKind::Other,
{
}

/// The label of a state in the given mode: `Lite` calls the disk wait
/// "Disk I/O", `Full` calls it "Disk".
pub open spec fn label_of(mode: Mode, k: StateKind) -> Seq<char> {
    match k {
        StateKind::Running => "Running"@,
        StateKind::Sleep => "Sleep"@,
        StateKind::Disk => match mode {
            Mode::Lite => "Disk I/O"@,
            Mode::Full => "Disk"@,
        },
        StateKind::Zombie => "Zombie"@,
        StateKind::Stopped => "Stopped"@,
        StateKind::Idle => "Idle"@,
        StateKind::Other => "Other"@,
    }
}

fn label_for(mode: Mode, k: StateKind) -> (r: &'static str)
    ensures
        r@ == label_of(mode, k),
{
    match k {
        StateKind::Running => "Running",
        StateKind::Sleep => "Sleep",
        StateKind::Disk => match mode {
            Mode::Lite => "Disk I/O",
            Mode::Full => "Disk",
        },
        StateKind::Zombie => "Zombie",
        StateKind::Stopped => "Stopped",
        StateKind::Idle => "Idle",
        StateKind::Other => "Other",
    }
}

/// The label of the state letter `c` in the classic table.
pub fn state_label(c: char) -> (r: &'static str)
    ensures
        r@ == label_of(Mode::Lite, kind_of(c)),
{
    label_for(Mode::Lite, state_kind(c))
}

/// Each kind has its own label in both tables, the two tables differing
/// only on the disk wait; idle and unknown states get a hollow dot, the
/// others a full one.
pub proof fn law_state_labels(mode: Mode, c: char)
    ensures
        label_of(mode, StateKind::Running) == "Running"@,
        label_of(mode, StateKind::Sleep) == "Sleep"@,
        label_of(Mode::Lite, StateKind::Disk) == "Disk I/O"@,
        label_of(Mode::Full, StateKind::Disk) == "Disk"@,
        label_of(mode, StateKind::Zombie) == "Zombie"@,
        label_of(mode, StateKind::Stopped) == "Stopped"@,
        label_of(mode, StateKind::Idle) == "Idle"@,
        label_of(mode, StateKind::Other) == "Other"@,
        (c == 'I' || (c != 'R' && c != 'S' && c != 'D' && c != 'Z' && c != 'T')) <==> dot_of(c)
            == "\u{25CB}"@,
{
    reveal_strlit("\u{25CB}");
    reveal_strlit("\u{25CF}");
    assert(("\u{25CB}"@)[0] != ("\u{25CF}"@)[0]);
}

/// The dot shown before a state: hollow for idle and unknown states.
pub open spec fn dot_of(c: char) -> Seq<char> {
    match kind_of(c) {
        StateKind::Idle | StateKind::Other => "\u{25CB}"@,
        _ => "\u{25CF}"@,
    }
}

/// The dot shown before the state letter `c` in the classic table.
pub fn state_dot(c: char) -> (r: &'static str)
    ensures
        r@ == dot_of(c),
{
    match state_kind(c) {
        StateKind::Idle | StateKind::Other => "\u{25CB}",
        _ => "\u{25CF}",
    }
}

/// The colour of a state in the given mode.
pub open spec fn color_of(mode: Mode, k: StateKind) -> Rgb {
    match mode {
        Mode::Lite => match k {
            StateKind::Running => Rgb { r: 80, g: 230, b: 130 },
            StateKind::Sleep => Rgb { r: 100, g: 160, b: 255 },
            StateKind::Disk => Rgb { r: 230, g: 200, b: 80 },
            StateKind::Zombie => Rgb { r: 255, g: 80, b: 80 },
            StateKind::Stopped => Rgb { r: 190, g: 140, b: 255 },
            StateKind::Idle => Rgb { r: 120, g: 120, b: 140 },
            StateKind::Other => Rgb { r: 90, g: 90, b: 110 },
        },
        Mode::Full => match k {
            StateKind::Running => Rgb { r: 74, g: 222, b: 128 },
            StateKind::Sleep => Rgb { r: 96, g: 165, b: 250 },
            StateKind::Disk => Rgb { r: 250, g: 204, b: 21 },
            StateKind::Zombie => Rgb { r: 248, g: 113, b: 113 },
            StateKind::Stopped => Rgb { r: 167, g: 139, b: 250 },
            StateKind::Idle => Rgb { r: 100, g: 116, b: 139 },
            StateKind::Other => Rgb { r: 148, g: 163, b: 184 },
        },
    }
}

fn color_for(mode: Mode, k: StateKind) -> (r: Rgb)
    ensures
        r == color_of(mode, k),
{
    match mode {
        Mode::Lite => match k {
            StateKind::Running => Rgb { r: 80, g: 230, b: 130 },
            StateKind::Sleep => Rgb { r: 100, g: 160, b: 255 },
            StateKind::Disk => Rgb { r: 230, g: 200, b: 80 },
            StateKind::Zombie => Rgb { r: 255, g: 80, b: 80 },
            StateKind::Stopped => Rgb { r: 190, g: 140, b: 255 },
            StateKind::Idle => Rgb { r: 120, g: 120, b: 140 },
            StateKind::Other => Rgb { r: 90, g: 90, b: 110 },
        },
        Mode::Full => match k {
            StateKind::Running => Rgb { r: 74, g: 222, b: 128 },
            StateKind::Sleep => Rgb { r: 96, g: 165, b: 250 },
            StateKind::Disk => Rgb { r: 250, g: 204, b: 21 },
            StateKind::Zombie => Rgb { r: 248, g: 113, b: 113 },
            StateKind::Stopped => Rgb { r: 167, g: 139, b: 250 },
            StateKind::Idle => Rgb { r: 100, g: 116, b: 139 },
            StateKind::Other => Rgb { r: 148, g: 163, b: 184 },
        },
    }
}

/// The colour of the state letter `c` in the classic table.
pub fn state_color(c: char) -> (r: Rgb)
    ensures
        r == color_of(Mode::Lite, kind_of(c)),
{
    color_for(Mode::Lite, state_kind(c))
}

/// The label and colour of the state letter `c` in the modern table.
pub fn state_info(c: char) -> (r: (&'static str, Rgb))
    ensures
        r.0@ == label_of(Mode::Full, kind_of(c)),
        r.1 == color_of(Mode::Full, kind_of(c)),
{
    let k = state_kind(c);
    (label_for(Mode::Full, k), color_for(Mode::Full, k))
}


// ---------------------------------------------------------------------
// Names
// ---------------------------------------------------------------------

/// The length in bytes of the UTF-8 encoding of `s` (what `str::len` gives).
pub open spec fn utf8_len(s: Seq<char>) -> nat {
    encode_utf8(s).len()
}

/// Whether a prefix of `s` is exactly `n` bytes long.
pub open spec fn has_cut_at(s: Seq<char>, n: int) -> bool {
    exists|k: int| 0 <= k <= s.len() && #[trigger] utf8_len(s.take(k)) == n
}

/// The encoding of `s` followed by `c` is that of `s` followed by that of `c`.
pub proof fn lemma_encode_push(s: Seq<char>, c: char)
    ensures
        encode_utf8(s.push(c)) == encode_utf8(s) + encode_scalar(c as u32),
    decreases s.len(),
{
    if s.len() == 0 {
        let t = s.push(c);
        assert(t.drop_first() =~= Seq::<char>::empty());
        assert(t[0] == c);
        assert(encode_utf8(t.drop_first()) =~= Seq::<u8>::empty());
        assert(encode_utf8(s) =~= Seq::<u8>::empty());
        assert(encode_utf8(t) =~= encode_scalar(c as u32) + encode_utf8(t.drop_first()));
        assert(encode_utf8(s.push(c)) =~= encode_utf8(s) + encode_scalar(c as u32));
    } else {
        assert(s.push(c).drop_first() =~= s.drop_first().push(c));
        lemma_encode_push(s.drop_first(), c);
        assert(encode_utf8(s.push(c)) =~= encode_utf8(s) + encode_scalar(c as u32));
    }
}

/// Longer prefixes take more bytes.
pub proof fn lemma_utf8_len_grows(s: Seq<char>, i: int, j: int)
    requires
        0 <= i <= j <= s.len(),
    ensures
        utf8_len(s.take(i)) <= utf8_len(s.take(j)),
        i < j ==> utf8_len(s.take(i)) < utf8_len(s.take(j)),
    decreases j - i,
{
    if i < j {
        lemma_utf8_len_grows(s, i, j - 1);
        assert(s.take(j) =~= s.take(j - 1).push(s[j - 1]));
        lemma_encode_push(s.take(j - 1), s[j - 1]);
        vstd::utf8::char_is_scalar(s[j - 1]);
    }
}

/// The number of bytes in the UTF-8 encoding of `c`.
fn utf8_width(c: char) -> (w: usize)
    ensures
        w == encode_scalar(c as u32).len(),
        1 <= w <= 4,
{
    proof {
        vstd::utf8::char_is_scalar(c);
    }
    let u = c as u32;
    if u <= 0x7F {
        1
    } else if u <= 0x7FF {
        2
    } else if u <= 0xFFFF {
        3
    } else {
        4
    }
}

/// A name shortened for the table: unchanged when it takes at most `max`
/// bytes, else its first `max - 3` bytes followed by `"..."`. Cutting a
/// longer name needs `max >= 3` and a character boundary at `max - 3`;
/// without them the cut panics.
pub fn truncate_name(name: &str, max: usize) -> (r: String)
    requires
        utf8_len(name@) > max ==> max >= 3 && has_cut_at(name@, max - 3),
    ensures
        utf8_len(name@) <= max ==> r@ == name@,
        utf8_len(r@) <= max,
        utf8_len(name@) > max ==> exists|k: int|
            0 <= k <= name@.len() && utf8_len(name@.take(k)) == max - 3 && r@ == name@.take(k)
                + seq!['.', '.', '.'],
{
    let cs = chars_of(name);
    let n = cs.len();
    let mut total: u128 = 0;
    let mut j: usize = 0;
    assert(name@.take(0) =~= Seq::<char>::empty());
    while j < n
        invariant
            n == cs@.len(),
            cs@ == name@,
            j <= n,
            total == utf8_len(name@.take(j as int)),
            total <= 4 * j,
        decreases n - j,
    {
        proof {
            assert(name@.take(j + 1) =~= name@.take(j as int).push(name@[j as int]));
            lemma_encode_push(name@.take(j as int), name@[j as int]);
        }
        let w = utf8_width(cs[j]);
        total = total + w as u128;
        j = j + 1;
    }
    assert(name@.take(n as int) =~= name@);
    if total <= max as u128 {
        return string_of(&cs);
    }
    let target = max - 3;
    let ghost k0 = choose|k: int| 0 <= k <= name@.len() && #[trigger] utf8_len(name@.take(k))
        == target;
    let mut i: usize = 0;
    let mut bytes: usize = 0;
    assert(name@.take(0) =~= Seq::<char>::empty());
    while bytes < target
        invariant
            cs@ == name@,
            n == cs@.len(),
            0 <= k0 <= name@.len(),
            utf8_len(name@.take(k0)) == target,
            i <= k0,
            bytes == utf8_len(name@.take(i as int)),
            bytes <= target,
        decreases target - bytes,
    {
        proof {
            if i == k0 {
                assert(false);
            }
            lemma_utf8_len_grows(name@, i + 1, k0);
            assert(name@.take(i + 1) =~= name@.take(i as int).push(name@[i as int]));
            lemma_encode_push(name@.take(i as int), name@[i as int]);
        }
        let w = utf8_width(cs[i]);
        bytes = bytes + w;
        i = i + 1;
    }
    let head = crate::text::slice_chars(&cs, 0, i);
    assert(head@ =~= name@.take(i as int));
    let mut out = head;
    out.push('.');
    out.push('.');
    out.push('.');
    assert(out@ =~= name@.take(i as int) + seq!['.', '.', '.']);
    proof {
        let t = name@.take(i as int);
        lemma_encode_push(t, '.');
        lemma_encode_push(t.push('.'), '.');
        lemma_encode_push(t.push('.').push('.'), '.');
        assert(encode_scalar('.' as u32).len() == 1);
        assert(out@ =~= t.push('.').push('.').push('.'));
    }
    string_of(&out)
}

// ---------------------------------------------------------------------
// Footer
// ---------------------------------------------------------------------

/// How the footer tells the time since the last refresh: `Lite` splits it
/// into seconds and milliseconds once it reaches a second.
pub open spec fn updated_text(mode: Mode, ms: nat) -> Seq<char> {
    match mode {
        Mode::Lite => if ms / 1000 > 0 {
            "Atualizado "@ + decimal(ms / 1000) + "s "@ + decimal(ms % 1000) + "ms atr\u{00E1}s"@
        } else {
            "Atualizado "@ + decimal(ms % 1000) + "ms atr\u{00E1}s"@
        },
        Mode::Full => "atualizado h\u{00E1} "@ + decimal(ms) + "ms"@,
    }
}

/// The footer's text for `elapsed_ms` milliseconds since the last refresh.
pub fn updated_ago_text(mode: Mode, elapsed_ms: u128) -> (r: String)
    ensures
        r@ == updated_text(mode, elapsed_ms as nat),
{
    let mut out: Vec<char> = Vec::new();
    match mode {
        Mode::Lite => {
            let secs = elapsed_ms / 1000;
            let ms = elapsed_ms % 1000;
            let mut s = string_of(&chars_of("Atualizado "));
            if secs > 0 {
                push_decimal(&mut out, secs);
                push_chars(&mut s, &out);
                push_chars(&mut s, &chars_of("s "));
                out = Vec::new();
            }
            push_decimal(&mut out, ms);
            push_chars(&mut s, &out);
            push_chars(&mut s, &chars_of("ms atr\u{00E1}s"));
            proof {
                if secs > 0 {
                    assert(s@ =~= updated_text(mode, elapsed_ms as nat));
                } else {
                    assert(s@ =~= updated_text(mode, elapsed_ms as nat));
                }
            }
            s
        },
        Mode::Full => {
            let mut s = string_of(&chars_of("atualizado h\u{00E1} "));
            push_decimal(&mut out, elapsed_ms);
            push_chars(&mut s, &out);
            push_chars(&mut s, &chars_of("ms"));
            assert(s@ =~= updated_text(mode, elapsed_ms as nat));
            s
        },
    }
}

} // verus!
