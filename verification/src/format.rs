//! Text shown to the user: byte counts, remaining time, progress and the
//! closing message of a backup.
use vstd::prelude::*;
use crate::text::{decimal, digit, push_decimal, push_char, push_str, decimal_string};
use crate::sync::Tally;
use crate::winpath::{file_name, file_name_of};

verus! {

/// `n / d` rounded to the nearest integer, ties to the even one.
pub open spec fn round_half_even(n: nat, d: nat) -> nat {
    let q = n / d;
    let r = n % d;
    if 2 * r > d || (2 * r == d && q % 2 == 1) {
        q + 1
    } else {
        q
    }
}

/// The distance between neighbouring `f64` values near `b`: 1 below 2^53,
/// doubling with each power of two above.
pub open spec fn f64_spacing(b: nat) -> nat {
    if b < 0x20_0000_0000_0000 {
        1
    } else if b < 0x40_0000_0000_0000 {
        2
    } else if b < 0x80_0000_0000_0000 {
        4
    } else if b < 0x100_0000_0000_0000 {
        8
    } else if b < 0x200_0000_0000_0000 {
        16
    } else if b < 0x400_0000_0000_0000 {
        32
    } else if b < 0x800_0000_0000_0000 {
        64
    } else if b < 0x1000_0000_0000_0000 {
        128
    } else if b < 0x2000_0000_0000_0000 {
        256
    } else if b < 0x4000_0000_0000_0000 {
        512
    } else if b < 0x8000_0000_0000_0000 {
        1024
    } else {
        2048
    }
}

/// `b` converted to `f64`: the nearest `f64` value, ties to even.
pub open spec fn as_f64(b: nat) -> nat {
    round_half_even(b, f64_spacing(b)) * f64_spacing(b)
}

/// Which unit a byte count is shown in: 0 for B, then KB, MB, GB, and 4 for
/// TB at most.
pub open spec fn unit_index(b: nat) -> nat {
    if b < 1024 {
        0
    } else if b < 1048576 {
        1
    } else if b < 1073741824 {
        2
    } else if b < 1099511627776 {
        3
    } else {
        4
    }
}

/// 1024 to the power `i`, for the units used.
pub open spec fn unit_scale(i: nat) -> nat {
    if i == 0 {
        1
    } else if i == 1 {
        1024
    } else if i == 2 {
        1048576
    } else if i == 3 {
        1073741824
    } else {
        1099511627776
    }
}

pub open spec fn unit_name(i: nat) -> Seq<char> {
    if i == 0 {
        seq!['B']
    } else if i == 1 {
        seq!['K', 'B']
    } else if i == 2 {
        seq!['M', 'B']
    } else if i == 3 {
        seq!['G', 'B']
    } else {
        seq!['T', 'B']
    }
}

/// The byte count in tenths of its unit, rounded to nearest, ties to even.
pub open spec fn tenths(b: nat) -> nat {
    round_half_even(10 * as_f64(b), unit_scale(unit_index(b)))
}

/// A byte count as shown: below 1024 the exact count ("512 B"), above it the
/// value in the largest unit up to TB that keeps it at least 1, with one
/// decimal ("1.5 KB", "3.0 GB").
pub open spec fn bytes_text(b: nat) -> Seq<char> {
    if b < 1024 {
        decimal(b) + seq![' ', 'B']
    } else {
        decimal(tenths(b) / 10) + seq!['.', digit(tenths(b) % 10), ' '] + unit_name(
            unit_index(b),
        )
    }
}

fn round_half_even_exec(n: u128, d: u128) -> (r: u128)
    requires
        0 < d <= 0x1_0000_0000_0000_0000,
    ensures
        r == round_half_even(n as nat, d as nat),
{
    let q = n / d;
    let r = n % d;
    if 2 * r > d || (2 * r == d && q % 2 == 1) {
        assert(r > 0);
        assert(d >= 2);
        assert(q <= n / 2) by {
            vstd::arithmetic::div_mod::lemma_div_is_ordered_by_denominator(n as int, 2, d as int);
        }
        q + 1
    } else {
        q
    }
}

fn f64_spacing_exec(b: u64) -> (s: u128)
    ensures
        s == f64_spacing(b as nat),
        1 <= s <= 2048,
        b < 0x20_0000_0000_0000 * s,
{
    if b < 0x20_0000_0000_0000 {
        1
    } else if b < 0x40_0000_0000_0000 {
        2
    } else if b < 0x80_0000_0000_0000 {
        4
    } else if b < 0x100_0000_0000_0000 {
        8
    } else if b < 0x200_0000_0000_0000 {
        16
    } else if b < 0x400_0000_0000_0000 {
        32
    } else if b < 0x800_0000_0000_0000 {
        64
    } else if b < 0x1000_0000_0000_0000 {
        128
    } else if b < 0x2000_0000_0000_0000 {
        256
    } else if b < 0x4000_0000_0000_0000 {
        512
    } else if b < 0x8000_0000_0000_0000 {
        1024
    } else {
        2048
    }
}

/// `b` converted to `f64`, as an integer, and a bound on it.
fn nearest_f64(b: u64) -> (f: u128)
    ensures
        f == as_f64(b as nat),
        f <= 0x1_0000_0000_0000_0000,
{
    let s = f64_spacing_exec(b);
    let m = round_half_even_exec(b as u128, s);
    assert(b as nat / s as nat <= 0x1f_ffff_ffff_ffff) by {
        vstd::arithmetic::div_mod::lemma_div_is_ordered(
            b as int,
            0x20_0000_0000_0000 * s - 1,
            s as int,
        );
        assert((0x20_0000_0000_0000 * s - 1) / (s as int) == 0x1f_ffff_ffff_ffff) by (nonlinear_arith)
            requires 1 <= s <= 2048;
    }
    assert(m <= 0x20_0000_0000_0000);
    assert(m * s <= 0x1_0000_0000_0000_0000) by (nonlinear_arith)
        requires
            m <= 0x20_0000_0000_0000,
            1 <= s <= 2048,
    ;
    m * s
}

fn unit_of(b: u64) -> (r: (u128, &'static str))
    requires
        b >= 1024,
    ensures
        r.0 == unit_scale(unit_index(b as nat)),
        r.1@ == unit_name(unit_index(b as nat)),
{
    proof {
        reveal_strlit("KB");
        reveal_strlit("MB");
        reveal_strlit("GB");
        reveal_strlit("TB");
    }
    if b < 1048576 {
        (1024, "KB")
    } else if b < 1073741824 {
        (1048576, "MB")
    } else if b < 1099511627776 {
        (1073741824, "GB")
    } else {
        (1099511627776, "TB")
    }
}

/// A byte count as the user sees it: "512 B", "1.5 KB", "3.0 GB". Below
/// 1024 the exact count; above, the count converted to `f64` is divided by
/// 1024 per unit (up to TB) and shown with one decimal, rounded to nearest
/// with ties to even.
pub fn fmt_bytes(b: u64) -> (s: String)
    ensures
        s@ == bytes_text(b as nat),
{
    proof {
        reveal_strlit(" B");
    }
    if b < 1024 {
        let mut s = decimal_string(b);
        push_str(&mut s, " B");
        return s;
    }
    let f = nearest_f64(b);
    let (scale, unit) = unit_of(b);
    let t = round_half_even_exec(10 * f, scale);
    assert(t as int <= (10 * f) as int / scale as int + 1);
    assert((10 * f) as int / scale as int <= 0xa_0000_0000_0000_0000int / 1024) by {
        vstd::arithmetic::div_mod::lemma_div_is_ordered(
            (10 * f) as int,
            0xa_0000_0000_0000_0000int,
            scale as int,
        );
        vstd::arithmetic::div_mod::lemma_div_is_ordered_by_denominator(
            0xa_0000_0000_0000_0000int,
            1024,
            scale as int,
        );
    }
    let t64 = t as u64;
    let mut s = String::new();
    push_decimal(&mut s, t64 / 10);
    push_char(&mut s, '.');
    push_char(&mut s, crate::text::digit_char(t64 % 10));
    push_char(&mut s, ' ');
    push_str(&mut s, unit);
    assert(s@ =~= bytes_text(b as nat));
    s
}

/// Time left as shown: "20 s left" under a minute, "2 min left" (minutes
/// rounded up) under an hour, "1h 5m left" (whole hours and minutes) above.
pub open spec fn eta_text(secs: nat) -> Seq<char> {
    if secs < 60 {
        decimal(secs) + " s left"@
    } else if secs < 3600 {
        decimal((secs + 59) / 60) + " min left"@
    } else {
        decimal(secs / 3600) + "h "@ + decimal(secs % 3600 / 60) + "m left"@
    }
}

/// The time left of a backup, `secs` seconds, as the user sees it.
pub fn fmt_eta(secs: u64) -> (s: String)
    ensures
        s@ == eta_text(secs as nat),
{
    let mut s = String::new();
    if secs < 60 {
        push_decimal(&mut s, secs);
        push_str(&mut s, " s left");
    } else if secs < 3600 {
        push_decimal(&mut s, (secs + 59) / 60);
        push_str(&mut s, " min left");
    } else {
        push_decimal(&mut s, secs / 3600);
        push_str(&mut s, "h ");
        push_decimal(&mut s, secs % 3600 / 60);
        push_str(&mut s, "m left");
    }
    assert(s@ =~= eta_text(secs as nat));
    s
}

/// The progress line: bytes done, bytes in all, and the percentage.
pub open spec fn progress_line(done_bytes: nat, total_bytes: nat, percent: nat) -> Seq<char> {
    bytes_text(done_bytes) + " / "@ + bytes_text(total_bytes) + " · "@ + decimal(percent) + "%"@
}

/// "1.5 KB / 3.0 GB · 12%": the bytes copied, the bytes to copy, and the
/// percentage done (computed by the caller from the two counts).
pub fn progress_text(done_bytes: u64, total_bytes: u64, percent: u32) -> (s: String)
    ensures
        s@ == progress_line(done_bytes as nat, total_bytes as nat, percent as nat),
{
    let mut s = fmt_bytes(done_bytes);
    push_str(&mut s, " / ");
    let t = fmt_bytes(total_bytes);
    push_str(&mut s, t.as_str());
    push_str(&mut s, " · ");
    push_decimal(&mut s, percent as u64);
    push_str(&mut s, "%");
    assert(s@ =~= progress_line(done_bytes as nat, total_bytes as nat, percent as nat));
    s
}

/// The status line while copying: the name of the file, its number among
/// the files to copy, the speed and time left once known, and the
/// destination.
pub open spec fn status_line(
    file: Seq<char>,
    done_files: nat,
    total_files: nat,
    rate: Option<(u64, u64)>,
    dest: Seq<char>,
) -> Seq<char> {
    file_name_of(file) + " ("@ + decimal(done_files + 1) + "/"@ + decimal(total_files) + ")"@
        + match rate {
        Some((speed, eta)) => " · "@ + bytes_text(speed as nat) + "/s · "@ + eta_text(eta as nat),
        None => Seq::empty(),
    } + " → "@ + dest
}

/// "a.txt (3/10) · 2.0 MB/s · 20 s left → F:\b" while `file` is copied to
/// `dest`, `done_files` files being finished out of `total_files`; `rate`,
/// when given, is the speed in bytes per second and the seconds left.
pub fn status_text(
    file: &str,
    done_files: u64,
    total_files: u64,
    rate: Option<(u64, u64)>,
    dest: &str,
) -> (s: String)
    requires
        done_files < u64::MAX,
    ensures
        s@ == status_line(file@, done_files as nat, total_files as nat, rate, dest@),
{
    let mut s = file_name(file);
    push_str(&mut s, " (");
    push_decimal(&mut s, done_files + 1);
    push_str(&mut s, "/");
    push_decimal(&mut s, total_files);
    push_str(&mut s, ")");
    let ghost head = s@;
    match rate {
        Some((speed, eta)) => {
            push_str(&mut s, " · ");
            let b = fmt_bytes(speed);
            push_str(&mut s, b.as_str());
            push_str(&mut s, "/s · ");
            let e = fmt_eta(eta);
            push_str(&mut s, e.as_str());
        },
        None => {},
    }
    push_str(&mut s, " → ");
    push_str(&mut s, dest);
    assert(s@ =~= status_line(file@, done_files as nat, total_files as nat, rate, dest@));
    s
}

/// The message shown when a backup ends.
pub open spec fn done_line(
    total_files: nat,
    copied_files: nat,
    copied_bytes: nat,
    dest_count: nat,
    errors: Seq<Seq<char>>,
) -> Seq<char> {
    if errors.len() == 0 {
        if total_files == 0 {
            "Done — everything was already backed up"@
        } else {
            "Done — "@ + decimal(copied_files) + " file(s), "@ + bytes_text(copied_bytes)
                + " copied to "@ + decimal(dest_count) + " destination(s)"@
        }
    } else {
        "Done — "@ + decimal(copied_files) + " copied, "@ + decimal(errors.len()) + " error(s). First: "@
            + errors[0]
    }
}

/// The closing message of a backup that found `total_files` files to copy,
/// copied `copied` to `dest_count` destinations and met `errors`: the first
/// error is quoted when there is one.
pub fn done_message(total_files: u64, copied: &Tally, dest_count: usize, errors: &Vec<String>) -> (s: String)
    ensures
        s@ == done_line(
            total_files as nat,
            copied.files as nat,
            copied.bytes as nat,
            dest_count as nat,
            crate::config::strings(errors@),
        ),
{
    let mut s = String::new();
    if errors.len() == 0 {
        if total_files == 0 {
            push_str(&mut s, "Done — everything was already backed up");
        } else {
            push_str(&mut s, "Done — ");
            push_decimal(&mut s, copied.files);
            push_str(&mut s, " file(s), ");
            let b = fmt_bytes(copied.bytes);
            push_str(&mut s, b.as_str());
            push_str(&mut s, " copied to ");
            push_decimal(&mut s, dest_count as u64);
            push_str(&mut s, " destination(s)");
        }
    } else {
        push_str(&mut s, "Done — ");
        push_decimal(&mut s, copied.files);
        push_str(&mut s, " copied, ");
        push_decimal(&mut s, errors.len() as u64);
        push_str(&mut s, " error(s). First: ");
        push_str(&mut s, errors[0].as_str());
    }
    assert(s@ =~= done_line(
        total_files as nat,
        copied.files as nat,
        copied.bytes as nat,
        dest_count as nat,
        crate::config::strings(errors@),
    ));
    s
}

/// A numeral is not empty and starts with a digit.
pub proof fn lemma_decimal_starts_with_digit(n: nat)
    ensures
        decimal(n).len() > 0,
        '0' <= decimal(n)[0] <= '9',
    decreases n,
{
    if n >= 10 {
        lemma_decimal_starts_with_digit(n / 10);
        assert(decimal(n)[0] == decimal(n / 10)[0]);
    }
}

/// The time left as shown never overstates it: under a minute the seconds
/// themselves; under an hour the minutes rounded up (the least whole number
/// of minutes that covers the time); from an hour on the whole hours and
/// the whole minutes past them, both rounded down.
pub proof fn lemma_eta_text(secs: nat)
    ensures
        secs < 60 ==> eta_text(secs) == decimal(secs) + " s left"@,
        60 <= secs < 3600 ==> exists|m: nat|
            eta_text(secs) == decimal(m) + " min left"@ && (m - 1) * 60 < secs <= #[trigger] (m
                * 60),
        secs >= 3600 ==> exists|h: nat, m: nat|
            eta_text(secs) == decimal(h) + "h "@ + decimal(m) + "m left"@ && m < 60 && #[trigger] (h
                * 3600) + #[trigger] (m * 60) <= secs < h * 3600 + (m + 1) * 60,
{
    if 60 <= secs < 3600 {
        let m: nat = (secs + 59) / 60;
        assert((m - 1) * 60 < secs <= m * 60) by (nonlinear_arith)
            requires
                m == (secs + 59) / 60,
                secs >= 60,
        ;
        assert(eta_text(secs) == decimal(m) + " min left"@);
    }
    if secs >= 3600 {
        let h: nat = secs / 3600;
        let m: nat = secs % 3600 / 60;
        assert(m < 60 && h * 3600 + m * 60 <= secs < h * 3600 + (m + 1) * 60) by (nonlinear_arith)
            requires
                h == secs / 3600,
                m == secs % 3600 / 60,
        ;
        assert(eta_text(secs) == decimal(h) + "h "@ + decimal(m) + "m left"@);
    }
}

/// The closing message never hides an error: with errors it gives the files
/// copied, how many errors and the first one, whatever was found to copy;
/// "everything was already backed up" is said exactly when there was no
/// error and nothing to copy.
pub proof fn lemma_done_line(
    total_files: nat,
    copied_files: nat,
    copied_bytes: nat,
    dest_count: nat,
    errors: Seq<Seq<char>>,
)
    ensures
        errors.len() > 0 ==> done_line(total_files, copied_files, copied_bytes, dest_count, errors)
            == "Done — "@ + decimal(copied_files) + " copied, "@ + decimal(errors.len())
            + " error(s). First: "@ + errors[0],
        done_line(total_files, copied_files, copied_bytes, dest_count, errors)
            == "Done — everything was already backed up"@ <==> (errors.len() == 0 && total_files
            == 0),
{
    reveal_strlit("Done — everything was already backed up");
    reveal_strlit("Done — ");
    let line = done_line(total_files, copied_files, copied_bytes, dest_count, errors);
    let all = "Done — everything was already backed up"@;
    if !(errors.len() == 0 && total_files == 0) {
        lemma_decimal_starts_with_digit(copied_files);
        assert(line[7] == decimal(copied_files)[0]);
        assert(all[7] == 'e');
        assert(line != all);
    }
}

/// A byte count is shown exactly below 1 KB, and otherwise in the largest
/// unit (up to TB) that keeps the value at least 1, so below 1024 of it.
pub proof fn lemma_bytes_unit(b: nat)
    ensures
        b < 1024 ==> bytes_text(b) == decimal(b) + " B"@,
        unit_scale(unit_index(b)) <= b || b < 1024,
        unit_index(b) < 4 ==> b < 1024 * unit_scale(unit_index(b)),
        b >= 1024 ==> unit_index(b) >= 1,
{
    reveal_strlit(" B");
    if b < 1024 {
        assert(bytes_text(b) =~= decimal(b) + " B"@);
    }
}

} // verus!
