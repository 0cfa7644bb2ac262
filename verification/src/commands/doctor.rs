//! `calisto status`, `stop` and `doctor`: the state of daemons, and their
//! memory.
use vstd::prelude::*;
use crate::appconfig;
use crate::appconfig::strip_back;
use crate::number;
use crate::number::{decimal_of, parse_i32, parse_unsigned};
use crate::text;
use crate::text::{chars_of, is, lines, next_word, string_of, trim};

verus! {

/// The memory of a process, in KiB.
#[derive(Clone, Copy, PartialEq, Eq, Structural)]
pub struct MemStats {
    pub rss_kb: u64,
    pub pss_kb: u64,
    pub shared_clean_kb: u64,
    pub private_dirty_kb: u64,
}

/// The key and the number of a line.
pub open spec fn entry_in(line: Seq<char>) -> Option<(Seq<char>, nat)> {
    match text::first_word(line) {
        None => None,
        Some((k, rest)) => match text::first_word(rest) {
            None => None,
            Some((v, _)) => match number::unsigned(v, u64::MAX as int) {
                None => None,
                Some(n) => Some((appconfig::without_back(k, ':'), n)),
            },
        },
    }
}

/// What the lines say of the memory of a process: of the lines about one kind
/// of memory the last one counts.
pub open spec fn memory_of(lines: Seq<Seq<char>>) -> MemStats
    decreases lines.len(),
{
    if lines.len() == 0 {
        MemStats { rss_kb: 0, pss_kb: 0, shared_clean_kb: 0, private_dirty_kb: 0 }
    } else {
        let m = memory_of(lines.drop_last());
        match entry_in(lines.last()) {
            None => m,
            Some((k, n)) => if k == "Rss"@ {
                MemStats { rss_kb: n as u64, ..m }
            } else if k == "Pss"@ {
                MemStats { pss_kb: n as u64, ..m }
            } else if k == "Shared_Clean"@ {
                MemStats { shared_clean_kb: n as u64, ..m }
            } else if k == "Private_Dirty"@ {
                MemStats { private_dirty_kb: n as u64, ..m }
            } else {
                m
            },
        }
    }
}

fn read_entry(line: &[char]) -> (r: Option<(&[char], u64)>)
    ensures
        match r {
            Some((k, n)) => entry_in(line@) == Some((k@, n as nat)),
            None => entry_in(line@) is None,
        },
{
    match next_word(line) {
        None => None,
        Some((k, rest)) => match next_word(rest) {
            None => None,
            Some((v, _)) => match parse_unsigned(v, u64::MAX) {
                None => None,
                Some(n) => Some((strip_back(k, ':'), n)),
            },
        },
    }
}

/// Reads the text of `/proc/<pid>/smaps_rollup`; a process without resident
/// memory has none.
pub fn read_smaps_rollup(content: &str) -> (r: Option<MemStats>)
    ensures
        r == (if memory_of(text::lines_of(content@)).rss_kb > 0 {
            Some(memory_of(text::lines_of(content@)))
        } else {
            None
        }),
{
    let chars = chars_of(content);
    let all = lines(chars.as_slice());
    let ghost texts = text::slice_views(all@);
    let mut m = MemStats { rss_kb: 0, pss_kb: 0, shared_clean_kb: 0, private_dirty_kb: 0 };
    let mut i: usize = 0;
    while i < all.len()
        invariant
            i <= all@.len(),
            texts == text::slice_views(all@),
            m == memory_of(texts.take(i as int)),
        decreases all@.len() - i,
    {
        assert(texts.take(i + 1).drop_last() =~= texts.take(i as int));
        assert(texts.take(i + 1).last() == all@[i as int]@);
        match read_entry(all[i]) {
            Some((k, n)) => {
                if is(k, "Rss") {
                    m.rss_kb = n;
                } else if is(k, "Pss") {
                    m.pss_kb = n;
                } else if is(k, "Shared_Clean") {
                    m.shared_clean_kb = n;
                } else if is(k, "Private_Dirty") {
                    m.private_dirty_kb = n;
                }
            },
            None => {},
        }
        i += 1;
    }
    assert(texts.take(i as int) =~= texts);
    if m.rss_kb > 0 {
        Some(m)
    } else {
        None
    }
}

/// The quotient rounded to the nearest integer; the even one of two that are
/// equally near.
pub open spec fn half_even(n: nat, d: nat) -> nat {
    let q = n / d;
    let r = n % d;
    if 2 * r > d || (2 * r == d && q % 2 == 1) {
        q + 1
    } else {
        q
    }
}

/// The distance between the integers near `n` that a floating-point number of
/// 53 bits can hold.
pub open spec fn spacing(n: nat) -> nat
    decreases n,
{
    if n < 0x20_0000_0000_0000 {
        1
    } else {
        2 * spacing(n / 2)
    }
}

/// The integer nearest to `n` that a floating-point number of 53 bits can
/// hold.
pub open spec fn as_double(n: nat) -> nat {
    half_even(n, spacing(n)) * spacing(n)
}

/// A number of KiB in tenths of MiB.
pub open spec fn tenths_of_mib(kb: nat) -> nat {
    half_even(10 * as_double(kb), 1024)
}

/// A number of KiB, shown in MiB with one decimal.
pub open spec fn mib(kb: nat) -> Seq<char> {
    let t = tenths_of_mib(kb);
    number::decimal(t / 10) + "."@ + number::decimal(t % 10) + " MiB"@
}

fn round_half_even(n: u128, d: u128) -> (r: u128)
    requires
        0 < d <= 0xffff_ffff_ffff_ffff_ffff_ffff,
        n <= 0xffff_ffff_ffff_ffff_ffff_ffff,
    ensures
        r == half_even(n as nat, d as nat),
{
    let q: u128 = n / d;
    let r: u128 = n % d;
    assert(q <= n) by (nonlinear_arith)
        requires
            q == n / d,
            d > 0,
    ;
    if 2 * r > d || (2 * r == d && q % 2 == 1) {
        q + 1
    } else {
        q
    }
}

fn spacing_of(n: u64) -> (r: u64)
    ensures
        r == spacing(n as nat),
        1 <= r,
        r <= n || r == 1,
    decreases n,
{
    if n < 0x20_0000_0000_0000 {
        1
    } else {
        let half: u64 = spacing_of(n / 2);
        2 * half
    }
}

proof fn lemma_rounded_near(n: nat, d: nat)
    requires
        d > 0,
    ensures
        half_even(n, d) * d <= n + d,
{
    assert((n / d + 1) * d <= n + d) by (nonlinear_arith)
        requires
            d > 0,
    ;
    assert((n / d) * d <= (n / d + 1) * d) by (nonlinear_arith);
}

/// Shows a number of KiB in MiB.
pub fn fmt_mib(kb: u64) -> (r: String)
    ensures
        r@ == mib(kb as nat),
{
    let s: u64 = spacing_of(kb);
    let nearest: u128 = round_half_even(kb as u128, s as u128);
    proof {
        lemma_rounded_near(kb as nat, s as nat);
    }
    assert(nearest * s <= 2 * 0xffff_ffff_ffff_ffff);
    let double: u128 = nearest * (s as u128);
    let t: u128 = round_half_even(10 * double, 1024);
    assert(t <= 10 * double / 1024 + 1);
    let whole: u64 = (t / 10) as u64;
    let tenth: u64 = (t % 10) as u64;
    let mut r = decimal_of(whole);
    r.append(".");
    r.append(decimal_of(tenth).as_str());
    r.append(" MiB");
    r
}

/// Up to 2^53 KiB the number is shown rounded to the nearest tenth of a MiB,
/// and to the even tenth of two that are equally near.
pub proof fn law_small_sizes_exact(kb: nat)
    requires
        kb < 0x20_0000_0000_0000,
    ensures
        tenths_of_mib(kb) == half_even(10 * kb, 1024),
{
    assert(spacing(kb) == 1);
    assert(kb / 1 == kb && kb % 1 == 0);
    assert(half_even(kb, 1) == kb);
    assert(as_double(kb) == kb);
}

/// The line that reports the memory of a process.
pub fn mem_line(label: &str, m: &MemStats) -> (r: String)
    ensures
        r@ == "  "@ + label@ + ": RSS "@ + mib(m.rss_kb as nat) + " | Pss "@ + mib(m.pss_kb as nat)
            + " | Shared_Clean "@ + mib(m.shared_clean_kb as nat) + " | Private_Dirty "@ + mib(
            m.private_dirty_kb as nat,
        ),
{
    let mut r = "  ".to_string();
    r.append(label);
    r.append(": RSS ");
    r.append(fmt_mib(m.rss_kb).as_str());
    r.append(" | Pss ");
    r.append(fmt_mib(m.pss_kb).as_str());
    r.append(" | Shared_Clean ");
    r.append(fmt_mib(m.shared_clean_kb).as_str());
    r.append(" | Private_Dirty ");
    r.append(fmt_mib(m.private_dirty_kb).as_str());
    r
}

/// The number of a process in the text of its file.
pub fn read_pid(content: &str) -> (r: Option<i32>)
    ensures
        match r {
            Some(n) => number::signed(
                text::trimmed(content@),
                i32::MIN as int,
                i32::MAX as int,
            ) == Some(n as int),
            None => number::signed(
                text::trimmed(content@),
                i32::MIN as int,
                i32::MAX as int,
            ) is None,
        },
{
    let c = chars_of(content);
    parse_i32(trim(c.as_slice()))
}

/// What is known of a daemon.
pub enum Health {
    /// Nobody answers.
    Stopped,
    /// Somebody accepts connections but does not answer.
    Stale,
    /// It answers; this is the text of the file with its number.
    Running(String),
}

/// The line that reports the state of a daemon.
pub fn status_text(what: &str, health: &Health) -> (r: String)
    ensures
        r@ == what@ + (match health {
            Health::Stopped => ": not running"@,
            Health::Stale => ": socket present but unresponsive (stale)"@,
            Health::Running(pid) => ": running (pid "@ + text::trimmed(pid@) + ")"@,
        }),
{
    let mut r = what.to_string();
    let state = match health {
        Health::Stopped => ": not running".to_string(),
        Health::Stale => ": socket present but unresponsive (stale)".to_string(),
        Health::Running(pid) => {
            let mut s = ": running (pid ".to_string();
            let c = chars_of(pid.as_str());
            s.append(string_of(trim(c.as_slice())).as_str());
            s.append(")");
            s
        },
    };
    r.append(state.as_str());
    r
}

/// What an answer to a question for a sign of life means: `OK`, and nothing
/// else.
pub fn is_alive(reply: Option<&str>) -> (r: bool)
    ensures
        r == (reply matches Some(line) && line@ == "OK"@),
{
    match reply {
        Some(line) => text::str_eq(line, "OK"),
        None => false,
    }
}

/// The line that reports that a daemon was stopped.
pub fn stop_text(was_running: bool) -> (r: String)
    ensures
        r@ == (if was_running {
            "daemon: stopped"@
        } else {
            "daemon: not running"@
        }),
{
    if was_running {
        "daemon: stopped".to_string()
    } else {
        "daemon: not running".to_string()
    }
}

/// The line that reports what a daemon loads in advance.
pub fn preload_text(app_preload: Option<&str>, over: Option<&str>) -> (r: String)
    ensures
        r@ == (match (app_preload, over) {
            (Some(p), _) => "  app preload: "@ + p@,
            (None, Some(v)) => "  preload: "@ + v@,
            (None, None) => "  preload: "@ + appconfig::DEFAULT_PRELOAD@,
        }),
{
    match app_preload {
        Some(p) => {
            let mut r = "  app preload: ".to_string();
            r.append(p);
            r
        },
        None => {
            let mut r = "  preload: ".to_string();
            match over {
                Some(v) => {
                    r.append(v);
                },
                None => {
                    r.append(appconfig::DEFAULT_PRELOAD);
                },
            }
            r
        },
    }
}

/// How often the report waits for the process that it starts to have done its
/// work.
pub const PROBE_POLLS: u32 = 200;

/// What the report does while it waits.
#[derive(PartialEq, Eq, Structural)]
pub enum Probe {
    /// It reads the number of the process and its memory.
    Read,
    /// It waits for ten milliseconds.
    Wait,
    /// It goes on without it.
    GiveUp,
}

/// Decides what the report does after it has waited `polls` times.
pub fn probe_step(polls: u32, done: bool) -> (r: Probe)
    ensures
        r == (if polls >= PROBE_POLLS {
            Probe::GiveUp
        } else if done {
            Probe::Read
        } else {
            Probe::Wait
        }),
{
    if polls >= PROBE_POLLS {
        Probe::GiveUp
    } else if done {
        Probe::Read
    } else {
        Probe::Wait
    }
}

/// A line says the amount of one kind of memory: its name in front of a colon,
/// and the number behind it.
pub proof fn law_memory_line(name: Seq<char>, gap: Seq<char>, n: nat, unit: Seq<char>)
    requires
        name.len() > 0 && name.last() != ':',
        forall|i: int| 0 <= i < name.len() ==> !text::is_space(#[trigger] name[i]),
        gap.len() > 0 && appconfig::is_blank(gap),
        n <= u64::MAX,
        unit.len() == 0 || text::is_space(unit[0]),
    ensures
        entry_in(name + seq![':'] + gap + number::decimal(n) + unit) == Some((name, n)),
{
    let nothing = Seq::<char>::empty();
    let w = name + seq![':'];
    let d = number::decimal(n);
    let rest = gap + d + unit;
    assert(nothing + w + rest =~= name + seq![':'] + gap + d + unit);
    assert forall|i: int| 0 <= i < w.len() implies !text::is_space(#[trigger] w[i]) by {
        if i < name.len() {
            assert(w[i] == name[i]);
        }
    }
    assert(rest[0] == gap[0] && text::is_space(gap[0]));
    text::law_first_word(nothing, w, rest);
    number::lemma_decimal_reads_back(n, u64::MAX as int);
    assert forall|i: int| 0 <= i < d.len() implies !text::is_space(#[trigger] d[i]) by {
        assert(number::is_digit(d[i]));
    }
    text::law_first_word(gap, d, unit);
    assert(w.drop_last() =~= name);
    assert(appconfig::without_back(name, ':') == name);
}

/// Each of the four amounts is that of the last line about it, and no line
/// about another kind of memory changes it.
pub proof fn law_memory_lines(front: Seq<Seq<char>>, line: Seq<char>, k: Seq<char>, n: nat)
    requires
        entry_in(line) == Some((k, n)),
        n <= u64::MAX,
    ensures
        ({
            let a = memory_of(front);
            let b = memory_of(front.push(line));
            &&& b.rss_kb == (if k == "Rss"@ {
                n
            } else {
                a.rss_kb as nat
            })
            &&& b.pss_kb == (if k == "Pss"@ {
                n
            } else {
                a.pss_kb as nat
            })
            &&& b.shared_clean_kb == (if k == "Shared_Clean"@ {
                n
            } else {
                a.shared_clean_kb as nat
            })
            &&& b.private_dirty_kb == (if k == "Private_Dirty"@ {
                n
            } else {
                a.private_dirty_kb as nat
            })
        }),
{
    assert(front.push(line).drop_last() =~= front);
    reveal_strlit("Rss");
    reveal_strlit("Pss");
    reveal_strlit("Shared_Clean");
    reveal_strlit("Private_Dirty");
    assert("Rss"@[0] == 'R' && "Pss"@[0] == 'P' && "Shared_Clean"@[0] == 'S' && "Private_Dirty"@[0]
        == 'P');
    assert("Pss"@.len() == 3 && "Private_Dirty"@.len() == 13);
}

/// What is shown is as near as can be: rounding moves a number by no more than
/// half of what it is rounded to, keeps whole multiples, and goes to the even one
/// from the middle of two.
pub proof fn law_rounding(n: nat, d: nat)
    requires
        d > 0,
    ensures
        2 * (half_even(n, d) * d) <= 2 * n + d,
        2 * n <= 2 * (half_even(n, d) * d) + d,
        n % d == 0 ==> half_even(n, d) * d == n,
        2 * (n % d) == d ==> half_even(n, d) % 2 == 0,
{
    let q = n / d;
    let r = n % d;
    assert(n == q * d + r) by (nonlinear_arith)
        requires
            q == n / d,
            r == n % d,
            d > 0,
    ;
    assert((q + 1) * d == q * d + d) by (nonlinear_arith);
    assert(r < d);
}

/// A whole number of MiB is shown as it is.
pub proof fn law_whole_mib(n: nat)
    requires
        n < 0x800_0000_0000,
    ensures
        mib(1024 * n) == number::decimal(n) + seq!['.', '0', ' ', 'M', 'i', 'B'],
{
    law_small_sizes_exact(1024 * n);
    assert((10 * (1024 * n)) / 1024 == 10 * n);
    assert((10 * (1024 * n)) % 1024 == 0);
    assert(tenths_of_mib(1024 * n) == 10 * n);
    assert((10 * n) / 10 == n && (10 * n) % 10 == 0);
    reveal_strlit(".");
    reveal_strlit(" MiB");
    assert(number::decimal(0) =~= seq!['0']);
    assert(mib(1024 * n) =~= number::decimal(n) + seq!['.', '0', ' ', 'M', 'i', 'B']);
}

proof fn lemma_spacing(n: nat)
    ensures
        spacing(n) >= 1,
        n < spacing(n) * 0x20_0000_0000_0000,
        spacing(n) > 1 ==> n >= spacing(n) * 0x10_0000_0000_0000,
    decreases n,
{
    if n >= 0x20_0000_0000_0000 {
        lemma_spacing(n / 2);
        let s = spacing(n / 2);
        assert(n / 2 < s * 0x20_0000_0000_0000);
        assert(n < 2 * s * 0x20_0000_0000_0000);
    }
}

/// A number that is too large for 53 bits is taken for one of the two nearest
/// that fit, and is not changed by more than half the distance between them.
pub proof fn law_as_double(n: nat)
    ensures
        as_double(n) % spacing(n) == 0,
        2 * as_double(n) <= 2 * n + spacing(n),
        2 * n <= 2 * as_double(n) + spacing(n),
        n < spacing(n) * 0x20_0000_0000_0000,
        spacing(n) > 1 ==> n >= spacing(n) * 0x10_0000_0000_0000,
{
    lemma_spacing(n);
    let s = spacing(n);
    law_rounding(n, s);
    let q = half_even(n, s);
    assert((q * s) % s == 0) by (nonlinear_arith)
        requires
            s >= 1,
    ;
}

} // verus!
