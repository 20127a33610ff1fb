//! What the renderer computes before it draws: byte sizes, truncated
//! command lines, column widths and the highlight level of a figure.

use vstd::prelude::*;

use crate::model::{Proc, Session};
use crate::text::{chars_of, decimal, decimal_string, digit_char, push_char, push_decimal, string_of};

verus! {

/// How strongly a figure is highlighted.
#[derive(Clone, Copy, PartialEq, Eq, Structural)]
pub enum Level {
    Normal,
    Warm,
    Hot,
}

/// The bit pattern of `50.0f32`.
pub open spec fn cpu_hot_bits() -> u32 {
    0x4248_0000
}

/// The bit pattern of `10.0f32`.
pub open spec fn cpu_warm_bits() -> u32 {
    0x4120_0000
}

/// The highlight of a CPU reading given by the bit pattern of an `f32`:
/// hot from 50%, warm from 10%. Patterns above that of infinity are NaN or
/// negative (`-0.0` included), which are below 10 and are not highlighted;
/// on the others the order of the bit patterns is the numeric order, so
/// comparing the bits with those of 50.0 and 10.0 compares the readings.
pub open spec fn cpu_level_of(cpu: u32) -> Level {
    if cpu > 0x7f80_0000 {
        Level::Normal
    } else if cpu >= cpu_hot_bits() {
        Level::Hot
    } else if cpu >= cpu_warm_bits() {
        Level::Warm
    } else {
        Level::Normal
    }
}

/// The highlight of a memory figure: hot from 1 GiB, warm from 256 MiB.
pub open spec fn mem_level_of(mem: u64) -> Level {
    if mem >= 1024 * 1024 * 1024 {
        Level::Hot
    } else if mem >= 256 * 1024 * 1024 {
        Level::Warm
    } else {
        Level::Normal
    }
}

/// How strongly a CPU reading is highlighted.
pub fn cpu_level(cpu: u32) -> (l: Level)
    ensures
        l == cpu_level_of(cpu),
{
    if cpu > 0x7f80_0000 {
        Level::Normal
    } else if cpu >= 0x4248_0000 {
        Level::Hot
    } else if cpu >= 0x4120_0000 {
        Level::Warm
    } else {
        Level::Normal
    }
}

/// How strongly a memory figure is highlighted.
pub fn mem_level(mem: u64) -> (l: Level)
    ensures
        l == mem_level_of(mem),
{
    if mem >= 1024 * 1024 * 1024 {
        Level::Hot
    } else if mem >= 256 * 1024 * 1024 {
        Level::Warm
    } else {
        Level::Normal
    }
}

/// `num / den` rounded to the nearest integer, ties to even.
pub open spec fn round_half_even(num: nat, den: nat) -> nat
    recommends
        den > 0,
{
    let q = num / den;
    let r = num % den;
    if 2 * r < den {
        q
    } else if 2 * r > den {
        q + 1
    } else if q % 2 == 0 {
        q
    } else {
        q + 1
    }
}

/// The spacing of `f64` values around `b`: 1 below 2^53, doubling with
/// each further bit.
pub open spec fn f64_ulp(b: nat) -> nat
    decreases b,
{
    if b < 0x20_0000_0000_0000 {
        1
    } else {
        2 * f64_ulp(b / 2)
    }
}

/// `b as f64`: the nearest double, ties to even.
pub open spec fn as_f64(b: nat) -> nat {
    round_half_even(b, f64_ulp(b)) * f64_ulp(b)
}

/// A byte count as the renderer shows it: bytes below 1 KiB, whole KiB
/// below 1 MiB, whole MiB below 1 GiB, else GiB with one decimal; each
/// rounded to nearest, ties to even, as float formatting rounds.
pub open spec fn bytes_text(b: nat) -> Seq<char> {
    if b < 1024 {
        decimal(b) + seq!['B']
    } else if b < 1024 * 1024 {
        decimal(round_half_even(b, 1024)) + seq!['K']
    } else if b < 1024 * 1024 * 1024 {
        decimal(round_half_even(b, 1024 * 1024)) + seq!['M']
    } else {
        let tenths = round_half_even(as_f64(b) * 10, 1024 * 1024 * 1024);
        decimal(tenths / 10) + seq!['.', digit_char(tenths % 10), 'G']
    }
}

fn round_half_even_u128(num: u128, den: u128) -> (r: u128)
    requires
        den > 0,
        num / den + 1 <= u128::MAX,
    ensures
        r == round_half_even(num as nat, den as nat),
{
    let q = num / den;
    let r = num % den;
    if r < den - r {
        q
    } else if r > den - r {
        q + 1
    } else if q % 2 == 0 {
        q
    } else {
        q + 1
    }
}

/// A byte count for display: `512B`, `14K`, `354M`, `1.5G`.
pub fn format_bytes(b: u64) -> (s: String)
    ensures
        s@ == bytes_text(b as nat),
{
    let mut s = String::new();
    if b < 1024 {
        push_decimal(&mut s, b);
        push_char(&mut s, 'B');
    } else if b < 1024 * 1024 {
        let k = round_half_even_u128(b as u128, 1024);
        push_decimal(&mut s, k as u64);
        push_char(&mut s, 'K');
    } else if b < 1024 * 1024 * 1024 {
        let m = round_half_even_u128(b as u128, 1024 * 1024);
        push_decimal(&mut s, m as u64);
        push_char(&mut s, 'M');
    } else {
        // the nearest double to b
        let mut u: u128 = 1;
        let mut x: u64 = b;
        while x >= 0x20_0000_0000_0000
            invariant
                1 <= u <= 0x1000,
                f64_ulp(b as nat) == u * f64_ulp(x as nat),
                x as nat == b as nat / (u as nat),
            decreases x,
        {
            proof {
                assert(f64_ulp(x as nat) == 2 * f64_ulp(x as nat / 2));
                vstd::arithmetic::div_mod::lemma_div_denominator(b as int, u as int, 2);
                let ux = f64_ulp(x as nat / 2);
                assert(u * f64_ulp(x as nat) == (u * 2) * ux) by (nonlinear_arith)
                    requires
                        f64_ulp(x as nat) == 2 * ux,
                ;
                assert(b as nat >= u * 0x20_0000_0000_0000) by (nonlinear_arith)
                    requires
                        x as nat == b as nat / (u as nat),
                        x >= 0x20_0000_0000_0000,
                        u >= 1,
                ;
                assert(u < 0x800) by (nonlinear_arith)
                    requires
                        b as nat >= u * 0x20_0000_0000_0000,
                        b < 0x1_0000_0000_0000_0000,
                ;
            }
            x = x / 2;
            u = u * 2;
        }
        proof {
            assert(f64_ulp(x as nat) == 1);
            let ux = f64_ulp(x as nat);
            assert(u * ux == u) by (nonlinear_arith)
                requires
                    ux == 1,
            ;
            assert(u == f64_ulp(b as nat));
        }
        let rq = round_half_even_u128(b as u128, u);
        proof {
            assert(rq <= 0x20_0000_0000_0000);
            assert(rq * u <= 0x20_0000_0000_0000 * 0x1000) by (nonlinear_arith)
                requires
                    rq <= 0x20_0000_0000_0000,
                    u <= 0x1000,
            ;
        }
        let f: u128 = rq * u;
        let tenths = round_half_even_u128(f * 10, 1024 * 1024 * 1024);
        proof {
            let fi = (f * 10) as int;
            assert(tenths <= fi / 0x4000_0000 + 1);
            assert(fi / 0x4000_0000 <= fi);
        }
        push_decimal(&mut s, (tenths / 10) as u64);
        push_char(&mut s, '.');
        let d = (tenths % 10) as u8;
        push_char(&mut s, (d + 48u8) as char);
        push_char(&mut s, 'G');
    }
    proof {
        assert(s@ =~= bytes_text(b as nat));
    }
    s
}

/// `s` cut to at most `max` characters, the cut marked by an ellipsis.
pub open spec fn truncated(s: Seq<char>, max: nat) -> Seq<char> {
    if s.len() <= max {
        s
    } else if max == 0 {
        Seq::empty()
    } else {
        s.take(max - 1).push('…')
    }
}

/// Cuts `s` to at most `max` characters, ending a cut line with `…`.
pub fn truncate(s: &str, max: usize) -> (r: String)
    ensures
        r@ == truncated(s@, max as nat),
{
    let v = chars_of(s);
    if v.len() <= max {
        proof {
            assert(v@.subrange(0, v@.len() as int) =~= v@);
        }
        return string_of(&v, 0, v.len());
    }
    if max == 0 {
        return String::new();
    }
    let mut r = string_of(&v, 0, max - 1);
    push_char(&mut r, '…');
    proof {
        assert(v@.subrange(0, max - 1) =~= v@.take(max - 1));
    }
    r
}

/// Width of the fixed columns before the command of a process row.
pub open spec fn fixed_columns() -> nat {
    2 + 7 + 2 + 6 + 2 + 8 + 2
}

/// How many characters of a command fit in a row `width` wide after a tree
/// prefix `prefix_len` characters long: at least 4.
pub open spec fn command_room(width: nat, prefix_len: nat) -> nat {
    let avail = if width >= fixed_columns() + 4 {
        width - fixed_columns()
    } else {
        4
    };
    if avail >= prefix_len + 4 {
        (avail - prefix_len) as nat
    } else {
        4
    }
}

/// The room for the command of a process row.
pub fn command_width(width: usize, prefix_len: usize) -> (w: usize)
    ensures
        w == command_room(width as nat, prefix_len as nat),
{
    let cols: usize = 2 + 7 + 2 + 6 + 2 + 8 + 2;
    let avail = if width >= cols + 4 {
        width - cols
    } else {
        4
    };
    if avail - 4 >= prefix_len {
        avail - prefix_len
    } else {
        4
    }
}

/// `n` spaces.
pub open spec fn spaces(n: nat) -> Seq<char> {
    Seq::new(n, |i: int| ' ')
}

/// `s` right-aligned in a field `width` characters wide, as `{:>width}`
/// writes it: longer text is kept whole.
pub open spec fn right_aligned(s: Seq<char>, width: nat) -> Seq<char> {
    if s.len() >= width {
        s
    } else {
        spaces((width - s.len()) as nat) + s
    }
}

/// Right-aligns `s` in a field `width` characters wide.
pub fn pad_left(s: &str, width: usize) -> (r: String)
    ensures
        r@ == right_aligned(s@, width as nat),
{
    let v = chars_of(s);
    let n = v.len();
    let mut r = String::new();
    let mut k: usize = n;
    while k < width
        invariant
            v@ == s@,
            n == v.len(),
            n <= k,
            k <= width || k == n,
            r@ == spaces((k - n) as nat),
        decreases width - k,
    {
        push_char(&mut r, ' ');
        proof {
            assert(r@ =~= spaces((k + 1 - n) as nat));
        }
        k += 1;
    }
    r.append(s);
    proof {
        if n >= width {
            assert(r@ =~= s@);
        } else {
            assert(r@ =~= spaces((width - n) as nat) + s@);
        }
    }
    r
}

/// The text of a process row but for its CPU figure, which is a float and
/// is written by the renderer.
pub struct ProcCells {
    /// The PID, right-aligned in 7 columns.
    pub pid: String,
    /// The highlight of the CPU figure.
    pub cpu_level: Level,
    /// The memory, right-aligned in 8 columns.
    pub mem: String,
    /// The highlight of the memory figure.
    pub mem_level: Level,
    /// The command, cut to the room left after the tree prefix.
    pub command: String,
}

/// The cells of the row of process `p` under tree prefix `prefix`, in a
/// list `width` columns wide.
pub fn proc_cells(p: &Proc, prefix: &str, width: usize) -> (c: ProcCells)
    ensures
        c.pid@ == right_aligned(decimal(p.pid as nat), 7),
        c.cpu_level == cpu_level_of(p.cpu),
        c.mem@ == right_aligned(bytes_text(p.mem as nat), 8),
        c.mem_level == mem_level_of(p.mem),
        c.command@ == truncated(p.command@, command_room(width as nat, prefix@.len())),
{
    let pid = decimal_string(p.pid);
    let mem = format_bytes(p.mem);
    let room = command_width(width, chars_of(prefix).len());
    ProcCells {
        pid: pad_left(pid.as_str(), 7),
        cpu_level: cpu_level(p.cpu),
        mem: pad_left(mem.as_str(), 8),
        mem_level: mem_level(p.mem),
        command: truncate(p.command.as_str(), room),
    }
}

/// The title of a window header: its index in brackets, then its name.
pub open spec fn window_title_of(index: u32, name: Seq<char>) -> Seq<char> {
    seq!['['] + decimal(index as nat) + seq![']', ' '] + name
}

/// Writes the title of a window header.
pub fn window_title(index: u32, name: &str) -> (t: String)
    ensures
        t@ == window_title_of(index, name@),
{
    let mut t = String::new();
    push_char(&mut t, '[');
    push_decimal(&mut t, index as u64);
    push_char(&mut t, ']');
    push_char(&mut t, ' ');
    t.append(name);
    proof {
        assert(t@ =~= window_title_of(index, name@));
    }
    t
}

/// What comes before the CPU total in a window header: the number of
/// processes shown.
pub open spec fn header_before(count: nat) -> Seq<char> {
    "   "@ + decimal(count) + " proc · "@
}

/// What comes after the CPU total in a window header: their memory.
pub open spec fn header_after(mem: nat) -> Seq<char> {
    "% · "@ + bytes_text(mem)
}

/// The text of a window header around its CPU total, which is a float and
/// is written by the renderer.
pub struct HeaderText {
    pub before: String,
    pub after: String,
}

/// The text around the CPU total of a window header showing `count`
/// processes with `mem` bytes of memory.
pub fn header_text(count: usize, mem: u64) -> (h: HeaderText)
    ensures
        h.before@ == header_before(count as nat),
        h.after@ == header_after(mem as nat),
{
    let mut before = String::new();
    before.append("   ");
    push_decimal(&mut before, count as u64);
    before.append(" proc · ");
    let mut after = String::new();
    after.append("% · ");
    let m = format_bytes(mem);
    after.append(m.as_str());
    proof {
        assert(before@ =~= header_before(count as nat));
        assert(after@ =~= header_after(mem as nat));
    }
    HeaderText { before, after }
}

/// The title of a session tab: a space and the name, then, for the
/// current session, a mark (drawn apart so it can stand out), then a
/// closing space.
pub struct TabTitle {
    /// A space, then the session's name.
    pub name: String,
    /// Whether the tab carries the current-session mark `*`.
    pub marked: bool,
}

/// The title of the tab of session `s`.
pub fn tab_title(s: &Session) -> (t: TabTitle)
    ensures
        t.name@ == seq![' '] + s@.name,
        t.marked == s.current,
{
    let mut name = String::new();
    push_char(&mut name, ' ');
    name.append(s.name.as_str());
    proof {
        assert(name@ =~= seq![' '] + s@.name);
    }
    TabTitle { name, marked: s.current }
}

/// What the list area shows.
#[derive(Clone, Copy, PartialEq, Eq, Structural)]
pub enum Body {
    /// There are no sessions at all.
    NoSessions,
    /// There are sessions, but no rows to show (the filter matches nothing,
    /// or the session has no windows).
    NoMatches,
    /// The rows, with the row at `highlighted` highlighted.
    Rows { highlighted: usize },
}

/// What the footer line shows.
#[derive(Clone, Copy, PartialEq, Eq, Structural)]
pub enum Footer {
    /// The filter being typed, with how to apply or clear it.
    Editing,
    /// The status message.
    Status,
    /// The key help, after the filter in effect when there is one.
    Help { filtered: bool },
}

/// A truncated command never takes more than the room given to it.
pub proof fn truncated_fits(s: Seq<char>, max: nat)
    ensures
        truncated(s, max).len() <= max,
        s.len() <= max ==> truncated(s, max) == s,
{
}

/// `q` is `num / den` rounded to the nearest integer, ties to even: `q`
/// units of `den` lie within half a unit of `num`, and on an exact half
/// `q` is even.
pub open spec fn nearest_even(num: nat, den: nat, q: nat) -> bool {
    &&& 2 * q * den <= 2 * num + den
    &&& 2 * num <= 2 * q * den + den
    &&& (2 * q * den == 2 * num + den || 2 * num == 2 * q * den + den) ==> q % 2 == 0
}

proof fn lemma_round_half_even(num: nat, den: nat)
    requires
        den > 0,
    ensures
        nearest_even(num, den, round_half_even(num, den)),
{
    let q = num / den;
    let r = num % den;
    vstd::arithmetic::div_mod::lemma_fundamental_div_mod(num as int, den as int);
    assert(num == q * den + r);
    assert(0 <= r < den);
    assert((q + 1) * den == q * den + den) by (nonlinear_arith);
    assert(2 * q * den == 2 * (q * den)) by (nonlinear_arith);
    assert(2 * (q + 1) * den == 2 * (q * den) + 2 * den) by (nonlinear_arith);
}

/// Byte counts are written in the largest unit they reach: below 1 KiB in
/// bytes as they are, below 1 MiB in KiB and below 1 GiB in MiB, each as
/// the nearest whole number of units (ties to even), and from 1 GiB in GiB
/// with one decimal, the nearest tenth of a GiB to the count taken as an
/// `f64`.
pub proof fn byte_sizes_round_to_nearest(b: nat)
    ensures
        b < 1024 ==> bytes_text(b) == decimal(b) + seq!['B'],
        1024 <= b < 1024 * 1024 ==> exists|q: nat|
            #[trigger] nearest_even(b, 1024, q) && bytes_text(b) == decimal(q) + seq!['K'],
        1024 * 1024 <= b < 1024 * 1024 * 1024 ==> exists|q: nat|
            #[trigger] nearest_even(b, 1024 * 1024, q) && bytes_text(b) == decimal(q) + seq!['M'],
        1024 * 1024 * 1024 <= b ==> exists|t: nat|
            #[trigger] nearest_even(as_f64(b) * 10, 1024 * 1024 * 1024, t) && bytes_text(b)
                == decimal(t / 10) + seq!['.', digit_char(t % 10), 'G'],
{
    if 1024 <= b < 1024 * 1024 {
        lemma_round_half_even(b, 1024);
    } else if 1024 * 1024 <= b < 1024 * 1024 * 1024 {
        lemma_round_half_even(b, 1024 * 1024);
    } else if 1024 * 1024 * 1024 <= b {
        lemma_round_half_even(as_f64(b) * 10, 1024 * 1024 * 1024);
    }
}

/// A command that fits is kept whole. A longer one is cut to exactly `max`
/// characters: the first `max - 1` of the command, then an ellipsis (and to
/// nothing when `max` is 0).
pub proof fn truncation_keeps_a_prefix(s: Seq<char>, max: nat)
    ensures
        s.len() <= max ==> truncated(s, max) == s,
        s.len() > max && max > 0 ==> {
            &&& truncated(s, max).len() == max
            &&& truncated(s, max)[max - 1] == '…'
            &&& forall|i: int| 0 <= i < max - 1 ==> #[trigger] truncated(s, max)[i] == s[i]
        },
        s.len() > max && max == 0 ==> truncated(s, max).len() == 0,
{
}

/// A right-aligned field is as wide as asked, or as the text when the
/// text is wider: the text whole at its end, spaces before it.
pub proof fn right_aligned_fields(t: Seq<char>, width: nat)
    ensures
        ({
            let r = right_aligned(t, width);
            let pad = r.len() - t.len();
            &&& r.len() == if t.len() >= width {
                t.len()
            } else {
                width
            }
            &&& r.subrange(pad, r.len() as int) == t
            &&& forall|i: int| 0 <= i < pad ==> #[trigger] r[i] == ' '
        }),
{
    let r = right_aligned(t, width);
    if t.len() < width {
        assert(r.subrange(r.len() - t.len(), r.len() as int) =~= t);
    } else {
        assert(r.subrange(0, r.len() as int) =~= t);
    }
}

/// The command of a process row gets what is left of the row after the
/// fixed columns (2 + 7 + 2 + 6 + 2 + 8 + 2 characters) and the tree
/// prefix, but never fewer than 4 characters.
pub proof fn command_room_fills_the_row(width: nat, prefix_len: nat)
    ensures
        command_room(width, prefix_len) >= 4,
        width >= 29 + prefix_len + 4 ==> command_room(width, prefix_len) + prefix_len + 29 == width,
        width < 29 + prefix_len + 4 ==> command_room(width, prefix_len) == 4,
{
}

} // verus!
