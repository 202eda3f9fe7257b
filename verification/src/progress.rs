//! Minimal, allocation-light progress reporting: a counter for each phase on a line of its own,
//! with an optional tally of bytes.
//!
//! A phase decides when its line is due and what it says; whoever owns the terminal tells it the
//! time, as nanoseconds from some fixed moment, and writes what it is handed.

use crate::text;
use crate::text::{push_decimal, push_padded_decimal};
use vstd::prelude::*;
use vstd::string::*;

verus! {

/// A line is drawn at most this often, in nanoseconds. Any faster is wasted on a counter that
/// humans cannot read.
pub const REDRAW_INTERVAL: u64 = 66_000_000;

// ---------------------------------------------------------------------------------------------
// Byte counts
// ---------------------------------------------------------------------------------------------
/// How many bytes the `k`-th unit stands for.
pub open spec fn unit_size(k: nat) -> nat
    decreases k,
{
    if k == 0 {
        1
    } else {
        1024 * unit_size((k - 1) as nat)
    }
}

/// The largest unit that is not larger than `n` bytes.
pub open spec fn unit_of(n: nat) -> nat
    decreases n,
{
    if n < 1024 {
        0
    } else {
        unit_of(n / 1024) + 1
    }
}

/// How many whole units there are in `n` bytes.
pub open spec fn whole_units(n: nat) -> nat
    decreases n,
{
    if n < 1024 {
        n
    } else {
        whole_units(n / 1024)
    }
}

/// How many of the next smaller unit are left over.
pub open spec fn smaller_units(n: nat) -> nat
    decreases n,
{
    if n < 1024 {
        0
    } else if n < 1024 * 1024 {
        n % 1024
    } else {
        smaller_units(n / 1024)
    }
}

/// What the `k`-th unit is called.
pub open spec fn unit_name(k: nat) -> Seq<char> {
    if k == 0 {
        "B"@
    } else if k == 1 {
        "KiB"@
    } else if k == 2 {
        "MiB"@
    } else if k == 3 {
        "GiB"@
    } else if k == 4 {
        "TiB"@
    } else if k == 5 {
        "PiB"@
    } else {
        "EiB"@
    }
}

/// A byte count in its largest unit, cut after two decimal places.
pub open spec fn human_text(n: nat) -> Seq<char> {
    if unit_of(n) == 0 {
        text::decimal(n) + seq![' '] + unit_name(0)
    } else {
        text::decimal(whole_units(n)) + seq!['.'] + text::padded_decimal(
            smaller_units(n) * 100 / 1024,
            2,
        ) + seq![' '] + unit_name(unit_of(n))
    }
}

/// A byte count to be written with a binary unit prefix (KiB, MiB, ...).
#[derive(Clone, Copy, Debug)]
pub struct HumanBytes(pub u64);

impl HumanBytes {
    /// The byte count as text.
    pub fn to_text(&self) -> (r: String)
        ensures
            r@ == human_text(self.0 as nat),
    {
        let mut n: u64 = self.0;
        let mut unit: u64 = 0;
        let mut left: u64 = 0;
        while n >= 1024
            invariant
                unit + unit_of(n as nat) == unit_of(self.0 as nat),
                whole_units(n as nat) == whole_units(self.0 as nat),
                n < 1024 ==> left == smaller_units(self.0 as nat),
                n >= 1024 ==> smaller_units(n as nat) == smaller_units(self.0 as nat),
                left < 1024,
                unit <= 6,
                n >= 1024 ==> unit < 6,
                unit == 0 ==> n <= 0xffff_ffff_ffff_ffff,
                unit == 1 ==> n <= 0x3f_ffff_ffff_ffff,
                unit == 2 ==> n <= 0xfff_ffff_ffff,
                unit == 3 ==> n <= 0x3_ffff_ffff,
                unit == 4 ==> n <= 0xff_ffff,
                unit == 5 ==> n <= 0x3fff,
                unit == 6 ==> n <= 0xf,
            decreases n,
        {
            left = n % 1024;
            n = n / 1024;
            unit = unit + 1;
        }
        let mut out = String::new();
        push_decimal(&mut out, n);
        if unit > 0 {
            out.push('.');
            push_padded_decimal(&mut out, left * 100 / 1024, 2);
        }
        out.push(' ');
        if unit == 0 {
            out.append("B");
        } else if unit == 1 {
            out.append("KiB");
        } else if unit == 2 {
            out.append("MiB");
        } else if unit == 3 {
            out.append("GiB");
        } else if unit == 4 {
            out.append("TiB");
        } else if unit == 5 {
            out.append("PiB");
        } else {
            out.append("EiB");
        }
        assert(out@ =~= human_text(self.0 as nat));
        out
    }
}

/// What is written of a byte count never exceeds it, falls short of it by less than eleven
/// thousandths of the unit, and needs no more than four digits before the point.
pub proof fn a_byte_count_is_cut_not_rounded(n: nat)
    ensures
        whole_units(n) < 1024,
        smaller_units(n) * 100 / 1024 < 100,
        unit_of(n) > 0 ==> {
            let hundredths = 100 * whole_units(n) + smaller_units(n) * 100 / 1024;
            &&& hundredths * unit_size(unit_of(n)) <= 100 * n
            &&& 1000 * (n + 1) <= (10 * hundredths + 11) * unit_size(unit_of(n))
        },
        unit_of(n) == 0 ==> whole_units(n) == n,
    decreases n,
{
    let k = unit_of(n);
    if n < 1024 {
    } else {
        let m = n / 1024;
        a_byte_count_is_cut_not_rounded(m);
        let size = unit_size(unit_of(m));
        assert(unit_size(k) == 1024 * size);
        let h = 100 * whole_units(n) + smaller_units(n) * 100 / 1024;
        if m < 1024 {
            assert(unit_size(0) == 1);
            assert(unit_size(k) == 1024);
            assert(h * 1024 <= 100 * n);
        } else {
            assert(smaller_units(n) == smaller_units(m));
            assert(h * (1024 * size) == 1024 * (h * size)) by (nonlinear_arith);
            assert((10 * h + 11) * (1024 * size) == 1024 * ((10 * h + 11) * size))
                by (nonlinear_arith);
        }
    }
}

// ---------------------------------------------------------------------------------------------
// Phases
// ---------------------------------------------------------------------------------------------
/// What a phase has counted, when it was last drawn, and whether it is drawn at all.
#[verifier::ext_equal]
pub struct PhaseView {
    pub prefix: Seq<char>,
    pub pos: u64,
    pub len: u64,
    pub bytes: u64,
    pub last_draw: Option<u64>,
    pub enabled: bool,
}

/// A phase that has counted nothing.
pub open spec fn fresh_phase(prefix: Seq<char>, enabled: bool) -> PhaseView {
    PhaseView { prefix, pos: 0, len: 0, bytes: 0, last_draw: None, enabled }
}

/// The line of a phase.
pub open spec fn line_of(p: PhaseView) -> Seq<char> {
    let counted = p.prefix + seq![' ', '['] + text::decimal(p.pos as nat) + seq!['/']
        + text::decimal(p.len as nat) + seq![']'];
    if p.bytes > 0 {
        counted + seq![' '] + human_text(p.bytes as nat)
    } else {
        counted
    }
}

/// What clears the current line of a terminal.
pub open spec fn clear_line() -> Seq<char> {
    seq!['\r', '\x1b', '[', '2', 'K']
}

/// Whether a line is due: never where nothing is drawn, otherwise unless too little time has
/// passed since the last.
pub open spec fn is_due(p: PhaseView, now: u64) -> bool {
    p.enabled && (p.last_draw matches Some(last) ==> now - last >= REDRAW_INTERVAL)
}

/// The phase after its line was asked for at `now`.
pub open spec fn drawn(p: PhaseView, now: u64) -> PhaseView {
    if is_due(p, now) {
        PhaseView { last_draw: Some(now), ..p }
    } else {
        p
    }
}

/// What is to be written when the line is asked for at `now`.
pub open spec fn to_draw(p: PhaseView, now: u64) -> Option<Seq<char>> {
    if is_due(p, now) {
        Some(clear_line() + line_of(p))
    } else {
        None
    }
}

/// Per-phase progress reporter.
pub struct Phase {
    prefix: &'static str,
    pos: u64,
    len: u64,
    bytes: u64,
    last_draw: Option<u64>,
    enabled: bool,
}

impl View for Phase {
    type V = PhaseView;

    closed spec fn view(&self) -> PhaseView {
        PhaseView {
            prefix: self.prefix@,
            pos: self.pos,
            len: self.len,
            bytes: self.bytes,
            last_draw: self.last_draw,
            enabled: self.enabled,
        }
    }
}

impl Phase {
    /// A live reporter, if `enabled`: where there is a terminal to draw on.
    #[must_use]
    pub fn new(prefix: &'static str, enabled: bool) -> (r: Self)
        ensures
            r@ == fresh_phase(prefix@, enabled),
    {
        Phase { prefix, pos: 0, len: 0, bytes: 0, last_draw: None, enabled }
    }

    /// A reporter that emits nothing.
    #[must_use]
    pub fn hidden() -> (r: Self)
        ensures
            r@ == fresh_phase(""@, false),
    {
        Phase::new("", false)
    }

    /// Sets how far the phase is, and returns what is to be written at `now`.
    pub fn set_position(&mut self, pos: u64, now: u64) -> (r: Option<String>)
        ensures
            final(self)@ == drawn(PhaseView { pos, ..old(self)@ }, now),
            text::opt_text(r) == to_draw(PhaseView { pos, ..old(self)@ }, now),
    {
        self.pos = pos;
        self.maybe_draw(now)
    }

    /// Sets how far the phase goes.
    pub fn set_length(&mut self, len: u64)
        ensures
            final(self)@ == (PhaseView { len, ..old(self)@ }),
    {
        self.len = len;
    }

    /// Lets the phase go further. The counter wraps around.
    pub fn inc_length(&mut self, by: u64)
        ensures
            final(self)@ == (PhaseView { len: old(self)@.len.wrapping_add(by), ..old(self)@ }),
    {
        self.len = self.len.wrapping_add(by);
    }

    /// Moves the phase ahead, and returns what is to be written at `now`. The counter wraps
    /// around.
    pub fn inc(&mut self, by: u64, now: u64) -> (r: Option<String>)
        ensures
            ({
                let next = PhaseView { pos: old(self)@.pos.wrapping_add(by), ..old(self)@ };
                final(self)@ == drawn(next, now) && text::opt_text(r) == to_draw(next, now)
            }),
    {
        self.pos = self.pos.wrapping_add(by);
        self.maybe_draw(now)
    }

    /// Records a running byte total to show alongside the counter.
    pub fn set_bytes(&mut self, bytes: u64)
        ensures
            final(self)@ == (PhaseView { bytes, ..old(self)@ }),
    {
        self.bytes = bytes;
    }

    /// What is to be written at the end of the phase: its last line, and a line break.
    pub fn finish(&self) -> (r: Option<String>)
        ensures
            text::opt_text(r) == (if self@.enabled {
                Some(clear_line() + line_of(self@) + seq!['\n'])
            } else {
                None
            }),
    {
        if !self.enabled {
            return None;
        }
        let mut out = self.clear_and_line();
        out.push('\n');
        assert(out@ =~= clear_line() + line_of(self@) + seq!['\n']);
        Some(out)
    }

    /// What is to be written when the line is asked for at `now`.
    fn maybe_draw(&mut self, now: u64) -> (r: Option<String>)
        ensures
            final(self)@ == drawn(old(self)@, now),
            text::opt_text(r) == to_draw(old(self)@, now),
    {
        if !self.enabled {
            return None;
        }
        if let Some(last) = self.last_draw {
            if now < last || now - last < REDRAW_INTERVAL {
                return None;
            }
        }
        self.last_draw = Some(now);
        Some(self.clear_and_line())
    }

    fn clear_and_line(&self) -> (r: String)
        ensures
            r@ == clear_line() + line_of(self@),
    {
        let mut out = String::new();
        out.push('\r');
        out.push('\x1b');
        out.push('[');
        out.push('2');
        out.push('K');
        assert(out@ =~= clear_line());
        out.append(self.line().as_str());
        out
    }

    /// The line of the phase.
    pub fn line(&self) -> (r: String)
        ensures
            r@ == line_of(self@),
    {
        let mut out = String::new();
        out.append(self.prefix);
        out.push(' ');
        out.push('[');
        push_decimal(&mut out, self.pos);
        out.push('/');
        push_decimal(&mut out, self.len);
        out.push(']');
        if self.bytes > 0 {
            out.push(' ');
            out.append(HumanBytes(self.bytes).to_text().as_str());
        }
        assert(out@ =~= line_of(self@));
        out
    }
}

/// Between two lines of a phase passes at least the redraw interval, whatever was counted in
/// between.
pub proof fn lines_keep_their_distance(before: PhaseView, between: PhaseView, first: u64, next: u64)
    requires
        is_due(before, first),
        between.last_draw == drawn(before, first).last_draw,
        is_due(between, next),
    ensures
        next - first >= REDRAW_INTERVAL,
{
}

/// A hidden phase stays hidden and draws nothing.
pub proof fn a_hidden_phase_draws_nothing(p: PhaseView, now: u64)
    requires
        !p.enabled,
    ensures
        to_draw(p, now) is None,
        drawn(p, now) == p,
{
}

// ---------------------------------------------------------------------------------------------
// Laws of what is written
// ---------------------------------------------------------------------------------------------
/// The unit of a byte count is the largest that it holds at least once, units go by 1024, and what
/// is written before the point is how many of the unit there are, and behind it, in hundredths, how
/// many of the next smaller one are left.
pub proof fn a_byte_count_is_told_in_its_largest_unit(n: nat)
    ensures
        unit_size(0) == 1,
        unit_size(1) == 1024,
        forall|k: nat| #[trigger] unit_size(k + 1) == 1024 * unit_size(k),
        n > 0 ==> unit_size(unit_of(n)) <= n,
        n < 1024 * unit_size(unit_of(n)),
        whole_units(n) == n / unit_size(unit_of(n)),
        unit_of(n) > 0 ==> smaller_units(n) == (n / unit_size((unit_of(n) - 1) as nat)) % 1024,
    decreases n,
{
    assert(unit_size(1) == 1024) by {
        reveal_with_fuel(unit_size, 2);
    }
    if n >= 1024 {
        let m = n / 1024;
        a_byte_count_is_told_in_its_largest_unit(m);
        let s = unit_size(unit_of(m));
        lemma_unit_size(unit_of(m));
        assert(unit_size(unit_of(n)) == 1024 * s);
        assert(m < 1024 * s);
        assert(1024 * s <= n && n < 1024 * (1024 * s));
        lemma_divided_twice(n, s);
        if m >= 1024 {
            let t = unit_size((unit_of(m) - 1) as nat);
            lemma_unit_size((unit_of(m) - 1) as nat);
            assert(unit_size(unit_of(m)) == 1024 * t);
            lemma_divided_twice(n, t);
            assert((unit_of(n) - 1) as nat == unit_of(m));
        } else {
            assert(unit_of(m) == 0);
            assert((unit_of(n) - 1) as nat == 0);
            assert(n / 1 == n);
        }
    } else {
        assert(n / 1 == n);
    }
}

proof fn lemma_unit_size(k: nat)
    ensures
        unit_size(k) > 0,
    decreases k,
{
    if k > 0 {
        lemma_unit_size((k - 1) as nat);
    }
}

proof fn lemma_divided_twice(n: nat, s: nat)
    requires
        s > 0,
    ensures
        (n / 1024) / s == n / (1024 * s),
{
    vstd::arithmetic::div_mod::lemma_div_denominator(n as int, 1024, s as int);
}

/// How a byte count reads: plain bytes as they are, and any other count with two digits behind the
/// point and the name of its unit.
pub proof fn a_byte_count_reads_with_its_unit(n: nat)
    ensures
        n < 1024 ==> human_text(n) == text::decimal(n) + " B"@,
        n >= 1024 ==> {
            let cut = smaller_units(n) * 100 / 1024;
            let number = text::decimal(whole_units(n)) + seq!['.'] + (if cut < 10 {
                seq!['0']
            } else {
                Seq::empty()
            }) + text::decimal(cut);
            &&& n < 0x10_0000 ==> human_text(n) == number + " KiB"@
            &&& 0x10_0000 <= n < 0x4000_0000 ==> human_text(n) == number + " MiB"@
            &&& 0x4000_0000 <= n < 0x100_0000_0000 ==> human_text(n) == number + " GiB"@
            &&& 0x100_0000_0000 <= n < 0x4_0000_0000_0000 ==> human_text(n) == number + " TiB"@
            &&& 0x4_0000_0000_0000 <= n < 0x1000_0000_0000_0000 ==> human_text(n) == number
                + " PiB"@
            &&& 0x1000_0000_0000_0000 <= n < 0x40_0000_0000_0000_0000 ==> human_text(n) == number
                + " EiB"@
        },
{
    reveal_strlit(" B");
    reveal_strlit("B");
    reveal_strlit(" KiB");
    reveal_strlit("KiB");
    reveal_strlit(" MiB");
    reveal_strlit("MiB");
    reveal_strlit(" GiB");
    reveal_strlit("GiB");
    reveal_strlit(" TiB");
    reveal_strlit("TiB");
    reveal_strlit(" PiB");
    reveal_strlit("PiB");
    reveal_strlit(" EiB");
    reveal_strlit("EiB");
    assert(" B"@ =~= seq![' '] + "B"@);
    assert(" KiB"@ =~= seq![' '] + "KiB"@);
    assert(" MiB"@ =~= seq![' '] + "MiB"@);
    assert(" GiB"@ =~= seq![' '] + "GiB"@);
    assert(" TiB"@ =~= seq![' '] + "TiB"@);
    assert(" PiB"@ =~= seq![' '] + "PiB"@);
    assert(" EiB"@ =~= seq![' '] + "EiB"@);
    lemma_unit_of(n);
    if n < 1024 {
        assert(human_text(n) =~= text::decimal(n) + " B"@);
    } else {
        let cut = smaller_units(n) * 100 / 1024;
        a_byte_count_is_cut_not_rounded(n);
        text::two_digits_are_written_in_two(cut);
        let zero = if cut < 10 {
            seq!['0']
        } else {
            Seq::empty()
        };
        let number = text::decimal(whole_units(n)) + seq!['.'] + zero + text::decimal(cut);
        assert(zero + text::decimal(cut) =~= text::padded_decimal(cut, 2));
        let name = unit_name(unit_of(n));
        assert(human_text(n) =~= number + (seq![' '] + name));
    }
}

proof fn lemma_unit_of(n: nat)
    ensures
        n < 1024 ==> unit_of(n) == 0,
        1024 <= n < 0x10_0000 ==> unit_of(n) == 1,
        0x10_0000 <= n < 0x4000_0000 ==> unit_of(n) == 2,
        0x4000_0000 <= n < 0x100_0000_0000 ==> unit_of(n) == 3,
        0x100_0000_0000 <= n < 0x4_0000_0000_0000 ==> unit_of(n) == 4,
        0x4_0000_0000_0000 <= n < 0x1000_0000_0000_0000 ==> unit_of(n) == 5,
        0x1000_0000_0000_0000 <= n < 0x40_0000_0000_0000_0000 ==> unit_of(n) == 6,
    decreases n,
{
    if n >= 1024 {
        lemma_unit_of(n / 1024);
    }
}

/// How a phase reads: its name, how far it is and how far it goes, and, once there are any, the
/// bytes.
pub proof fn a_phase_reads_with_its_counts(p: PhaseView)
    ensures
        p.bytes == 0 ==> line_of(p) == p.prefix + " ["@ + text::decimal(p.pos as nat) + "/"@
            + text::decimal(p.len as nat) + "]"@,
        p.bytes > 0 ==> line_of(p) == line_of(PhaseView { bytes: 0, ..p }) + " "@ + human_text(
            p.bytes as nat,
        ),
{
    reveal_strlit(" [");
    reveal_strlit("/");
    reveal_strlit("]");
    reveal_strlit(" ");
    assert(" ["@ =~= seq![' ', '[']);
    assert("/"@ =~= seq!['/']);
    assert("]"@ =~= seq![']']);
    assert(" "@ =~= seq![' ']);
}

/// A phase that is shown is drawn at once, and then whenever 66 milliseconds have passed since the
/// last line; never earlier, and with its counts as they are. What is counted stays as it is.
pub proof fn a_phase_is_drawn_when_it_is_due(p: PhaseView, now: u64)
    ensures
        p.enabled && p.last_draw is None ==> to_draw(p, now) is Some,
        p.enabled ==> (p.last_draw matches Some(last) ==> (to_draw(p, now) is Some <==> now
            >= last + 66_000_000)),
        !p.enabled ==> to_draw(p, now) is None,
        to_draw(p, now) matches Some(text) ==> text == seq!['\r', '\x1b', '[', '2', 'K'] + line_of(p),
        to_draw(p, now) is Some ==> drawn(p, now).last_draw == Some(now),
        to_draw(p, now) is None ==> drawn(p, now) == p,
        line_of(drawn(p, now)) == line_of(p),
        drawn(p, now).pos == p.pos && drawn(p, now).len == p.len && drawn(p, now).bytes == p.bytes,
        drawn(p, now).enabled == p.enabled && drawn(p, now).prefix == p.prefix,
{
}

/// A phase begins with nothing done, nothing to do and no line drawn.
pub proof fn a_phase_begins_at_zero(prefix: Seq<char>, enabled: bool, now: u64)
    ensures
        line_of(fresh_phase(prefix, enabled)) == prefix + " [0/0]"@,
        to_draw(fresh_phase(prefix, enabled), now) is Some <==> enabled,
        fresh_phase(prefix, enabled).enabled == enabled,
        fresh_phase(prefix, enabled).prefix == prefix,
{
    reveal_strlit(" [0/0]");
    assert(text::decimal(0) =~= seq!['0']);
    assert(line_of(fresh_phase(prefix, enabled)) =~= prefix + " [0/0]"@);
}

} // verus!
