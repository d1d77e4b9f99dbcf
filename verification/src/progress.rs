//! Progress reporting for the phases that take hours.
//!
//! Under a batch scheduler the output is a file, and a redrawn bar would leave thousands of
//! fragments in it. There one line is printed at a fixed interval and one at the end.
use vstd::prelude::*;
use vstd::string::*;
use crate::text;

verus! {

/// How many nanoseconds lie between two lines.
pub const LOG_INTERVAL_NANOS: u128 = 30_000_000_000;

/// What a run has counted, and when it last said so. Times are nanoseconds of one clock.
#[derive(Debug)]
pub struct State {
    pub label: String,
    /// What is counted.
    pub unit: String,
    pub total: u64,
    pub done: u64,
    /// A second tally, shown beside the count.
    pub items: u64,
    pub started: u128,
    pub last_logged: u128,
}

/// The figures of a line that are computed in floating point.
#[derive(Debug)]
pub struct Figures {
    /// The share of the units that are done, in percent with one decimal.
    pub percent: String,
    /// Items per second, rounded to a whole number.
    pub rate: String,
    /// The whole seconds that the rest will take at the pace so far.
    pub remaining_secs: u64,
}

/// A duration for a reader: the two largest of hours, minutes and seconds.
pub open spec fn duration_text(secs: nat) -> Seq<char> {
    let h = secs / 3600;
    let m = secs % 3600 / 60;
    let s = secs % 60;
    if h == 0 && m == 0 {
        text::decimal_text(s) + "s"@
    } else if h == 0 {
        text::decimal_text(m) + "m"@ + text::decimal_text(s) + "s"@
    } else {
        text::decimal_text(h) + "h"@ + text::decimal_text(m) + "m"@
    }
}

/// Compact duration: `4h12m`, `7m3s`, `12s`.
pub fn short_duration(secs: u64) -> (text: String)
    ensures
        text@ == duration_text(secs as nat),
{
    let h: u64 = secs / 3600;
    let m: u64 = secs % 3600 / 60;
    let s: u64 = secs % 60;
    if h == 0 && m == 0 {
        text::cat2(text::decimal(s as u128).as_str(), "s")
    } else if h == 0 {
        text::cat4(
            text::decimal(m as u128).as_str(),
            "m",
            text::decimal(s as u128).as_str(),
            "s",
        )
    } else {
        text::cat4(
            text::decimal(h as u128).as_str(),
            "h",
            text::decimal(m as u128).as_str(),
            "m",
        )
    }
}

impl State {
    /// Whether the clock has not gone back behind what the state remembers, and the time since the
    /// start can be counted in whole seconds.
    pub open spec fn runs_at(self, now: u128) -> bool {
        self.started <= now && self.last_logged <= now && (now - self.started) / 1_000_000_000
            <= u64::MAX
    }

    /// The progress line at a time.
    pub open spec fn line_text(self, now: u128, figures: Figures) -> Seq<char> {
        let elapsed = (now - self.started) as nat;
        let percent = if self.total > 0 {
            figures.percent@
        } else {
            "100.0"@
        };
        let rate = if elapsed > 0 {
            figures.rate@
        } else {
            "0"@
        };
        let eta = if 0 < self.done < self.total {
            ", eta "@ + duration_text(figures.remaining_secs as nat)
        } else {
            Seq::empty()
        };
        (self.label@ + ": "@ + text::decimal_text(self.done as nat) + "/"@ + text::decimal_text(
            self.total as nat,
        ) + " "@ + self.unit@) + ("s ("@ + percent + "%), "@ + text::decimal_text(self.items as nat)
            + " points, "@ + rate + " points/s, elapsed "@) + duration_text(
            elapsed / 1_000_000_000,
        ) + eta
    }

    /// One human-readable progress line. An estimate of the rest is given once a unit is done and
    /// until all are.
    pub fn line(&self, now: u128, figures: &Figures) -> (line: String)
        requires
            self.runs_at(now),
        ensures
            line@ == self.line_text(now, *figures),
    {
        let elapsed: u128 = now - self.started;
        let percent: &str = if self.total > 0 {
            figures.percent.as_str()
        } else {
            "100.0"
        };
        let rate: &str = if elapsed > 0 {
            figures.rate.as_str()
        } else {
            "0"
        };
        let eta = if self.done > 0 && self.done < self.total {
            text::cat2(", eta ", short_duration(figures.remaining_secs).as_str())
        } else {
            let eta = String::new();
            assert(eta@ =~= Seq::empty());
            eta
        };
        let front = text::cat7(
            self.label.as_str(),
            ": ",
            text::decimal(self.done as u128).as_str(),
            "/",
            text::decimal(self.total as u128).as_str(),
            " ",
            self.unit.as_str(),
        );
        let middle = text::cat7(
            "s (",
            percent,
            "%), ",
            text::decimal(self.items as u128).as_str(),
            " points, ",
            rate,
            " points/s, elapsed ",
        );
        let secs: u64 = (elapsed / 1_000_000_000) as u64;
        text::cat4(front.as_str(), middle.as_str(), short_duration(secs).as_str(), eta.as_str())
    }

    /// Whether a line is due at a time: when forced, or when the interval has elapsed since the last
    /// one. The line counts as printed.
    pub fn log_if_due(&mut self, now: u128, force: bool) -> (due: bool)
        requires
            old(self).last_logged <= now,
        ensures
            due == (force || now - old(self).last_logged >= LOG_INTERVAL_NANOS),
            *final(self) == (State {
                last_logged: if due {
                    now
                } else {
                    old(self).last_logged
                },
                ..*old(self)
            }),
    {
        if force || now - self.last_logged >= LOG_INTERVAL_NANOS {
            self.last_logged = now;
            return true;
        }
        false
    }

    /// Record one completed unit, plus `items` of whatever it contained. Says whether it was the
    /// last, which always gets a line of its own.
    pub fn advance(&mut self, items: u64) -> (last: bool)
        requires
            old(self).done < u64::MAX,
            old(self).items + items <= u64::MAX,
        ensures
            last == (old(self).done + 1 >= old(self).total),
            *final(self) == (State {
                done: (old(self).done + 1) as u64,
                items: (old(self).items + items) as u64,
                ..*old(self)
            }),
    {
        self.done = self.done + 1;
        self.items = self.items + items;
        self.done >= self.total
    }

    /// Whether a phase that ends has to say where it got to: the last unit was never reached.
    pub fn ended_early(&self) -> (early: bool)
        ensures
            early == (self.done < self.total),
    {
        self.done < self.total
    }
}

/// A duration is read as hours and minutes, as minutes and seconds where there is no hour, and as
/// seconds where there is no minute either. Minutes and seconds are below sixty, and no time is lost
/// but the seconds behind hours.
pub proof fn a_duration_is_told_by_its_largest_units(hours: nat, minutes: nat, seconds: nat)
    requires
        minutes < 60,
        seconds < 60,
    ensures
        hours > 0 ==> duration_text(3600 * hours + 60 * minutes + seconds) == text::decimal_text(
            hours,
        ) + "h"@ + text::decimal_text(minutes) + "m"@,
        minutes > 0 ==> duration_text(60 * minutes + seconds) == text::decimal_text(minutes) + "m"@
            + text::decimal_text(seconds) + "s"@,
        duration_text(seconds) == text::decimal_text(seconds) + "s"@,
{
    let all = 3600 * hours + 60 * minutes + seconds;
    assert(all / 3600 == hours);
    assert(all % 3600 / 60 == minutes);
}

/// A figure counts only where there is something to take it of: the percentage where there are units,
/// the rate where time has passed, and the rest, told last, while some units are done and some are
/// not.
pub proof fn figures_count_where_there_is_progress(
    state: State,
    now: u128,
    figures: Figures,
    other: Figures,
)
    requires
        state.runs_at(now),
        state.total > 0 ==> figures.percent@ == other.percent@,
        now > state.started ==> figures.rate@ == other.rate@,
        0 < state.done < state.total ==> figures.remaining_secs == other.remaining_secs,
    ensures
        state.line_text(now, figures) == state.line_text(now, other),
        0 < state.done < state.total ==> text::ends(
            state.line_text(now, figures),
            ", eta "@ + duration_text(figures.remaining_secs as nat),
        ),
{
    let line = state.line_text(now, figures);
    if 0 < state.done < state.total {
        let eta = ", eta "@ + duration_text(figures.remaining_secs as nat);
        assert(line.skip(line.len() - eta.len()) =~= eta);
    }
}

} // verus!
