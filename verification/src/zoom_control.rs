//! The visible time range and its animation towards a target range.
//!
//! Times are in microseconds, factors and fractions in millionths. Every
//! time that is kept lies within `SPAN` of zero; what would fall outside is
//! held at the edge.

use vstd::prelude::*;
use crate::fixed::{
    clamp, div_round, div_round_i128, div_round_signed, div_round_signed_i128,
    lemma_div_round_nearest, lemma_div_round_sign, lemma_product_bound, mul_div_round,
};

verus! {

/// The largest magnitude of a time that is kept.
pub const SPAN: i64 = 0x2000_0000_0000_0000;

/// How the visible range behaves.
#[derive(Clone, Copy, Debug)]
pub struct ZoomOptions {
    /// Share of its way, in millionths, after which the visible range jumps
    /// to the target.
    pub snap_range: i64,
    /// Share of its way, in millionths, that the visible range covers per
    /// second.
    pub speed: i64,
    /// Smallest size of the target range.
    pub min_zoom: i64,
    /// Largest size of the target range.
    pub max_zoom: i64,
}

/// What moved the target range last.
#[derive(Clone, Copy, Debug, PartialEq, Eq, Structural)]
pub enum LastOperation {
    Pan,
    Zoom,
}

/// The visible range, the range it moves to, and the range it may show.
#[derive(Clone, Copy, Debug)]
pub struct ZoomControl {
    pub available_time: (i64, i64),
    pub cur_range: (i64, i64),
    pub target_range: (i64, i64),
    pub options: ZoomOptions,
    pub last_operation: LastOperation,
}

/// `x` held within `SPAN` of zero.
pub open spec fn held(x: int) -> int {
    clamp(x, -SPAN as int, SPAN as int)
}

/// Both ends of the range lie within `SPAN` of zero.
pub open spec fn in_span(range: (i64, i64)) -> bool {
    -SPAN <= range.0 <= SPAN && -SPAN <= range.1 <= SPAN
}

/// The range from `start` to `end` moved into `available` without changing
/// its size, and cut at the ends of `available` if it is larger.
pub open spec fn fitted(start: int, end: int, available: (i64, i64)) -> (int, int) {
    let (start1, end1) = if start < available.0 {
        (available.0 as int, end + (available.0 - start))
    } else {
        (start, end)
    };
    let (start2, end2) = if end1 > available.1 {
        (start1 - (end1 - available.1), available.1 as int)
    } else {
        (start1, end1)
    };
    (
        if start2 > available.0 {
            start2
        } else {
            available.0 as int
        },
        if end2 < available.1 {
            end2
        } else {
            available.1 as int
        },
    )
}

/// The share of the way, in millionths of a millionth, that the visible
/// range covers in `dt` microseconds: `speed * dt`, and no more than all of
/// it. A negative speed or time gives a negative share: the range moves
/// away from the target.
pub open spec fn share(speed: i64, dt: i64) -> int {
    if speed * dt > 1_000_000_000_000 {
        1_000_000_000_000
    } else {
        speed * dt
    }
}

/// `from` moved towards `to` by `share` millionths of a millionth of the way.
pub open spec fn moved(from: i64, to: i64, share: int) -> int {
    from + div_round((to - from) * share, 1_000_000_000_000)
}

impl ZoomOptions {
    /// The options allow a size.
    pub open spec fn wf(self) -> bool {
        self.min_zoom <= self.max_zoom
    }
}

impl ZoomControl {
    /// The ranges lie within `SPAN` of zero and the options are well formed.
    pub open spec fn wf(self) -> bool {
        &&& in_span(self.available_time)
        &&& in_span(self.cur_range)
        &&& in_span(self.target_range)
        &&& self.options.wf()
    }

    /// Size of the visible range.
    pub open spec fn cur_size(self) -> int {
        self.cur_range.1 - self.cur_range.0
    }

    /// How far the visible range is from the target, both ends together.
    pub open spec fn way(self) -> int {
        (if self.cur_range.0 >= self.target_range.0 {
            self.cur_range.0 - self.target_range.0
        } else {
            self.target_range.0 - self.cur_range.0
        }) + (if self.cur_range.1 >= self.target_range.1 {
            self.cur_range.1 - self.target_range.1
        } else {
            self.target_range.1 - self.cur_range.1
        })
    }

    /// The visible range is close enough to the target to jump there: the
    /// way left is at most the size of the visible range times the rest of
    /// `snap_range` to one, plus ten microseconds.
    pub open spec fn snaps(self) -> bool {
        self.way() * 1_000_000 <= self.cur_size() * (1_000_000 - self.options.snap_range)
            + 10_000_000
    }

    /// The range that a zoom starts from: the visible range while a pan is
    /// under way, else the target.
    pub open spec fn zoom_base(self) -> (i64, i64) {
        if self.last_operation == LastOperation::Pan {
            self.cur_range
        } else {
            self.target_range
        }
    }

    /// The size of the target after a zoom by `factor` millionths: the size
    /// of the base times the factor, kept between `min_zoom` and `max_zoom`.
    pub open spec fn zoomed_size(self, factor: i64) -> int {
        let base = self.zoom_base();
        clamp(
            div_round((base.1 - base.0) * factor, 1_000_000),
            self.options.min_zoom as int,
            self.options.max_zoom as int,
        )
    }

    /// Where the target starts after a zoom around `center`: the base start,
    /// moved by the change in size times the share of the visible range that
    /// lies before `center`.
    pub open spec fn zoomed_start(self, factor: i64, center: i64) -> int {
        let base = self.zoom_base();
        base.0 - div_round_signed(
            (self.zoomed_size(factor) - (base.1 - base.0)) * (held(center as int)
                - self.cur_range.0),
            self.cur_size(),
        )
    }

    /// The target after a zoom: the zoomed range cut at the ends of the
    /// available time.
    pub open spec fn zoomed(self, factor: i64, center: i64) -> (i64, i64) {
        let start = self.zoomed_start(factor, center);
        let end = start + self.zoomed_size(factor);
        (
            held(
                if start > self.available_time.0 {
                    start
                } else {
                    self.available_time.0 as int
                },
            ) as i64,
            held(
                if end < self.available_time.1 {
                    end
                } else {
                    self.available_time.1 as int
                },
            ) as i64,
        )
    }

    /// The target after a pan by `amount` millionths of its size.
    pub open spec fn panned(self, amount: i64) -> (i64, i64) {
        let distance = div_round(
            amount * (self.target_range.1 - self.target_range.0),
            1_000_000,
        );
        let range = fitted(
            self.target_range.0 + distance,
            self.target_range.1 + distance,
            self.available_time,
        );
        (held(range.0) as i64, held(range.1) as i64)
    }

    /// The visible range.
    pub fn current_range(&self) -> (r: (i64, i64))
        ensures
            r == self.cur_range,
    {
        self.cur_range
    }

    /// Sets the available time, held within `SPAN`, and moves the target
    /// into it.
    pub fn update_time(&mut self, available_time: (i64, i64))
        requires
            old(self).wf(),
        ensures
            final(self).wf(),
            final(self).available_time == (
                held(available_time.0 as int) as i64,
                held(available_time.1 as int) as i64,
            ),
            final(self).target_range.0 == held(
                fitted(
                    old(self).target_range.0 as int,
                    old(self).target_range.1 as int,
                    final(self).available_time,
                ).0,
            ),
            final(self).target_range.1 == held(
                fitted(
                    old(self).target_range.0 as int,
                    old(self).target_range.1 as int,
                    final(self).available_time,
                ).1,
            ),
            final(self).cur_range == old(self).cur_range,
            final(self).options == old(self).options,
            final(self).last_operation == old(self).last_operation,
    {
        self.available_time = (hold(available_time.0 as i128), hold(available_time.1 as i128));
        self.target_range = fit(
            self.target_range.0 as i128,
            self.target_range.1 as i128,
            self.available_time,
        );
    }

    /// Moves the visible range towards the target for `dt` microseconds: all
    /// the way if it is close enough, else by the share that `speed` gives,
    /// each end held within `SPAN`.
    pub fn update(&mut self, dt: i64)
        requires
            old(self).wf(),
        ensures
            final(self).wf(),
            old(self).snaps() ==> final(self).cur_range == old(self).target_range,
            !old(self).snaps() ==> final(self).cur_range.0 == held(
                moved(
                    old(self).cur_range.0,
                    old(self).target_range.0,
                    share(old(self).options.speed, dt),
                ),
            ) && final(self).cur_range.1 == held(
                moved(
                    old(self).cur_range.1,
                    old(self).target_range.1,
                    share(old(self).options.speed, dt),
                ),
            ),
            final(self).target_range == old(self).target_range,
            final(self).available_time == old(self).available_time,
            final(self).options == old(self).options,
            final(self).last_operation == old(self).last_operation,
    {
        let size: i128 = self.cur_range.1 as i128 - self.cur_range.0 as i128;
        let way: i128 = gap(self.cur_range.0, self.target_range.0) + gap(
            self.cur_range.1,
            self.target_range.1,
        );
        let rest: i128 = 1_000_000 - self.options.snap_range as i128;
        proof {
            lemma_product_bound(
                size as int,
                rest as int,
                0x4000_0000_0000_0000,
                0x1_0000_0000_0000_0000,
            );
        }
        if way * 1_000_000 <= size * rest + 10_000_000 {
            self.cur_range = self.target_range;
            return ;
        }
        proof {
            lemma_product_bound(
                self.options.speed as int,
                dt as int,
                0x8000_0000_0000_0000,
                0x8000_0000_0000_0000,
            );
        }
        let full: i128 = (self.options.speed as i128) * (dt as i128);
        let alpha: i128 = if full > 1_000_000_000_000 {
            1_000_000_000_000
        } else {
            full
        };
        self.cur_range = (
            approach(self.cur_range.0, self.target_range.0, alpha),
            approach(self.cur_range.1, self.target_range.1, alpha),
        );
    }

    /// Zooms the target by `factor` millionths around `center`, which stays
    /// where it is in the visible range. A pan that is under way is given
    /// up: the zoom starts from the visible range.
    pub fn zoom(&mut self, factor: i64, center: i64)
        requires
            old(self).wf(),
            old(self).cur_size() != 0,
        ensures
            final(self).wf(),
            final(self).target_range == old(self).zoomed(factor, center),
            final(self).last_operation == LastOperation::Zoom,
            final(self).cur_range == old(self).cur_range,
            final(self).available_time == old(self).available_time,
            final(self).options == old(self).options,
    {
        if self.last_operation == LastOperation::Pan {
            self.target_range = self.cur_range;
        }
        let cur_size: i128 = self.cur_range.1 as i128 - self.cur_range.0 as i128;
        let current_size: i128 = self.target_range.1 as i128 - self.target_range.0 as i128;
        proof {
            lemma_product_bound(
                current_size as int,
                factor as int,
                0x4000_0000_0000_0000,
                0x8000_0000_0000_0000,
            );
        }
        let scaled: i128 = div_round_i128(current_size * (factor as i128), 1_000_000);
        let new_size: i128 = if scaled < self.options.min_zoom as i128 {
            self.options.min_zoom as i128
        } else if scaled > self.options.max_zoom as i128 {
            self.options.max_zoom as i128
        } else {
            scaled
        };
        let size_diff: i128 = new_size - current_size;
        let before: i128 = hold(center as i128) as i128 - self.cur_range.0 as i128;
        proof {
            lemma_product_bound(
                size_diff as int,
                before as int,
                0x1_0000_0000_0000_0000,
                0x4000_0000_0000_0000,
            );
            crate::fixed::lemma_div_round_signed_bound(size_diff * before, cur_size as int);
        }
        let shift: i128 = div_round_signed_i128(size_diff * before, cur_size as i64);
        let new_start: i128 = self.target_range.0 as i128 - shift;
        let new_end: i128 = new_start + new_size;
        let clamped_start: i128 = if new_start > self.available_time.0 as i128 {
            new_start
        } else {
            self.available_time.0 as i128
        };
        let clamped_end: i128 = if new_end < self.available_time.1 as i128 {
            new_end
        } else {
            self.available_time.1 as i128
        };
        self.target_range = (hold(clamped_start), hold(clamped_end));
        self.last_operation = LastOperation::Zoom;
    }

    /// Moves the target by `amount` millionths of its size, and back into
    /// the available time where it leaves it.
    pub fn pan(&mut self, amount: i64)
        requires
            old(self).wf(),
        ensures
            final(self).wf(),
            final(self).target_range == old(self).panned(amount),
            final(self).last_operation == LastOperation::Pan,
            final(self).cur_range == old(self).cur_range,
            final(self).available_time == old(self).available_time,
            final(self).options == old(self).options,
    {
        let range_size: i128 = self.target_range.1 as i128 - self.target_range.0 as i128;
        proof {
            lemma_product_bound(
                amount as int,
                range_size as int,
                0x8000_0000_0000_0000,
                0x4000_0000_0000_0000,
            );
            crate::fixed::lemma_div_round_signed_bound(amount * range_size, 1_000_000);
        }
        let pan_distance: i128 = div_round_i128((amount as i128) * range_size, 1_000_000);
        self.target_range = fit(
            self.target_range.0 as i128 + pan_distance,
            self.target_range.1 as i128 + pan_distance,
            self.available_time,
        );
        self.last_operation = LastOperation::Pan;
    }
}

impl Default for ZoomOptions {
    /// Jump after 99.5% of the way, cover ten times the way per second, and
    /// show between ten seconds and ten minutes.
    fn default() -> (r: ZoomOptions)
        ensures
            r.snap_range == 995_000,
            r.speed == 10_000_000,
            r.min_zoom == 10_000_000,
            r.max_zoom == 600_000_000,
    {
        ZoomOptions {
            snap_range: 995_000,
            speed: 10_000_000,
            min_zoom: 10_000_000,
            max_zoom: 600_000_000,
        }
    }
}

impl Default for ZoomControl {
    /// Thirty seconds from zero: available, visible and targeted.
    fn default() -> (r: ZoomControl)
        ensures
            r.wf(),
            r.available_time == (0i64, 30_000_000i64),
            r.cur_range == (0i64, 30_000_000i64),
            r.target_range == (0i64, 30_000_000i64),
            r.options.snap_range == 995_000,
            r.options.speed == 10_000_000,
            r.options.min_zoom == 10_000_000,
            r.options.max_zoom == 600_000_000,
            r.last_operation == LastOperation::Pan,
    {
        ZoomControl {
            available_time: (0, 30_000_000),
            cur_range: (0, 30_000_000),
            target_range: (0, 30_000_000),
            options: ZoomOptions::default(),
            last_operation: LastOperation::Pan,
        }
    }
}

/// Holds a time within `SPAN` of zero.
fn hold(x: i128) -> (r: i64)
    ensures
        r == held(x as int),
{
    if x < -(SPAN as i128) {
        -SPAN
    } else if x > SPAN as i128 {
        SPAN
    } else {
        x as i64
    }
}

/// Distance between two times.
fn gap(a: i64, b: i64) -> (r: i128)
    ensures
        r == if a >= b {
            a - b
        } else {
            b - a
        },
{
    if a >= b {
        a as i128 - b as i128
    } else {
        b as i128 - a as i128
    }
}

/// Computes `fitted`, held within `SPAN`.
fn fit(start: i128, end: i128, available: (i64, i64)) -> (r: (i64, i64))
    requires
        -0x3000_0000_0000_0000_0000_0000_0000_0000 <= start <= 0x3000_0000_0000_0000_0000_0000_0000_0000,
        -0x3000_0000_0000_0000_0000_0000_0000_0000 <= end <= 0x3000_0000_0000_0000_0000_0000_0000_0000,
    ensures
        r.0 == held(fitted(start as int, end as int, available).0),
        r.1 == held(fitted(start as int, end as int, available).1),
{
    let mut new_start: i128 = start;
    let mut new_end: i128 = end;
    if new_start < available.0 as i128 {
        let offset: i128 = available.0 as i128 - new_start;
        new_start = available.0 as i128;
        new_end = new_end + offset;
    }
    if new_end > available.1 as i128 {
        let offset: i128 = new_end - available.1 as i128;
        new_end = available.1 as i128;
        new_start = new_start - offset;
    }
    if new_start < available.0 as i128 {
        new_start = available.0 as i128;
    }
    if new_end > available.1 as i128 {
        new_end = available.1 as i128;
    }
    (hold(new_start), hold(new_end))
}

/// Computes `moved`, held within `SPAN`.
fn approach(from: i64, to: i64, share: i128) -> (r: i64)
    requires
        -0x4000_0000_0000_0000_0000_0000_0000_0000 <= share <= 1_000_000_000_000,
        -SPAN <= from <= SPAN,
        -SPAN <= to <= SPAN,
    ensures
        r == held(moved(from, to, share as int)),
{
    let way: i128 = to as i128 - from as i128;
    let step: i128 = mul_div_round(way, share, 1_000_000_000_000);
    hold(from as i128 + step)
}

/// A share between nothing and all of a way is no longer than the way and
/// points the same way: the visible range then stays between where it was
/// and its target.
pub proof fn lemma_share_of_way(way: int, share: int)
    requires
        0 <= share <= 1_000_000_000_000,
    ensures
        way >= 0 ==> 0 <= div_round(way * share, 1_000_000_000_000) <= way,
        way <= 0 ==> way <= div_round(way * share, 1_000_000_000_000) <= 0,
{
    let unit = 1_000_000_000_000int;
    let n = way * share;
    let q = div_round(n, unit);
    lemma_div_round_sign(n, unit);
    lemma_div_round_nearest(n, unit);
    if way >= 0 {
        assert(0 <= n <= way * unit) by (nonlinear_arith)
            requires
                n == way * share,
                0 <= share <= unit,
                way >= 0,
        ;
        if q > way {
            assert(q * unit >= (way + 1) * unit) by (nonlinear_arith)
                requires
                    q >= way + 1,
                    unit > 0,
            ;
            assert((way + 1) * unit == way * unit + unit) by (nonlinear_arith);
        }
    } else {
        assert(way * unit <= n <= 0) by (nonlinear_arith)
            requires
                n == way * share,
                0 <= share <= unit,
                way <= 0,
        ;
        if q < way {
            assert(q * unit <= (way - 1) * unit) by (nonlinear_arith)
                requires
                    q <= way - 1,
                    unit > 0,
            ;
            assert((way - 1) * unit == way * unit - unit) by (nonlinear_arith);
        }
    }
}

} // verus!
