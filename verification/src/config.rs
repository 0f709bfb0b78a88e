//! Node configuration: clamped min/target/max tuples and the
//! process-wide limits on filters and routing peers.

use vstd::prelude::*;

verus! {

/// Clamps `x` into the interval `[lo, hi]`.
pub open spec fn clamp_spec(x: int, lo: int, hi: int) -> int
    recommends
        lo <= hi,
{
    if x < lo {
        lo
    } else if x > hi {
        hi
    } else {
        x
    }
}

/// A minimum, a preferred value and a maximum, kept clamped so that
/// `min <= target <= max` at all times.
#[derive(Clone, Copy, Debug)]
pub struct MinTargetMax {
    pub min: usize,
    pub target: usize,
    pub max: usize,
}

impl MinTargetMax {
    /// The clamping invariant.
    pub open spec fn wf(&self) -> bool {
        self.min <= self.target <= self.max
    }

    /// Builds a tuple from the three values; `target` is raised to `min`
    /// and `max` is raised to the resulting target when they disagree.
    pub fn new(min: usize, target: usize, max: usize) -> (r: Self)
        ensures
            r.wf(),
            r.min == min,
            r.target == if target < min { min as int } else { target as int },
            r.max == if max < r.target { r.target as int } else { max as int },
    {
        let target = if target < min {
            min
        } else {
            target
        };
        let max = if max < target {
            target
        } else {
            max
        };
        MinTargetMax { min, target, max }
    }

    /// Sets the minimum, raising the target and the maximum when they
    /// would fall below it.
    pub fn set_min(&mut self, min: usize)
        ensures
            old(self).wf() ==> final(self).wf(),
            final(self).min == min,
            final(self).target == if old(self).target < min {
                min as int
            } else {
                old(self).target as int
            },
            final(self).max == if old(self).max < min {
                min as int
            } else {
                old(self).max as int
            },
    {
        self.min = min;
        if self.target < self.min {
            self.target = self.min;
        }
        if self.max < self.min {
            self.max = self.min;
        }
    }

    /// The minimum.
    pub fn min(&self) -> (r: usize)
        ensures
            r == self.min,
    {
        self.min
    }

    /// Sets the maximum, lowering the target and the minimum when they
    /// would exceed it.
    pub fn set_max(&mut self, max: usize)
        ensures
            old(self).wf() ==> final(self).wf(),
            final(self).max == max,
            final(self).target == if old(self).target > max {
                max as int
            } else {
                old(self).target as int
            },
            final(self).min == if old(self).min > max {
                max as int
            } else {
                old(self).min as int
            },
    {
        self.max = max;
        if self.target > self.max {
            self.target = self.max;
        }
        if self.min > self.max {
            self.min = self.max;
        }
    }

    /// The maximum.
    pub fn max(&self) -> (r: usize)
        ensures
            r == self.max,
    {
        self.max
    }

    /// Sets the target, lowering the minimum and raising the maximum
    /// when they would disagree with it.
    pub fn set_target(&mut self, target: usize)
        ensures
            final(self).wf(),
            final(self).target == target,
            final(self).min == if old(self).min > target {
                target as int
            } else {
                old(self).min as int
            },
            final(self).max == if old(self).max < target {
                target as int
            } else {
                old(self).max as int
            },
    {
        self.target = target;
        if self.min > self.target {
            self.min = self.target;
        }
        if self.max < self.target {
            self.max = self.target;
        }
    }

    /// The target.
    pub fn target(&self) -> (r: usize)
        ensures
            r == self.target,
    {
        self.target
    }

    /// The overlap of two ranges: empty when the larger minimum exceeds
    /// the smaller maximum, otherwise the overlapping range with the
    /// average of the two targets clamped into it.
    pub fn intersection(&self, other: &Self) -> (r: Option<Self>)
        ensures
            r is Some <==> vstd::math::max(self.min as int, other.min as int) <= vstd::math::min(
                self.max as int,
                other.max as int,
            ),
            r matches Some(t) ==> {
                &&& t.wf()
                &&& t.min == vstd::math::max(self.min as int, other.min as int)
                &&& t.max == vstd::math::min(self.max as int, other.max as int)
                &&& t.target == clamp_spec(
                    (self.target + other.target) / 2,
                    t.min as int,
                    t.max as int,
                )
            },
    {
        let min = if self.min > other.min {
            self.min
        } else {
            other.min
        };
        let max = if self.max < other.max {
            self.max
        } else {
            other.max
        };
        if max < min {
            return None;
        }
        let ht = self.target / 2;
        let ho = other.target / 2;
        let extra: usize = if self.target % 2 == 1 && other.target % 2 == 1 {
            1
        } else {
            0
        };
        proof {
            let a = self.target as int;
            let b = other.target as int;
            vstd::arithmetic::div_mod::lemma_fundamental_div_mod(a, 2);
            vstd::arithmetic::div_mod::lemma_fundamental_div_mod(b, 2);
            let s = a / 2 + b / 2 + (if a % 2 == 1 && b % 2 == 1 {
                1int
            } else {
                0int
            });
            let rem = a % 2 + b % 2 - (if a % 2 == 1 && b % 2 == 1 {
                2int
            } else {
                0int
            });
            assert(a + b == 2 * s + rem && 0 <= rem < 2);
            vstd::arithmetic::div_mod::lemma_fundamental_div_mod_converse(a + b, 2, s, rem);
            assert(2 * ((a + b) / 2) <= a + b);
        }
        let avg = ht + ho + extra;
        let target = if avg < min {
            min
        } else if avg > max {
            max
        } else {
            avg
        };
        Some(MinTargetMax { min, target, max })
    }

    /// True when `value` is strictly below the target.
    pub fn is_under_target(&self, value: usize) -> (r: bool)
        ensures
            r == (value < self.target),
    {
        value < self.target
    }

    /// True when `value` has reached or passed the maximum.
    pub fn is_max_or_over(&self, value: usize) -> (r: bool)
        ensures
            r == (value >= self.max),
    {
        value >= self.max
    }
}

/// Process-wide configuration of a node.
#[derive(Clone, Copy, Debug)]
pub struct KamilataConfig {
    /// Milliseconds between successive filter broadcasts to a leecher.
    pub get_filters_interval: MinTargetMax,
    /// Largest number of filter levels kept per peer.
    pub filter_count: usize,
    /// Largest number of peers that may seed filters to us.
    pub max_seeders: usize,
    /// Largest number of peers we send our filters to.
    pub max_leechers: usize,
}

impl KamilataConfig {
    pub open spec fn wf(&self) -> bool {
        self.get_filters_interval.wf() && self.filter_count < usize::MAX
    }
}

impl Default for KamilataConfig {
    /// The stock configuration: refresh every 15 to 180 seconds aiming
    /// at 20, up to 8 filter levels, 20 seeders and 50 leechers.
    fn default() -> (r: Self)
        ensures
            r.wf(),
            r.get_filters_interval.min == 15_000,
            r.get_filters_interval.target == 20_000,
            r.get_filters_interval.max == 180_000,
            r.filter_count == 8,
            r.max_seeders == 20,
            r.max_leechers == 50,
    {
        KamilataConfig {
            get_filters_interval: MinTargetMax { min: 15_000, target: 20_000, max: 180_000 },
            filter_count: 8,
            max_seeders: 20,
            max_leechers: 50,
        }
    }
}

/// Law: setting the minimum leaves the tuple clamped with exactly the
/// requested minimum, whatever the previous state was.
pub proof fn lemma_set_min_clamps(before: MinTargetMax, v: usize, after: MinTargetMax)
    requires
        after.min == v,
        after.target == if before.target < v {
            v as int
        } else {
            before.target as int
        },
        after.max == if before.max < v {
            v as int
        } else {
            before.max as int
        },
        before.wf(),
    ensures
        after.min <= after.target <= after.max,
        after.min == v,
{
}

} // verus!
