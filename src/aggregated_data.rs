//! The running record of one station.
use crate::stats::{
    combine, empty_summary, is_reading, is_station_summary, is_valid_summary, lemma_combine_valid,
    lemma_mean_between, lemma_sum_bound, mean_tenths, single, Summary,
};
use vstd::prelude::*;

verus! {

/// Relies on likely_stable::unlikely: a branch hint that returns its argument.
pub assume_specification[ likely_stable::unlikely ](b: bool) -> (r: bool)
    ensures
        r == b,
;

/// Aggregated data per station. The temperature is encoded as integer
/// multiplied by 10: `-15.7` is `-157`.
#[derive(Debug, Clone, PartialEq)]
pub struct AggregatedData {
    min: i16,
    max: i16,
    sum: i64,
    sample_count: u32,
    name: String,
}

impl View for AggregatedData {
    type V = Summary;

    closed spec fn view(&self) -> Summary {
        Summary {
            min: self.min as int,
            max: self.max as int,
            sum: self.sum as int,
            count: self.sample_count as nat,
        }
    }
}

impl Default for AggregatedData {
    fn default() -> (r: Self)
        ensures
            r@ == empty_summary(),
            r.label() == Seq::<char>::empty(),
    {
        AggregatedData { min: i16::MAX, max: i16::MIN, sum: 0, sample_count: 0, name: String::new() }
    }
}

impl AggregatedData {
    /// The name given by `init`, empty until then.
    pub closed spec fn label(&self) -> Seq<char> {
        self.name@
    }

    /// Either no reading yet (the sentinels of `Default`), or a summary of at
    /// least one reading in range.
    pub open spec fn wf(&self) -> bool {
        is_valid_summary(self@)
    }

    /// A record with the given fields and no name.
    pub fn new(min: i16, max: i16, sum: i64, sample_count: u32) -> (r: Self)
        ensures
            r@ == (Summary {
                min: min as int,
                max: max as int,
                sum: sum as int,
                count: sample_count as nat,
            }),
            r.label() == Seq::<char>::empty(),
    {
        AggregatedData { min, max, sum, sample_count, name: String::new() }
    }

    /// Names the record; a record is named once.
    pub fn init(&mut self, name: &str)
        requires
            old(self).label().len() == 0,
        ensures
            final(self)@ == old(self)@,
            final(self).label() == name@,
    {
        self.name = name.to_owned();
    }

    /// Adds one reading.
    pub fn add_datapoint(&mut self, measurement: i16)
        requires
            old(self).wf(),
            is_reading(measurement as int),
            old(self)@.count < u32::MAX,
        ensures
            final(self).wf(),
            final(self)@ == combine(old(self)@, single(measurement as int)),
            is_station_summary(final(self)@),
            final(self).label() == old(self).label(),
    {
        proof {
            lemma_combine_valid(self@, single(measurement as int));
            lemma_sum_bound(self@);
        }
        if likely_stable::unlikely(self.empty()) {
            self.min = measurement;
            self.max = measurement;
        } else {
            if measurement < self.min {
                self.min = measurement
            } else if measurement > self.max {
                self.max = measurement
            }
        }

        self.sum += measurement as i64;
        self.sample_count += 1;
    }

    /// Merges the data with another instance.
    pub fn merge(&mut self, other: &Self)
        requires
            old(self).wf(),
            other.wf(),
            old(self)@.count + other@.count <= u32::MAX,
        ensures
            final(self).wf(),
            final(self)@ == combine(old(self)@, other@),
            final(self).label() == old(self).label(),
    {
        proof {
            lemma_combine_valid(self@, other@);
            lemma_sum_bound(self@);
            lemma_sum_bound(other@);
        }
        if other.max > self.max {
            self.max = other.max;
        }
        if other.min < self.min {
            self.min = other.min;
        }
        self.sum += other.sum;
        self.sample_count += other.sample_count;
    }

    pub fn name(&self) -> (r: &str)
        ensures
            r@ == self.label(),
    {
        self.name.as_str()
    }

    /// Lowest reading, in tenths.
    pub fn min_scaled(&self) -> (r: i16)
        ensures
            r == self@.min,
    {
        self.min
    }

    /// Highest reading, in tenths.
    pub fn max_scaled(&self) -> (r: i16)
        ensures
            r == self@.max,
    {
        self.max
    }

    /// Sum of all readings, in tenths.
    pub fn sum_scaled(&self) -> (r: i64)
        ensures
            r == self@.sum,
    {
        self.sum
    }

    pub fn sample_count(&self) -> (r: u32)
        ensures
            r == self@.count,
    {
        self.sample_count
    }

    /// The mean reading in tenths, rounded to the nearest tenth with halves
    /// away from zero.
    pub fn avg_scaled(&self) -> (r: i16)
        requires
            is_station_summary(self@),
        ensures
            r == mean_tenths(self@),
            self@.min <= r <= self@.max,
    {
        proof {
            lemma_sum_bound(self@);
            lemma_mean_between(self@);
        }
        let count = self.sample_count as i64;
        if self.sum >= 0 {
            ((2 * self.sum + count) / (2 * count)) as i16
        } else {
            (-((-2 * self.sum + count) / (2 * count))) as i16
        }
    }

    /// Hasn't received a data point so far.
    fn empty(&self) -> (r: bool)
        requires
            self.wf(),
        ensures
            r == (self@.count == 0),
    {
        self.max == i16::MIN
    }
}

} // verus!
