//! Streaming aggregation over time buckets: the bucket boundaries.
//!
//! The aggregated values themselves are folded by the caller, per kind,
//! alongside the steps this machine reports.
use vstd::prelude::*;
use crate::Timestamp;

verus! {

/// The time span of a bucket and the number of samples in it.
#[derive(Clone, Copy, Debug, PartialEq, Eq, Structural)]
pub struct Span {
    /// The oldest timestamp added.
    pub start: Timestamp,
    /// The newest timestamp added.
    pub end: Timestamp,
    /// The number of samples.
    pub len: usize,
}

/// What a new sample did to the buckets.
#[derive(Clone, Copy, Debug, PartialEq, Eq, Structural)]
pub enum Step {
    /// The sample joined the open bucket.
    Extended,
    /// The sample opened a new bucket; the bucket it closed, if any.
    Started(Option<Span>),
}

/// Sum of the values in each bucket.
#[derive(Clone, Copy, Debug)]
pub struct Sum;

/// Average of the values in each bucket.
#[derive(Clone, Copy, Debug)]
pub struct Average;

/// Smallest value in each bucket.
#[derive(Clone, Copy, Debug)]
pub struct Min;

/// Largest value in each bucket.
#[derive(Clone, Copy, Debug)]
pub struct Max;

/// Number of samples in each bucket.
#[derive(Clone, Copy, Debug)]
pub struct Count;

/// Cuts a newest-first stream of timestamps into buckets: a bucket takes a
/// sample while the sample lies at most `width` before the bucket's newest one.
#[derive(Clone, Copy, Debug)]
pub struct Bucketer {
    width: Timestamp,
    current: Option<Span>,
}

impl Bucketer {
    /// The bucket width and the open bucket.
    pub closed spec fn view(&self) -> (Timestamp, Option<Span>) {
        (self.width, self.current)
    }

    /// The open bucket runs from its oldest to its newest sample.
    pub closed spec fn wf(&self) -> bool {
        match self.current {
            Some(b) => b.start <= b.end && b.len >= 1,
            None => true,
        }
    }

    pub fn new(width: Timestamp) -> (r: Bucketer)
        ensures
            r.view() == (width, None::<Span>),
            r.wf(),
    {
        Bucketer { width, current: None }
    }

    /// Feeds the next (not newer) timestamp.
    pub fn push(&mut self, ts: Timestamp) -> (r: Step)
        requires
            old(self).wf(),
            match old(self).view().1 {
                Some(b) => ts <= b.start && b.len < usize::MAX,
                None => true,
            },
        ensures
            final(self).wf(),
            final(self).view().0 == old(self).view().0,
            match old(self).view().1 {
                None => r == Step::Started(None) && final(self).view().1 == Some(
                    Span { start: ts, end: ts, len: 1 },
                ),
                Some(b) => if b.end - ts <= old(self).view().0 {
                    r == Step::Extended && final(self).view().1 == Some(
                        Span { start: ts, end: b.end, len: (b.len + 1) as usize },
                    )
                } else {
                    r == Step::Started(Some(b)) && final(self).view().1 == Some(
                        Span { start: ts, end: ts, len: 1 },
                    )
                },
            },
    {
        match self.current {
            None => {
                self.current = Some(Span { start: ts, end: ts, len: 1 });
                Step::Started(None)
            },
            Some(b) => {
                if b.end - ts <= self.width {
                    self.current = Some(Span { start: ts, end: b.end, len: b.len + 1 });
                    Step::Extended
                } else {
                    self.current = Some(Span { start: ts, end: ts, len: 1 });
                    Step::Started(Some(b))
                }
            },
        }
    }

    /// The open bucket, if any.
    pub fn current(&self) -> (r: Option<Span>)
        ensures
            r == self.view().1,
    {
        self.current
    }

    /// Ends the stream: hands out the open bucket, if any.
    pub fn finish(&mut self) -> (r: Option<Span>)
        ensures
            r == old(self).view().1,
            final(self).wf(),
            final(self).view() == (old(self).view().0, None::<Span>),
    {
        let r = self.current;
        self.current = None;
        r
    }
}

} // verus!
