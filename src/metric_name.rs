//! Metric names.
use vstd::prelude::*;
use crate::Error;

verus! {

/// Characters a metric name may hold: `a-z`, `0-9`, `_` and `.`.
pub open spec fn is_metric_char(c: char) -> bool {
    ('a' <= c && c <= 'z') || ('0' <= c && c <= '9') || c == '_' || c == '.'
}

pub open spec fn is_metric_name(s: Seq<char>) -> bool {
    forall|i: int| 0 <= i < s.len() ==> is_metric_char(#[trigger] s[i])
}

/// A metric's name: lower-case letters, digits, `_` and `.`.
#[derive(Clone, Copy, Debug)]
pub struct MetricName<'a>(&'a str);

impl<'a> MetricName<'a> {
    pub closed spec fn view(&self) -> Seq<char> {
        self.0@
    }

    pub closed spec fn wf(&self) -> bool {
        is_metric_name(self.0@)
    }

    /// Checks a metric name.
    pub fn try_from(value: &'a str) -> (r: Result<MetricName<'a>, Error>)
        ensures
            match r {
                Ok(m) => is_metric_name(value@) && m.view() == value@ && m.wf(),
                Err(e) => !is_metric_name(value@) && e == Error::InvalidMetricName,
            },
    {
        let n = value.unicode_len();
        let mut i: usize = 0;
        while i < n
            invariant
                n == value@.len(),
                i <= n,
                forall|k: int| 0 <= k < i ==> is_metric_char(#[trigger] value@[k]),
            decreases n - i,
        {
            let c = value.get_char(i);
            if !(('a' <= c && c <= 'z') || ('0' <= c && c <= '9') || c == '_' || c == '.') {
                return Err(Error::InvalidMetricName);
            }
            i = i + 1;
        }
        Ok(MetricName(value))
    }

    /// The name as text.
    pub fn as_str(&self) -> (r: &'a str)
        ensures
            r@ == self.view(),
    {
        self.0
    }
}

} // verus!
