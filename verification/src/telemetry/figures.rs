//! The figures of a histogram, and how they are rendered.
use crate::text;
use crate::text::{push_decimal, push_str};
use vstd::prelude::*;

verus! {

/// The figures of a histogram, in nanoseconds. The rate, which is no whole
/// number, comes as text.
pub struct Figures {
    pub label: String,
    pub count: u64,
    pub min: u64,
    pub p50: u64,
    pub p99: u64,
    pub p99_99: u64,
    pub max: u64,
    /// Messages per second on one core, derived from the mean.
    pub throughput_text: String,
}

impl Figures {
    /// The figures with `sep` between them.
    pub open spec fn separated(self, sep: Seq<char>) -> Seq<char> {
        self.label@ + sep + text::decimal(self.count as nat) + sep + text::decimal(
            self.min as nat,
        ) + sep + text::decimal(self.p50 as nat) + sep + text::decimal(self.p99 as nat) + sep
            + text::decimal(self.p99_99 as nat) + sep + text::decimal(self.max as nat) + sep
            + self.throughput_text@
    }

    fn separate(&self, sep: &str) -> (r: String)
        ensures
            r@ == self.separated(sep@),
    {
        let mut s = self.label.clone();
        push_str(&mut s, sep);
        push_decimal(&mut s, self.count);
        push_str(&mut s, sep);
        push_decimal(&mut s, self.min);
        push_str(&mut s, sep);
        push_decimal(&mut s, self.p50);
        push_str(&mut s, sep);
        push_decimal(&mut s, self.p99);
        push_str(&mut s, sep);
        push_decimal(&mut s, self.p99_99);
        push_str(&mut s, sep);
        push_decimal(&mut s, self.max);
        push_str(&mut s, sep);
        push_str(&mut s, self.throughput_text.as_str());
        s
    }

    /// One comma-separated row, without a line end.
    pub fn render_csv(&self) -> (r: String)
        ensures
            r@ == self.separated(","@),
    {
        self.separate(",")
    }

    /// One row of a table, without a line end.
    pub fn render_markdown(&self) -> (r: String)
        ensures
            r@ == "| "@ + self.separated(" | "@) + " |"@,
    {
        let mut s = "| ".to_string();
        push_str(&mut s, self.separate(" | ").as_str());
        push_str(&mut s, " |");
        s
    }
}

} // verus!
