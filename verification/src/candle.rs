//! One OHLCV bucket.

use vstd::prelude::*;
use vstd::string::StringExecFns;
use crate::decimal::{append_decimal, decimal};

verus! {

/// Open, high, low, close and volume of the trades of one time span.
///
/// `time` is the start of the span in epoch seconds. The five values are
/// binary32 numbers, held as their bit patterns.
#[derive(Clone, Copy, Debug, PartialEq, Eq)]
pub struct Candle {
    pub time: u32,
    pub open: u32,
    pub high: u32,
    pub low: u32,
    pub close: u32,
    pub volume: u32,
}

impl Candle {
    /// The continuation candle of a minute without trades: every price is
    /// `price`, the volume is zero.
    pub open spec fn flat_at(time: u32, price: u32) -> Candle {
        Candle { time, open: price, high: price, low: price, close: price, volume: 0 }
    }

    /// Builds the continuation candle for `time` at `price`.
    pub fn flat(time: u32, price: u32) -> (c: Candle)
        ensures
            c == Candle::flat_at(time, price),
    {
        Candle { time, open: price, high: price, low: price, close: price, volume: 0 }
    }

    /// Whether `line` is this candle's record: the decimal numeral of `time`,
    /// then open, high, low, close and volume as `show` renders them, with a
    /// comma between neighbours.
    pub open spec fn is_csv_line<F: Fn(u32) -> String>(self, show: F, line: Seq<char>) -> bool {
        exists|o: String, h: String, l: String, c: String, v: String|
            #![trigger show.ensures((self.open,), o), show.ensures((self.high,), h), show.ensures((self.low,), l), show.ensures((self.close,), c), show.ensures((self.volume,), v)]
            {
                &&& show.ensures((self.open,), o)
                &&& show.ensures((self.high,), h)
                &&& show.ensures((self.low,), l)
                &&& show.ensures((self.close,), c)
                &&& show.ensures((self.volume,), v)
                &&& line == decimal(self.time as nat) + seq![','] + o@ + seq![','] + h@ + seq![',']
                    + l@ + seq![','] + c@ + seq![','] + v@
            }
    }

    /// Renders the candle as `time,open,high,low,close,volume`. The caller
    /// supplies `show`, which writes out one binary32 number.
    pub fn to_csv<F: Fn(u32) -> String>(&self, show: &F) -> (line: String)
        requires
            forall|bits: u32| show.requires((bits,)),
        ensures
            self.is_csv_line(*show, line@),
    {
        proof {
            reveal_strlit(",");
        }
        let mut line = String::new();
        append_decimal(&mut line, self.time);
        let o = show(self.open);
        line.append(",");
        line.append(o.as_str());
        let h = show(self.high);
        line.append(",");
        line.append(h.as_str());
        let l = show(self.low);
        line.append(",");
        line.append(l.as_str());
        let c = show(self.close);
        line.append(",");
        line.append(c.as_str());
        let v = show(self.volume);
        line.append(",");
        line.append(v.as_str());
        proof {
            assert(","@ =~= seq![',']);
            assert(line@ =~= decimal(self.time as nat) + seq![','] + o@ + seq![','] + h@ + seq![',']
                + l@ + seq![','] + c@ + seq![','] + v@);
            assert(show.ensures((self.open,), o) && show.ensures((self.high,), h) && show.ensures(
                (self.low,),
                l,
            ) && show.ensures((self.close,), c) && show.ensures((self.volume,), v));
        }
        line
    }
}

} // verus!
