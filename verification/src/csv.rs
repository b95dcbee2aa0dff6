//! What the text of a series gives back when it is split into lines and
//! fields.

use vstd::prelude::*;
use crate::candle::Candle;
use crate::decimal::{decimal, decimal_value, is_digit, lemma_decimal_round_trip};
use crate::series::{is_csv, joins};

verus! {

/// The pieces of `s` between occurrences of `sep`. A string without `sep` is
/// one piece, the empty string included.
pub open spec fn split(s: Seq<char>, sep: char) -> Seq<Seq<char>>
    decreases s.len(),
{
    if s.len() == 0 {
        seq![Seq::<char>::empty()]
    } else {
        let before = split(s.drop_last(), sep);
        if s.last() == sep {
            before.push(Seq::<char>::empty())
        } else {
            before.update(before.len() - 1, before.last().push(s.last()))
        }
    }
}

/// Whether nothing that `show` writes holds the character `c`.
pub open spec fn free_of<F: Fn(u32) -> String>(show: F, c: char) -> bool {
    forall|bits: u32, s: String| #[trigger] show.ensures((bits,), s) ==> !s@.contains(c)
}

/// Whether `text` is something that `show` writes for `bits`.
pub open spec fn renders<F: Fn(u32) -> String>(show: F, bits: u32, text: Seq<char>) -> bool {
    exists|s: String| #[trigger] show.ensures((bits,), s) && s@ == text
}

proof fn lemma_split_len(s: Seq<char>, sep: char)
    ensures
        split(s, sep).len() >= 1,
    decreases s.len(),
{
    if s.len() > 0 {
        lemma_split_len(s.drop_last(), sep);
    }
}

proof fn lemma_split_plain(a: Seq<char>, b: Seq<char>, sep: char)
    requires
        !b.contains(sep),
    ensures
        split(a + b, sep) == split(a, sep).update(
            split(a, sep).len() - 1,
            split(a, sep).last() + b,
        ),
    decreases b.len(),
{
    lemma_split_len(a, sep);
    let pieces = split(a, sep);
    if b.len() == 0 {
        assert(a + b =~= a);
        assert(pieces.last() + b =~= pieces.last());
        assert(pieces.update(pieces.len() - 1, pieces.last()) =~= pieces);
    } else {
        let head = b.drop_last();
        assert(b[b.len() - 1] == b.last());
        assert(b.last() != sep);
        assert forall|i: int| 0 <= i < head.len() implies head[i] != sep by {
            assert(b[i] == head[i]);
        }
        lemma_split_plain(a, head, sep);
        assert((a + b).drop_last() =~= a + head);
        assert((a + b).last() == b.last());
        assert((pieces.last() + head).push(b.last()) =~= pieces.last() + b);
        assert(split(a + b, sep) =~= pieces.update(pieces.len() - 1, pieces.last() + b));
    }
}

proof fn lemma_split_sep(a: Seq<char>, sep: char)
    ensures
        split(a + seq![sep], sep) == split(a, sep).push(Seq::<char>::empty()),
{
    assert((a + seq![sep]).drop_last() =~= a);
    assert((a + seq![sep]).last() == sep);
}

proof fn lemma_numeral_is_plain(n: nat, c: char)
    requires
        !is_digit(c),
    ensures
        !decimal(n).contains(c),
{
    lemma_decimal_round_trip(n);
}

/// Splitting a candle's record at its commas gives six fields. The first
/// reads back as the candle's time; the others are what `show` wrote for
/// open, high, low, close and volume, in that order. This holds where `show`
/// writes no comma.
pub proof fn lemma_record_reads_back<F: Fn(u32) -> String>(show: F, candle: Candle, line: Seq<char>)
    requires
        candle.is_csv_line(show, line),
        free_of(show, ','),
    ensures
        split(line, ',').len() == 6,
        decimal_value(split(line, ',')[0]) == candle.time,
        renders(show, candle.open, split(line, ',')[1]),
        renders(show, candle.high, split(line, ',')[2]),
        renders(show, candle.low, split(line, ',')[3]),
        renders(show, candle.close, split(line, ',')[4]),
        renders(show, candle.volume, split(line, ',')[5]),
{
    let (o, h, l, c, v) = choose|o: String, h: String, l: String, c: String, v: String|
        #![trigger show.ensures((candle.open,), o), show.ensures((candle.high,), h), show.ensures((candle.low,), l), show.ensures((candle.close,), c), show.ensures((candle.volume,), v)]
        {
            &&& show.ensures((candle.open,), o)
            &&& show.ensures((candle.high,), h)
            &&& show.ensures((candle.low,), l)
            &&& show.ensures((candle.close,), c)
            &&& show.ensures((candle.volume,), v)
            &&& line == decimal(candle.time as nat) + seq![','] + o@ + seq![','] + h@ + seq![',']
                + l@ + seq![','] + c@ + seq![','] + v@
        };
    let d = decimal(candle.time as nat);
    let e = Seq::<char>::empty();
    lemma_numeral_is_plain(candle.time as nat, ',');
    lemma_decimal_round_trip(candle.time as nat);
    let s0 = e + d;
    lemma_split_plain(e, d, ',');
    assert(s0 =~= d);
    assert(split(d, ',') =~= seq![d]);
    let s1 = d + seq![','];
    lemma_split_sep(d, ',');
    assert(split(s1, ',') =~= seq![d, e]);
    let s2 = s1 + o@;
    lemma_split_plain(s1, o@, ',');
    assert(e + o@ =~= o@);
    assert(split(s2, ',') =~= seq![d, o@]);
    let s3 = s2 + seq![','];
    lemma_split_sep(s2, ',');
    assert(split(s3, ',') =~= seq![d, o@, e]);
    let s4 = s3 + h@;
    lemma_split_plain(s3, h@, ',');
    assert(e + h@ =~= h@);
    assert(split(s4, ',') =~= seq![d, o@, h@]);
    let s5 = s4 + seq![','];
    lemma_split_sep(s4, ',');
    assert(split(s5, ',') =~= seq![d, o@, h@, e]);
    let s6 = s5 + l@;
    lemma_split_plain(s5, l@, ',');
    assert(e + l@ =~= l@);
    assert(split(s6, ',') =~= seq![d, o@, h@, l@]);
    let s7 = s6 + seq![','];
    lemma_split_sep(s6, ',');
    assert(split(s7, ',') =~= seq![d, o@, h@, l@, e]);
    let s8 = s7 + c@;
    lemma_split_plain(s7, c@, ',');
    assert(e + c@ =~= c@);
    assert(split(s8, ',') =~= seq![d, o@, h@, l@, c@]);
    let s9 = s8 + seq![','];
    lemma_split_sep(s8, ',');
    assert(split(s9, ',') =~= seq![d, o@, h@, l@, c@, e]);
    let s10 = s9 + v@;
    lemma_split_plain(s9, v@, ',');
    assert(e + v@ =~= v@);
    assert(split(s10, ',') =~= seq![d, o@, h@, l@, c@, v@]);
    assert(line == s10);
}

proof fn lemma_record_is_one_line<F: Fn(u32) -> String>(show: F, candle: Candle, line: Seq<char>)
    requires
        candle.is_csv_line(show, line),
        free_of(show, '\n'),
    ensures
        !line.contains('\n'),
{
    let (o, h, l, c, v) = choose|o: String, h: String, l: String, c: String, v: String|
        #![trigger show.ensures((candle.open,), o), show.ensures((candle.high,), h), show.ensures((candle.low,), l), show.ensures((candle.close,), c), show.ensures((candle.volume,), v)]
        {
            &&& show.ensures((candle.open,), o)
            &&& show.ensures((candle.high,), h)
            &&& show.ensures((candle.low,), l)
            &&& show.ensures((candle.close,), c)
            &&& show.ensures((candle.volume,), v)
            &&& line == decimal(candle.time as nat) + seq![','] + o@ + seq![','] + h@ + seq![',']
                + l@ + seq![','] + c@ + seq![','] + v@
        };
    let d = decimal(candle.time as nat);
    lemma_numeral_is_plain(candle.time as nat, '\n');
    assert forall|i: int| 0 <= i < line.len() implies line[i] != '\n' by {
        let a1 = d.len();
        let a2 = a1 + 1 + o@.len();
        let a3 = a2 + 1 + h@.len();
        let a4 = a3 + 1 + l@.len();
        let a5 = a4 + 1 + c@.len();
        if i < a1 {
            assert(line[i] == d[i]);
        } else if i == a1 {
        } else if i < a2 {
            assert(line[i] == o@[i - a1 - 1]);
        } else if i == a2 {
        } else if i < a3 {
            assert(line[i] == h@[i - a2 - 1]);
        } else if i == a3 {
        } else if i < a4 {
            assert(line[i] == l@[i - a3 - 1]);
        } else if i == a4 {
        } else if i < a5 {
            assert(line[i] == c@[i - a4 - 1]);
        } else if i == a5 {
        } else {
            assert(line[i] == v@[i - a5 - 1]);
        }
    }
}

/// Splitting the text of a series that is not empty at its line feeds gives
/// one line for each candle, in order, and each line is the record of its
/// candle. This holds where `show` writes no line feed.
pub proof fn lemma_text_reads_back<F: Fn(u32) -> String>(show: F, v: Seq<Candle>, text: Seq<char>)
    requires
        v.len() > 0,
        is_csv(show, v, text),
        free_of(show, '\n'),
    ensures
        split(text, '\n').len() == v.len(),
        forall|i: int|
            0 <= i < v.len() ==> (#[trigger] v[i]).is_csv_line(show, split(text, '\n')[i]),
    decreases v.len(),
{
    let e = Seq::<char>::empty();
    if v.len() == 1 {
        lemma_record_is_one_line(show, v[0], text);
        lemma_split_plain(e, text, '\n');
        assert(e + text =~= text);
        assert(split(text, '\n') =~= seq![text]);
    } else {
        let (head, line) = choose|head: Seq<char>, line: Seq<char>|
            {
                &&& #[trigger] joins(head, line, text)
                &&& is_csv(show, v.drop_last(), head)
                &&& v.last().is_csv_line(show, line)
            };
        lemma_text_reads_back(show, v.drop_last(), head);
        lemma_record_is_one_line(show, v.last(), line);
        lemma_split_sep(head, '\n');
        lemma_split_plain(head + seq!['\n'], line, '\n');
        assert(e + line =~= line);
        let lines = split(text, '\n');
        assert(lines =~= split(head, '\n').push(line));
        assert forall|i: int| 0 <= i < v.len() implies (#[trigger] v[i]).is_csv_line(
            show,
            lines[i],
        ) by {
            if i < v.len() - 1 {
                assert(v.drop_last()[i] == v[i]);
                assert(lines[i] == split(head, '\n')[i]);
            }
        }
    }
}

} // verus!
