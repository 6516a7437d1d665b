use vstd::prelude::*;

use crate::error::TrendError;
use crate::sample::{Sample, has_timestamp, strictly_sorted};
use crate::store::{PriceHistory, insert_post};

verus! {

/// Largest timestamp.
pub const MAX_TIMESTAMP: u64 = 0xffff_ffff_ffff_ffff;

/// Largest whole-unit part of a price whose cents still fit in a `u32`.
pub const MAX_WHOLE_UNITS: u64 = 42949672;

pub open spec fn is_digit(b: u8) -> bool {
    48 <= b && b <= 57
}

pub open spec fn all_digits(s: Seq<u8>) -> bool {
    forall|i: int| 0 <= i < s.len() ==> is_digit(#[trigger] s[i])
}

/// The number that the decimal digits `s` write.
pub open spec fn digits_value(s: Seq<u8>) -> int
    decreases s.len(),
{
    if s.len() == 0 {
        0
    } else {
        digits_value(s.drop_last()) * 10 + (s.last() as int - 48)
    }
}

/// `s` without one leading `+`.
pub open spec fn unsigned_body(s: Seq<u8>) -> Seq<u8> {
    if s.len() > 0 && s[0] == 43 {
        s.drop_first()
    } else {
        s
    }
}

/// Position of the first `b` in `s`, or its length where there is none.
pub open spec fn first_index(s: Seq<u8>, b: u8) -> int
    decreases s.len(),
{
    if s.len() == 0 {
        0
    } else if s[0] == b {
        0
    } else {
        1 + first_index(s.drop_first(), b)
    }
}

/// A timestamp written as decimal digits after an optional `+`.
pub open spec fn timestamp_of(s: Seq<u8>) -> Option<u64> {
    let d = unsigned_body(s);
    if d.len() > 0 && all_digits(d) && digits_value(d) <= MAX_TIMESTAMP {
        Some(digits_value(d) as u64)
    } else {
        None
    }
}

/// Cents given by the first two digits after the decimal point.
pub open spec fn fraction_cents(f: Seq<u8>) -> int {
    (if f.len() > 0 { (f[0] as int - 48) * 10 } else { 0 }) + (if f.len() > 1 { f[1] as int - 48 } else { 0 })
}

/// A price in whole units written as decimal digits with an optional
/// decimal point after an optional `+`, as cents: multiplied by a hundred and
/// truncated. At least one digit is needed, and the cents must fit a `u32`.
pub open spec fn cents_of(s: Seq<u8>) -> Option<u32> {
    let d = unsigned_body(s);
    let k = first_index(d, 46);
    let whole = d.take(k);
    let frac = if k < d.len() { d.skip(k + 1) } else { Seq::empty() };
    let c = digits_value(whole) * 100 + fraction_cents(frac);
    if all_digits(whole) && all_digits(frac) && whole.len() + frac.len() > 0 && c <= 0xffff_ffff {
        Some(c as u32)
    } else {
        None
    }
}

/// A line `<timestamp>,<price>` of the bulk history file.
pub open spec fn line_sample(l: Seq<u8>) -> Option<Sample> {
    let k = first_index(l, 44);
    if k < l.len() {
        match (timestamp_of(l.take(k)), cents_of(l.skip(k + 1))) {
            (Some(t), Some(p)) => Some(Sample { timestamp: t, price_cents: p }),
            _ => None,
        }
    } else {
        None
    }
}

/// `l` without one trailing carriage return.
pub open spec fn strip_cr(l: Seq<u8>) -> Seq<u8> {
    if l.len() > 0 && l.last() == 13 {
        l.drop_last()
    } else {
        l
    }
}

/// The samples of the lines of `data` that parse, in file order. Lines end
/// at `\n`, with an optional `\r` before it.
pub open spec fn history_rows(data: Seq<u8>) -> Seq<Sample>
    decreases data.len(),
{
    if data.len() == 0 {
        Seq::empty()
    } else {
        let k = first_index(data, 10);
        let rest = if 0 <= k < data.len() { data.skip(k + 1) } else { Seq::empty() };
        let here = match line_sample(strip_cr(data.take(k))) {
            Some(x) => seq![x],
            None => Seq::empty(),
        };
        here + history_rows(rest)
    }
}

proof fn lemma_first_index_bounds(s: Seq<u8>, b: u8)
    ensures
        0 <= first_index(s, b) <= s.len(),
        first_index(s, b) < s.len() ==> s[first_index(s, b)] == b,
        forall|i: int| 0 <= i < first_index(s, b) ==> s[i] != b,
    decreases s.len(),
{
    if s.len() > 0 && s[0] != b {
        lemma_first_index_bounds(s.drop_first(), b);
        assert forall|i: int| 0 <= i < first_index(s, b) implies s[i] != b by {
            if i > 0 {
                assert(s[i] == s.drop_first()[i - 1]);
            }
        }
    }
}

proof fn lemma_digits_grow(s: Seq<u8>, k: int)
    requires
        all_digits(s),
        0 <= k <= s.len(),
    ensures
        0 <= digits_value(s.take(k)) <= digits_value(s),
    decreases s.len(),
{
    if s.len() > 0 {
        let t = s.drop_last();
        if k == s.len() {
            assert(s.take(k) =~= s);
        } else {
            assert(t.take(k) =~= s.take(k));
        }
        if k < s.len() {
            lemma_digits_grow(t, k);
        }
        lemma_digits_grow(t, t.len() as int);
        assert(t.take(t.len() as int) =~= t);
    }
}

/// Where the first `b` stands in `s[from..to]`, or `to`.
fn find_byte(s: &[u8], from: usize, to: usize, b: u8) -> (r: usize)
    requires
        from <= to <= s@.len(),
    ensures
        r == from + first_index(s@.subrange(from as int, to as int), b),
        from <= r <= to,
{
    let mut i: usize = from;
    proof {
        lemma_first_index_bounds(s@.subrange(from as int, to as int), b);
    }
    while i < to && s[i] != b
        invariant
            from <= i <= to <= s@.len(),
            first_index(s@.subrange(from as int, to as int), b) == (i - from) + first_index(
                s@.subrange(i as int, to as int),
                b,
            ),
        decreases to - i,
    {
        assert(s@.subrange(i as int, to as int).drop_first() =~= s@.subrange(i + 1, to as int));
        i = i + 1;
    }
    i
}

/// The value of the digits `s[lo..hi]` where all are digits and it is at
/// most `limit`; `None` otherwise.
fn digits_upto(s: &[u8], lo: usize, hi: usize, limit: u64) -> (r: Option<u64>)
    requires
        lo <= hi <= s@.len(),
    ensures
        r == (if all_digits(s@.subrange(lo as int, hi as int)) && digits_value(
            s@.subrange(lo as int, hi as int),
        ) <= limit {
            Some(digits_value(s@.subrange(lo as int, hi as int)) as u64)
        } else {
            None::<u64>
        }),
        r.is_some() ==> r.unwrap() <= limit,
{
    let ghost whole = s@.subrange(lo as int, hi as int);
    let mut v: u128 = 0;
    let mut i: usize = lo;
    assert(whole.take(0) =~= Seq::<u8>::empty());
    while i < hi
        invariant
            lo <= i <= hi <= s@.len(),
            whole == s@.subrange(lo as int, hi as int),
            all_digits(whole.take(i - lo)),
            v == digits_value(whole.take(i - lo)),
            v <= limit,
        decreases hi - i,
    {
        let c = s[i];
        assert(whole.take(i - lo + 1).drop_last() =~= whole.take(i - lo));
        assert(whole[i - lo] == c);
        if c < 48 || c > 57 {
            assert(!is_digit(whole[i - lo]));
            return None;
        }
        v = v * 10 + (c - 48) as u128;
        if v > limit as u128 {
            proof {
                if all_digits(whole) {
                    lemma_digits_grow(whole, i - lo + 1);
                }
            }
            return None;
        }
        i = i + 1;
    }
    assert(whole.take(hi - lo) =~= whole);
    Some(v as u64)
}

/// Whether `s[lo..hi]` holds only digits.
fn all_digits_in(s: &[u8], lo: usize, hi: usize) -> (r: bool)
    requires
        lo <= hi <= s@.len(),
    ensures
        r == all_digits(s@.subrange(lo as int, hi as int)),
{
    let mut i: usize = lo;
    while i < hi
        invariant
            lo <= i <= hi <= s@.len(),
            forall|j: int| lo <= j < i ==> is_digit(s@[j]),
        decreases hi - i,
    {
        if s[i] < 48 || s[i] > 57 {
            assert(!is_digit(s@.subrange(lo as int, hi as int)[i - lo]));
            return false;
        }
        i = i + 1;
    }
    assert forall|j: int| 0 <= j < hi - lo implies is_digit(#[trigger] s@.subrange(lo as int, hi as int)[j]) by {
        assert(s@.subrange(lo as int, hi as int)[j] == s@[lo + j]);
    }
    true
}

/// Start of `s[lo..hi]` past one leading `+`.
fn skip_plus(s: &[u8], lo: usize, hi: usize) -> (r: usize)
    requires
        lo <= hi <= s@.len(),
    ensures
        lo <= r <= hi,
        s@.subrange(r as int, hi as int) == unsigned_body(s@.subrange(lo as int, hi as int)),
{
    if lo < hi && s[lo] == 43 {
        assert(s@.subrange(lo as int, hi as int).drop_first() =~= s@.subrange(lo + 1, hi as int));
        lo + 1
    } else {
        lo
    }
}

fn timestamp_in(s: &[u8], lo: usize, hi: usize) -> (r: Option<u64>)
    requires
        lo <= hi <= s@.len(),
    ensures
        r == timestamp_of(s@.subrange(lo as int, hi as int)),
{
    let b = skip_plus(s, lo, hi);
    if b == hi {
        return None;
    }
    digits_upto(s, b, hi, MAX_TIMESTAMP)
}

fn cents_in(s: &[u8], lo: usize, hi: usize) -> (r: Option<u32>)
    requires
        lo <= hi <= s@.len(),
    ensures
        r == cents_of(s@.subrange(lo as int, hi as int)),
{
    let b = skip_plus(s, lo, hi);
    let ghost d = s@.subrange(b as int, hi as int);
    let k = find_byte(s, b, hi, 46);
    let fs: usize = if k < hi { k + 1 } else { hi };
    let ghost whole_text = d.take(k - b);
    let ghost frac_text = if k - b < d.len() { d.skip(k - b + 1) } else { Seq::<u8>::empty() };
    assert(whole_text =~= s@.subrange(b as int, k as int));
    assert(frac_text =~= s@.subrange(fs as int, hi as int));
    if !all_digits_in(s, fs, hi) {
        return None;
    }
    let whole = match digits_upto(s, b, k, MAX_WHOLE_UNITS) {
        Some(v) => v,
        None => {
            proof {
                if all_digits(whole_text) {
                    assert(fraction_cents(frac_text) >= 0);
                }
            }
            return None;
        },
    };
    if k == b && fs == hi {
        return None;
    }
    proof {
        lemma_digits_grow(whole_text, 0);
    }
    assert(whole == digits_value(whole_text));
    let mut c: u64 = whole * 100;
    assert(fs < hi ==> is_digit(frac_text[0]) && frac_text[0] == s@[fs as int]);
    assert(fs + 1 < hi ==> is_digit(frac_text[1]) && frac_text[1] == s@[fs + 1]);
    if fs < hi {
        c = c + (s[fs] - 48) as u64 * 10;
    }
    if fs < hi && fs + 1 < hi {
        c = c + (s[fs + 1] - 48) as u64;
    }
    assert(c == digits_value(whole_text) * 100 + fraction_cents(frac_text));
    if c > 0xffff_ffff {
        return None;
    }
    Some(c as u32)
}

/// Reads a timestamp: decimal digits after an optional `+`, at most the
/// largest `u64`.
pub fn parse_timestamp(text: &[u8]) -> (r: Option<u64>)
    ensures
        r == timestamp_of(text@),
{
    assert(text@.subrange(0, text@.len() as int) =~= text@);
    timestamp_in(text, 0, text.len())
}

/// Reads a price in whole units with up to two significant decimals, such
/// as `123.45`, as cents; further decimals are truncated.
pub fn parse_cents(text: &[u8]) -> (r: Option<u32>)
    ensures
        r == cents_of(text@),
{
    assert(text@.subrange(0, text@.len() as int) =~= text@);
    cents_in(text, 0, text.len())
}

fn line_in(s: &[u8], lo: usize, hi: usize) -> (r: Option<Sample>)
    requires
        lo <= hi <= s@.len(),
    ensures
        r == line_sample(s@.subrange(lo as int, hi as int)),
{
    let ghost l = s@.subrange(lo as int, hi as int);
    let k = find_byte(s, lo, hi, 44);
    if k == hi {
        return None;
    }
    assert(l.take(k - lo) =~= s@.subrange(lo as int, k as int));
    assert(l.skip(k - lo + 1) =~= s@.subrange(k + 1, hi as int));
    let t = timestamp_in(s, lo, k);
    let p = cents_in(s, k + 1, hi);
    match (t, p) {
        (Some(t), Some(p)) => Some(Sample { timestamp: t, price_cents: p }),
        _ => None,
    }
}

/// Reads one line `<timestamp>,<price>` of the bulk history file.
pub fn parse_history_line(line: &[u8]) -> (r: Result<Sample, TrendError>)
    ensures
        match line_sample(line@) {
            Some(x) => r == Ok::<Sample, TrendError>(x),
            None => r == Err::<Sample, TrendError>(TrendError::BootstrapLineMalformed),
        },
{
    assert(line@.subrange(0, line@.len() as int) =~= line@);
    match line_in(line, 0, line.len()) {
        Some(x) => Ok(x),
        None => Err(TrendError::BootstrapLineMalformed),
    }
}

/// Reads every line of the bulk history file `data` and keeps the samples of
/// those that parse, in file order; a line that does not parse is skipped.
pub fn parse_history(data: &[u8]) -> (r: Vec<Sample>)
    ensures
        r@ == history_rows(data@),
{
    let n = data.len();
    let mut out: Vec<Sample> = Vec::new();
    let mut pos: usize = 0;
    assert(data@.skip(0) =~= data@);
    while pos < n
        invariant
            n == data@.len(),
            pos <= n,
            history_rows(data@) == out@ + history_rows(data@.skip(pos as int)),
        decreases n - pos,
    {
        let ghost rest = data@.skip(pos as int);
        assert(rest =~= data@.subrange(pos as int, n as int));
        let k = find_byte(data, pos, n, 10);
        let e: usize = if k > pos && data[k - 1] == 13 { k - 1 } else { k };
        assert(data@.subrange(pos as int, e as int) =~= strip_cr(rest.take(k - pos)));
        let ghost here = match line_sample(strip_cr(rest.take(k - pos))) {
            Some(x) => seq![x],
            None => Seq::<Sample>::empty(),
        };
        let next: usize = if k < n { k + 1 } else { n };
        assert(k < n ==> rest.skip(k - pos + 1) =~= data@.skip(next as int));
        assert(k == n ==> Seq::<u8>::empty() =~= data@.skip(next as int));
        assert(history_rows(rest) == here + history_rows(data@.skip(next as int)));
        let ghost before = out@;
        match line_in(data, pos, e) {
            Some(x) => {
                out.push(x);
            },
            None => {},
        }
        assert(out@ =~= before + here);
        assert((before + here) + history_rows(data@.skip(next as int)) =~= before + (here + history_rows(
            data@.skip(next as int),
        )));
        pos = next;
    }
    assert(data@.skip(n as int) =~= Seq::<u8>::empty());
    assert(out@ + Seq::<Sample>::empty() =~= out@);
    out
}

/// `x` is a row of `rows`, and the first with its timestamp.
pub open spec fn first_with_timestamp(rows: Seq<Sample>, x: Sample) -> bool {
    exists|i: int|
        0 <= i < rows.len() && rows[i] == x && forall|j: int| 0 <= j < i ==> (#[trigger] rows[j]).timestamp != x.timestamp
}

/// What seeding from the bulk history `data` does: a series that holds
/// samples is left as it is; an empty one receives, for each timestamp among
/// the lines that parse, the first of those lines with it.
pub open spec fn bootstrap_post(before: Seq<Sample>, data: Seq<u8>, added: int, after: Seq<Sample>) -> bool {
    let rows = history_rows(data);
    &&& strictly_sorted(after)
    &&& added == after.len() - before.len()
    &&& before.len() > 0 ==> after == before
    &&& before.len() == 0 ==> {
        &&& forall|x: Sample| #[trigger] after.contains(x) ==> first_with_timestamp(rows, x)
        &&& forall|i: int| 0 <= i < rows.len() ==> has_timestamp(after, #[trigger] rows[i].timestamp)
    }
}

proof fn lemma_timestamp_kept(before: Seq<Sample>, after: Seq<Sample>, t: u64)
    requires
        has_timestamp(before, t),
        forall|x: Sample| #[trigger] before.contains(x) ==> after.contains(x),
    ensures
        has_timestamp(after, t),
{
    let m = choose|m: int| 0 <= m < before.len() && #[trigger] before[m].timestamp == t;
    assert(before.contains(before[m]));
    let k = choose|k: int| 0 <= k < after.len() && after[k] == before[m];
    assert(after[k].timestamp == t);
}

impl PriceHistory {
    /// Seeds an empty series from the bulk history file `data`, adding each
    /// line's sample unless its timestamp is already held; lines that do not
    /// parse are skipped. A series that already holds samples is left
    /// untouched. Returns how many samples were added.
    pub fn bootstrap(&mut self, data: &[u8]) -> (added: usize)
        requires
            old(self).wf(),
        ensures
            final(self).wf(),
            bootstrap_post(old(self)@, data@, added as int, final(self)@),
    {
        if self.exists_any() {
            return 0;
        }
        let rows = parse_history(data);
        let n = rows.len();
        let mut added: usize = 0;
        let mut i: usize = 0;
        while i < n
            invariant
                n == rows@.len(),
                rows@ == history_rows(data@),
                i <= n,
                self.wf(),
                added == self@.len(),
                self@.len() <= i,
                forall|x: Sample| #[trigger] self@.contains(x) ==> first_with_timestamp(rows@, x),
                forall|j: int| 0 <= j < i ==> has_timestamp(self@, #[trigger] rows@[j].timestamp),
            decreases n - i,
        {
            let ghost before = self@;
            let s = rows[i];
            let fresh = self.insert_if_absent(s);
            if fresh {
                added = added + 1;
            }
            proof {
                let after = self@;
                assert forall|x: Sample| #[trigger] before.contains(x) implies after.contains(x) by {}
                assert forall|j: int| 0 <= j <= i implies has_timestamp(after, #[trigger] rows@[j].timestamp) by {
                    if j < i {
                        lemma_timestamp_kept(before, after, rows@[j].timestamp);
                    } else if fresh {
                        assert(after.contains(s));
                        let k = choose|k: int| 0 <= k < after.len() && after[k] == s;
                        assert(after[k].timestamp == s.timestamp);
                    }
                }
                assert forall|x: Sample| #[trigger] after.contains(x) implies first_with_timestamp(rows@, x) by {
                    if !before.contains(x) {
                        assert(x == s && fresh);
                        assert forall|j: int| 0 <= j < i implies (#[trigger] rows@[j]).timestamp != x.timestamp by {
                            assert(has_timestamp(before, rows@[j].timestamp));
                        }
                        assert(rows@[i as int] == x);
                    }
                }
            }
            i = i + 1;
        }
        added
    }
}

/// Seeding an empty series and then seeding it again from the same file:
/// the second call adds nothing and leaves the series as the first left it.
pub proof fn lemma_bootstrap_twice(
    empty: Seq<Sample>,
    seeded: Seq<Sample>,
    again: Seq<Sample>,
    data: Seq<u8>,
    added_first: int,
    added_second: int,
)
    requires
        empty.len() == 0,
        bootstrap_post(empty, data, added_first, seeded),
        bootstrap_post(seeded, data, added_second, again),
    ensures
        again == seeded,
        added_second == 0,
{
    let rows = history_rows(data);
    if seeded.len() == 0 {
        if rows.len() > 0 {
            assert(has_timestamp(seeded, rows[0].timestamp));
        }
        if again.len() > 0 {
            assert(again.contains(again[0]));
            assert(first_with_timestamp(rows, again[0]));
        }
        assert(again =~= seeded);
    }
}

proof fn lemma_first_index_after_line(line: Seq<u8>, rest: Seq<u8>, b: u8)
    requires
        forall|i: int| 0 <= i < line.len() ==> line[i] != b,
    ensures
        first_index(line + seq![b] + rest, b) == line.len(),
    decreases line.len(),
{
    let d = line + seq![b] + rest;
    if line.len() > 0 {
        assert(d.drop_first() =~= line.drop_first() + seq![b] + rest);
        lemma_first_index_after_line(line.drop_first(), rest, b);
    }
}

/// A line of the bulk history file that does not parse is skipped: the file
/// gives the same samples as the lines after it alone.
pub proof fn lemma_malformed_line_skipped(line: Seq<u8>, rest: Seq<u8>)
    requires
        forall|i: int| 0 <= i < line.len() ==> line[i] != 10,
        line_sample(strip_cr(line)).is_none(),
    ensures
        history_rows(line + seq![10u8] + rest) == history_rows(rest),
{
    let d = line + seq![10u8] + rest;
    lemma_first_index_after_line(line, rest, 10);
    assert(d.take(line.len() as int) =~= line);
    assert(d.skip(line.len() as int + 1) =~= rest);
    assert(Seq::<Sample>::empty() + history_rows(rest) =~= history_rows(rest));
}

} // verus!
