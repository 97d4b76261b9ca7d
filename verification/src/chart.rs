//! History graphs: fitting a series of samples to the columns of a chart.

use vstd::prelude::*;

verus! {

/// The largest sample of a non-empty series.
pub open spec fn peak(s: Seq<u64>) -> u64
    decreases s.len(),
{
    if s.len() <= 1 {
        s[0]
    } else {
        let rest = peak(s.drop_last());
        if s.last() > rest { s.last() } else { rest }
    }
}

/// The first sample of column `c` when `len` samples share `width` columns.
pub open spec fn bucket_start(c: int, len: int, width: int) -> int {
    c * len / width
}

/// One past the last sample of column `c`: at least one sample per column.
pub open spec fn bucket_end(c: int, len: int, width: int) -> int {
    let e = (c + 1) * len / width;
    if e > bucket_start(c, len, width) + 1 { e } else { bucket_start(c, len, width) + 1 }
}

/// The chart columns for `values`: a series that fits is right-aligned after
/// empty columns; a longer one is cut into `width` consecutive runs and each
/// column shows the peak of its run.
pub open spec fn chart(values: Seq<u64>, width: nat) -> Seq<Option<u64>> {
    let len = values.len();
    if width == 0 {
        Seq::empty()
    } else if len <= width {
        Seq::new((width - len) as nat, |i: int| None) + values.map_values(|v: u64| Some(v))
    } else {
        Seq::new(width, |c: int| Some(peak(values.subrange(bucket_start(c, len as int, width as int),
            bucket_end(c, len as int, width as int)))))
    }
}

proof fn lemma_buckets(c: int, len: int, width: int)
    requires
        0 <= c < width,
        width < len,
    ensures
        0 <= bucket_start(c, len, width) < bucket_end(c, len, width) <= len,
{
    assert(0 <= c * len / width < len) by (nonlinear_arith)
        requires 0 <= c < width, width < len;
    assert((c + 1) * len / width <= len) by (nonlinear_arith)
        requires 0 <= c < width, width < len;
}

fn run_peak(values: &Vec<u64>, start: usize, end: usize) -> (m: u64)
    requires
        start < end <= values.len(),
    ensures
        m == peak(values@.subrange(start as int, end as int)),
{
    let mut m = values[start];
    let mut i = start + 1;
    assert(values@.subrange(start as int, start + 1) == seq![values@[start as int]]);
    while i < end
        invariant
            start < i <= end <= values.len(),
            m == peak(values@.subrange(start as int, i as int)),
        decreases end - i,
    {
        assert(values@.subrange(start as int, i + 1).drop_last() == values@.subrange(start as int, i as int));
        if values[i] > m {
            m = values[i];
        }
        i = i + 1;
    }
    m
}

/// The chart columns for a series of rounded percentages (see `chart`).
pub fn chart_columns(values: &Vec<u64>, width: usize) -> (data: Vec<Option<u64>>)
    requires
        width * values.len() <= usize::MAX,
    ensures
        data@ == chart(values@, width as nat),
{
    let len = values.len();
    let mut data: Vec<Option<u64>> = Vec::new();
    if width == 0 {
        return data;
    }
    if len <= width {
        for i in 0..width - len
            invariant
                data@ == Seq::new(i as nat, |k: int| None::<u64>),
        {
            data.push(None);
            assert(data@ =~= Seq::new((i + 1) as nat, |k: int| None::<u64>));
        }
        let ghost pad = data@;
        for i in 0..len
            invariant
                len == values.len(),
                pad == Seq::new((width - len) as nat, |k: int| None::<u64>),
                data@ == pad + values@.take(i as int).map_values(|v: u64| Some(v)),
        {
            data.push(Some(values[i]));
            assert(values@.take(i + 1).map_values(|v: u64| Some(v))
                =~= values@.take(i as int).map_values(|v: u64| Some(v)).push(Some(values@[i as int])));
        }
        assert(values@.take(len as int) == values@);
        return data;
    }
    for c in 0..width
        invariant
            width < len == values.len(),
            width * len <= usize::MAX,
            data@ == Seq::new(c as nat, |k: int| Some(peak(values@.subrange(bucket_start(k, len as int, width as int),
                bucket_end(k, len as int, width as int))))),
    {
        proof {
            lemma_buckets(c as int, len as int, width as int);
            assert((c + 1) * len <= width * len) by (nonlinear_arith) requires c < width;
            assert(c * len <= (c + 1) * len) by (nonlinear_arith);
        }
        let start = c * len / width;
        let e = (c + 1) * len / width;
        let end = if e > start + 1 { e } else { start + 1 };
        let m = run_peak(values, start, end);
        data.push(Some(m));
        assert(data@ =~= Seq::new((c + 1) as nat, |k: int| Some(peak(values@.subrange(bucket_start(k, len as int, width as int),
            bucket_end(k, len as int, width as int))))));
    }
    data
}

/// A history that fits the chart is drawn right-aligned: empty columns
/// first, then every sample in order.
pub proof fn lemma_short_history_right_aligned(values: Seq<u64>, width: nat)
    requires
        0 < width,
        values.len() <= width,
    ensures
        chart(values, width).len() == width,
        forall|c: int| 0 <= c < width - values.len() ==> #[trigger] chart(values, width)[c] is None,
        forall|i: int| 0 <= i < values.len() ==> #[trigger] chart(values, width)[width - values.len() + i] == Some(values[i]),
{
}

proof fn lemma_peak_bounds(s: Seq<u64>)
    requires
        s.len() > 0,
    ensures
        forall|i: int| 0 <= i < s.len() ==> #[trigger] s[i] <= peak(s),
        exists|i: int| 0 <= i < s.len() && #[trigger] s[i] == peak(s),
    decreases s.len(),
{
    if s.len() > 1 {
        let rest = s.drop_last();
        lemma_peak_bounds(rest);
        assert forall|i: int| 0 <= i < s.len() implies #[trigger] s[i] <= peak(s) by {
            if i < s.len() - 1 {
                assert(s[i] == rest[i]);
            }
        }
        if s.last() > peak(rest) {
            assert(s[s.len() - 1] == peak(s));
        } else {
            let i = choose|i: int| 0 <= i < rest.len() && #[trigger] rest[i] == peak(rest);
            assert(s[i] == rest[i]);
        }
    } else {
        assert(s[0] == peak(s));
    }
}

/// Column `c` or a later one holds sample `k`, when column `c` starts at or
/// before it.
proof fn lemma_column_of(k: int, len: int, width: int, c: int)
    requires
        0 < width < len,
        0 <= k < len,
        0 <= c < width,
        bucket_start(c, len, width) <= k,
    ensures
        exists|d: int| 0 <= d < width && bucket_start(d, len, width) <= k < #[trigger] bucket_end(d, len, width),
    decreases width - c,
{
    if c == width - 1 {
        assert(width * len / width == len) by (nonlinear_arith)
            requires 0 < width;
        assert(bucket_end(c, len, width) >= len);
    } else if bucket_start(c + 1, len, width) > k {
        assert(bucket_end(c, len, width) >= bucket_start(c + 1, len, width));
    } else {
        lemma_column_of(k, len, width, c + 1);
    }
}

/// Downsampling keeps peaks: when a history is longer than the chart is
/// wide, every column shows the largest sample of its run, no column shows
/// more than the largest sample of the history, and some column shows it.
pub proof fn lemma_downsampling_keeps_peak(values: Seq<u64>, width: nat)
    requires
        0 < width < values.len(),
    ensures
        forall|c: int| 0 <= c < width ==> (#[trigger] chart(values, width)[c] matches Some(v) && v <= peak(values)),
        exists|c: int| 0 <= c < width && #[trigger] chart(values, width)[c] == Some(peak(values)),
{
    let len = values.len() as int;
    let w = width as int;
    lemma_peak_bounds(values);
    assert forall|c: int| 0 <= c < width implies (#[trigger] chart(values, width)[c] matches Some(v) && v <= peak(values)) by {
        lemma_buckets(c, len, w);
        let run = values.subrange(bucket_start(c, len, w), bucket_end(c, len, w));
        lemma_peak_bounds(run);
        let i = choose|i: int| 0 <= i < run.len() && #[trigger] run[i] == peak(run);
        assert(run[i] == values[bucket_start(c, len, w) + i]);
    }
    let k = choose|i: int| 0 <= i < values.len() && #[trigger] values[i] == peak(values);
    assert(bucket_start(0, len, w) == 0);
    lemma_column_of(k, len, w, 0);
    let c = choose|d: int| 0 <= d < w && bucket_start(d, len, w) <= k < #[trigger] bucket_end(d, len, w);
    lemma_buckets(c, len, w);
    let run = values.subrange(bucket_start(c, len, w), bucket_end(c, len, w));
    lemma_peak_bounds(run);
    assert(run[k - bucket_start(c, len, w)] == values[k]);
    let i = choose|i: int| 0 <= i < run.len() && #[trigger] run[i] == peak(run);
    assert(run[i] == values[bucket_start(c, len, w) + i]);
    assert(chart(values, width)[c] == Some(peak(run)));
}

} // verus!
