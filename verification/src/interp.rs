use vstd::prelude::*;

verus! {

/// `p` comes before `q` when its time is earlier, or the times are equal and
/// `p` was given first: the order of a stable sort by time.
pub open spec fn comes_before(times: Seq<u64>, p: int, q: int) -> bool {
    times[p] < times[q] || (times[p] == times[q] && p < q)
}

/// `order` lists the indices of `times` in the order of a stable sort by time.
pub open spec fn is_stable_order(times: Seq<u64>, order: Seq<usize>) -> bool {
    &&& order.len() == times.len()
    &&& forall|i: int| 0 <= i < order.len() ==> #[trigger] order[i] < times.len()
    &&& forall|m: int| 0 <= m < times.len() ==> #[trigger] order.contains(m as usize)
    &&& forall|i: int, j: int|
        0 <= i < j < order.len() ==> comes_before(times, order[i] as int, order[j] as int)
}

proof fn lemma_stable_orders_agree_below(times: Seq<u64>, o1: Seq<usize>, o2: Seq<usize>, n: int)
    requires
        is_stable_order(times, o1),
        is_stable_order(times, o2),
        0 <= n <= o1.len(),
        times.len() <= usize::MAX,
    ensures
        forall|k: int| 0 <= k < n ==> o1[k] == o2[k],
    decreases n,
{
    if n > 0 {
        let i = n - 1;
        lemma_stable_orders_agree_below(times, o1, o2, i);
        let p = o1[i];
        let q = o2[i];
        if p != q {
            // q sits in o1 after position i, and p in o2 after position i
            assert(q < times.len());
            assert(o1.contains((q as int) as usize));
            let j1 = choose|j: int| 0 <= j < o1.len() && o1[j] == q;
            if j1 < i {
                assert(o2[j1] == q);
                assert(comes_before(times, o2[j1] as int, o2[i] as int));
            }
            assert(p < times.len());
            assert(o2.contains((p as int) as usize));
            let j2 = choose|j: int| 0 <= j < o2.len() && o2[j] == p;
            if j2 < i {
                assert(o1[j2] == p);
                assert(comes_before(times, o1[j2] as int, o1[i] as int));
            }
            assert(j1 > i && j2 > i);
            assert(comes_before(times, p as int, q as int));
            assert(comes_before(times, q as int, p as int));
        }
    }
}

/// Sorting by time is deterministic: a chart has exactly one stable order.
pub proof fn lemma_stable_order_unique(times: Seq<u64>, o1: Seq<usize>, o2: Seq<usize>)
    requires
        is_stable_order(times, o1),
        is_stable_order(times, o2),
        times.len() <= usize::MAX,
    ensures
        o1 == o2,
{
    lemma_stable_orders_agree_below(times, o1, o2, o1.len() as int);
    assert(o1 =~= o2);
}

/// The indices of `times` in the order of a stable sort by time.
pub fn stable_order(times: &Vec<u64>) -> (order: Vec<usize>)
    ensures
        is_stable_order(times@, order@),
{
    let n = times.len();
    let mut order: Vec<usize> = Vec::new();
    let mut k: usize = 0;
    while k < n
        invariant
            k <= n,
            n == times.len(),
            order.len() == k,
            forall|i: int| 0 <= i < order.len() ==> #[trigger] order[i] < k,
            forall|m: int| 0 <= m < k ==> #[trigger] order@.contains(m as usize),
            forall|i: int, j: int|
                0 <= i < j < order.len() ==> comes_before(
                    times@,
                    order[i] as int,
                    order[j] as int,
                ),
        decreases n - k,
    {
        let tk = times[k];
        let mut pos: usize = k;
        while pos > 0
            invariant
                pos <= k,
                k < n,
                n == times.len(),
                tk == times[k as int],
                order.len() == k,
                forall|i: int| 0 <= i < order.len() ==> #[trigger] order[i] < k,
                forall|i: int| pos <= i < k ==> times[#[trigger] order[i] as int] > tk,
            ensures
                pos <= k,
                forall|i: int| pos <= i < k ==> times[#[trigger] order[i] as int] > tk,
                pos == 0 || times[order[pos - 1] as int] <= tk,
            decreases pos,
        {
            if times[order[pos - 1]] <= tk {
                break;
            }
            pos = pos - 1;
        }
        proof {
            assert forall|i: int| 0 <= i < pos implies times[#[trigger] order[i] as int] <= tk by {
                if pos > 0 {
                    assert(times[order[pos - 1] as int] <= tk);
                    if i < pos - 1 {
                        assert(comes_before(times@, order[i] as int, order[pos - 1] as int));
                    }
                }
            }
        }
        let ghost prev = order@;
        order.insert(pos, k);
        proof {
            assert(order[pos as int] == k);
            assert forall|m: int| 0 <= m <= k implies #[trigger] order@.contains(m as usize) by {
                if m < k {
                    assert(prev.contains(m as usize));
                    let w = choose|w: int| 0 <= w < prev.len() && prev[w] == m as usize;
                    if w < pos {
                        assert(order[w] == prev[w]);
                    } else {
                        assert(order[w + 1] == prev[w]);
                    }
                }
            }
            assert forall|i: int, j: int| 0 <= i < j < order.len() implies comes_before(
                times@,
                order[i] as int,
                order[j] as int,
            ) by {
                if j < pos {
                    assert(order[i] == prev[i] && order[j] == prev[j]);
                } else if j == pos {
                    assert(order[i] == prev[i]);
                    assert(times[prev[i] as int] <= tk);
                } else if i < pos {
                    assert(order[i] == prev[i] && order[j] == prev[j - 1]);
                } else if i == pos {
                    assert(order[j] == prev[j - 1]);
                } else {
                    assert(order[i] == prev[i - 1] && order[j] == prev[j - 1]);
                }
            }
        }
        k = k + 1;
    }
    order
}


/// The earliest time of a chart; `u64::MAX` for a chart without points.
pub open spec fn earliest(times: Seq<u64>) -> u64
    decreases times.len(),
{
    if times.len() == 0 {
        u64::MAX
    } else {
        let rest = earliest(times.drop_last());
        if times.last() < rest { times.last() } else { rest }
    }
}

/// The latest time of a chart; `0` for a chart without points.
pub open spec fn latest(times: Seq<u64>) -> u64
    decreases times.len(),
{
    if times.len() == 0 {
        0
    } else {
        let rest = latest(times.drop_last());
        if times.last() > rest { times.last() } else { rest }
    }
}

/// Start of the common time range: the latest of the charts' earliest times
/// (`0` when there is no chart).
pub open spec fn range_start(charts: Seq<Seq<u64>>) -> u64
    decreases charts.len(),
{
    if charts.len() == 0 {
        0
    } else {
        let rest = range_start(charts.drop_last());
        let here = earliest(charts.last());
        if here > rest { here } else { rest }
    }
}

/// End of the common time range: the earliest of the charts' latest times
/// (`u64::MAX` when there is no chart).
pub open spec fn range_end(charts: Seq<Seq<u64>>) -> u64
    decreases charts.len(),
{
    if charts.len() == 0 {
        u64::MAX
    } else {
        let rest = range_end(charts.drop_last());
        let here = latest(charts.last());
        if here < rest { here } else { rest }
    }
}

pub open spec fn strictly_increasing(s: Seq<u64>) -> bool {
    forall|i: int, j: int| 0 <= i < j < s.len() ==> s[i] < s[j]
}

/// `x` is a time of one of the charts inside the common time range.
pub open spec fn on_timeline(charts: Seq<Seq<u64>>, x: u64) -> bool {
    &&& range_start(charts) <= x <= range_end(charts)
    &&& exists|c: int| 0 <= c < charts.len() && #[trigger] charts[c].contains(x)
}

/// The earliest and the latest time of a chart.
fn chart_span(times: &Vec<u64>) -> (span: (u64, u64))
    ensures
        span.0 == earliest(times@),
        span.1 == latest(times@),
{
    let mut lo: u64 = u64::MAX;
    let mut hi: u64 = 0;
    let mut i: usize = 0;
    while i < times.len()
        invariant
            i <= times.len(),
            lo == earliest(times@.take(i as int)),
            hi == latest(times@.take(i as int)),
        decreases times.len() - i,
    {
        assert(times@.take(i + 1).drop_last() =~= times@.take(i as int));
        let t = times[i];
        if t < lo {
            lo = t;
        }
        if t > hi {
            hi = t;
        }
        i = i + 1;
    }
    assert(times@.take(times.len() as int) =~= times@);
    (lo, hi)
}

/// The common time range of all charts.
fn common_range(series: &Vec<Vec<u64>>) -> (range: (u64, u64))
    ensures
        range.0 == range_start(series.deep_view()),
        range.1 == range_end(series.deep_view()),
{
    let ghost charts = series.deep_view();
    let mut lo: u64 = 0;
    let mut hi: u64 = u64::MAX;
    let mut c: usize = 0;
    while c < series.len()
        invariant
            c <= series.len(),
            charts == series.deep_view(),
            lo == range_start(charts.take(c as int)),
            hi == range_end(charts.take(c as int)),
        decreases series.len() - c,
    {
        assert(charts.take(c + 1).drop_last() =~= charts.take(c as int));
        assert(charts[c as int] == series[c as int]@);
        let span = chart_span(&series[c]);
        if span.0 > lo {
            lo = span.0;
        }
        if span.1 < hi {
            hi = span.1;
        }
        c = c + 1;
    }
    assert(charts.take(series.len() as int) =~= charts);
    (lo, hi)
}


/// The times of a chart inside `[lo, hi]`, increasing, each once.
fn times_in_range(times: &Vec<u64>, order: &Vec<usize>, lo: u64, hi: u64) -> (r: Vec<u64>)
    requires
        is_stable_order(times@, order@),
    ensures
        strictly_increasing(r@),
        forall|x: u64| r@.contains(x) <==> (lo <= x <= hi && times@.contains(x)),
{
    let n = order.len();
    let mut r: Vec<u64> = Vec::new();
    let mut i: usize = 0;
    while i < n
        invariant
            i <= n,
            n == order.len(),
            is_stable_order(times@, order@),
            strictly_increasing(r@),
            forall|x: u64|
                r@.contains(x) <==> (lo <= x <= hi && exists|i2: int|
                    0 <= i2 < i && times@[#[trigger] order@[i2] as int] == x),
            r.len() > 0 && i < n ==> r@.last() <= times@[order@[i as int] as int],
        decreases n - i,
    {
        let x = times[order[i]];
        let ghost prev = r@;
        if lo <= x && x <= hi && (r.len() == 0 || r[r.len() - 1] < x) {
            r.push(x);
        }
        proof {
            if i + 1 < n {
                assert(comes_before(times@, order@[i as int] as int, order@[i + 1] as int));
            }
            assert forall|y: u64|
                r@.contains(y) <==> (lo <= y <= hi && exists|i2: int|
                    0 <= i2 < i + 1 && times@[#[trigger] order@[i2] as int] == y) by {
                if r@.contains(y) {
                    let w = choose|w: int| 0 <= w < r.len() && r@[w] == y;
                    if w < prev.len() {
                        assert(prev[w] == y);
                        assert(prev.contains(y));
                    } else {
                        assert(times@[order@[i as int] as int] == y);
                    }
                }
                if lo <= y <= hi && exists|i2: int|
                    0 <= i2 < i + 1 && times@[#[trigger] order@[i2] as int] == y {
                    let i2 = choose|i2: int|
                        0 <= i2 < i + 1 && times@[#[trigger] order@[i2] as int] == y;
                    if i2 < i {
                        assert(prev.contains(y));
                        let w = choose|w: int| 0 <= w < prev.len() && prev[w] == y;
                        assert(r@[w] == y);
                    } else if r.len() > prev.len() {
                        assert(r@[r.len() - 1] == y);
                    } else {
                        assert(prev[prev.len() - 1] == y);
                    }
                }
            }
        }
        i = i + 1;
    }
    proof {
        assert forall|x: u64| r@.contains(x) <==> (lo <= x <= hi && times@.contains(x)) by {
            if lo <= x <= hi && times@.contains(x) {
                let m = choose|m: int| 0 <= m < times.len() && times@[m] == x;
                assert(order@.contains(m as usize));
                let i2 = choose|i2: int| 0 <= i2 < order.len() && order@[i2] == m as usize;
                assert(times@[order@[i2] as int] == x);
            }
            if r@.contains(x) {
                let i2 = choose|i2: int| 0 <= i2 < n && times@[#[trigger] order@[i2] as int] == x;
                assert(order@[i2] < times.len());
                assert(times@[order@[i2] as int] == x);
            }
        }
    }
    r
}

/// The union of two increasing sequences of times, increasing, each once.
fn merge_union(a: &Vec<u64>, b: &Vec<u64>) -> (r: Vec<u64>)
    requires
        strictly_increasing(a@),
        strictly_increasing(b@),
    ensures
        strictly_increasing(r@),
        forall|x: u64| r@.contains(x) <==> (a@.contains(x) || b@.contains(x)),
{
    let mut r: Vec<u64> = Vec::new();
    let mut i: usize = 0;
    let mut j: usize = 0;
    while i < a.len() || j < b.len()
        invariant
            i <= a.len(),
            j <= b.len(),
            strictly_increasing(a@),
            strictly_increasing(b@),
            strictly_increasing(r@),
            forall|x: u64|
                r@.contains(x) <==> (a@.take(i as int).contains(x) || b@.take(j as int).contains(x)),
            r.len() > 0 && i < a.len() ==> r@.last() < a@[i as int],
            r.len() > 0 && j < b.len() ==> r@.last() < b@[j as int],
        decreases a.len() + b.len() - i - j,
    {
        let ghost prev = r@;
        let ghost (i0, j0) = (i as int, j as int);
        if j >= b.len() || (i < a.len() && a[i] < b[j]) {
            r.push(a[i]);
            i = i + 1;
        } else if i >= a.len() || b[j] < a[i] {
            r.push(b[j]);
            j = j + 1;
        } else {
            r.push(a[i]);
            i = i + 1;
            j = j + 1;
        }
        proof {
            let v = r@.last();
            assert(r@ == prev.push(v));
            assert forall|x: u64|
                r@.contains(x) <==> (a@.take(i as int).contains(x) || b@.take(
                    j as int,
                ).contains(x)) by {
                let ta = a@.take(i as int);
                let tb = b@.take(j as int);
                let pa = a@.take(i0);
                let pb = b@.take(j0);
                if i > i0 {
                    assert(ta =~= pa.push(a@[i0]));
                } else {
                    assert(ta =~= pa);
                }
                if j > j0 {
                    assert(tb =~= pb.push(b@[j0]));
                } else {
                    assert(tb =~= pb);
                }
                if pa.contains(x) {
                    let w = choose|w: int| 0 <= w < pa.len() && pa[w] == x;
                    assert(ta[w] == x);
                }
                if pb.contains(x) {
                    let w = choose|w: int| 0 <= w < pb.len() && pb[w] == x;
                    assert(tb[w] == x);
                }
                if r@.contains(x) {
                    let w = choose|w: int| 0 <= w < r.len() && r@[w] == x;
                    if w < prev.len() {
                        assert(prev[w] == x);
                        assert(prev.contains(x));
                    } else if i > i0 && v == a@[i0] {
                        assert(ta[ta.len() - 1] == x);
                    } else {
                        assert(tb[tb.len() - 1] == x);
                    }
                }
                if ta.contains(x) {
                    let w = choose|w: int| 0 <= w < ta.len() && ta[w] == x;
                    if w < pa.len() {
                        assert(pa[w] == x);
                        assert(pa.contains(x));
                        assert(prev.contains(x));
                        let u = choose|u: int| 0 <= u < prev.len() && prev[u] == x;
                        assert(r@[u] == x);
                    } else {
                        assert(r@[r.len() - 1] == x);
                    }
                }
                if tb.contains(x) {
                    let w = choose|w: int| 0 <= w < tb.len() && tb[w] == x;
                    if w < pb.len() {
                        assert(pb[w] == x);
                        assert(pb.contains(x));
                        assert(prev.contains(x));
                        let u = choose|u: int| 0 <= u < prev.len() && prev[u] == x;
                        assert(r@[u] == x);
                    } else {
                        assert(r@[r.len() - 1] == x);
                    }
                }
            }
        }
    }
    assert(a@.take(a.len() as int) =~= a@);
    assert(b@.take(b.len() as int) =~= b@);
    r
}


/// Where a timeline point falls in a chart: between the points `lower` and
/// `upper` (indices into the chart as given), `offset` after the time of
/// `lower`, the two points being `width` apart. The rebased value there is
/// `lower`'s price weighted by `1 - offset / width` plus `upper`'s price
/// weighted by `offset / width`.
#[derive(Clone, Copy, Debug, PartialEq, Eq)]
pub struct Bracket {
    pub lower: usize,
    pub upper: usize,
    pub offset: u64,
    pub width: u64,
}

/// The times of a chart in the order `order` lists them.
pub open spec fn sorted_times(times: Seq<u64>, order: Seq<usize>) -> Seq<u64> {
    Seq::new(order.len(), |i: int| times[order[i] as int])
}

/// The first position `j >= from` of the sorted times `st` such that `t` lies
/// between the `j`-th and the next time.
pub open spec fn first_bracket_from(st: Seq<u64>, t: u64, from: int) -> Option<int>
    decreases st.len() - from,
{
    if from < 0 || from + 1 >= st.len() {
        None
    } else if st[from] <= t <= st[from + 1] {
        Some(from)
    } else {
        first_bracket_from(st, t, from + 1)
    }
}

/// The bracket of time `t` in a chart whose stable order by time is `order`:
/// the first pair of neighbouring points, in that order, whose times enclose `t`.
pub open spec fn bracket_for(times: Seq<u64>, order: Seq<usize>, t: u64) -> Option<Bracket> {
    match first_bracket_from(sorted_times(times, order), t, 0) {
        Some(j) => Some(
            Bracket {
                lower: order[j],
                upper: order[j + 1],
                offset: (t - times[order[j] as int]) as u64,
                width: (times[order[j + 1] as int] - times[order[j] as int]) as u64,
            },
        ),
        None => None,
    }
}

proof fn lemma_first_bracket_skip(st: Seq<u64>, t: u64, from: int)
    requires
        0 <= from,
        forall|j: int| 0 <= j < from && j + 1 < st.len() ==> !(#[trigger] st[j] <= t <= st[j + 1]),
    ensures
        first_bracket_from(st, t, 0) == first_bracket_from(st, t, from),
    decreases from,
{
    if from > 0 {
        lemma_first_bracket_skip(st, t, from - 1);
    }
}

proof fn lemma_first_bracket_found(st: Seq<u64>, t: u64, from: int)
    requires
        0 <= from,
    ensures
        first_bracket_from(st, t, from) matches Some(j) ==> from <= j && j + 1 < st.len() && st[j]
            <= t <= st[j + 1],
    decreases st.len() - from,
{
    if from + 1 < st.len() && !(st[from] <= t <= st[from + 1]) {
        lemma_first_bracket_found(st, t, from + 1);
    }
}

/// The bracket of each timeline point in one chart.
fn chart_brackets(times: &Vec<u64>, order: &Vec<usize>, timeline: &Vec<u64>) -> (r: Vec<
    Option<Bracket>,
>)
    requires
        is_stable_order(times@, order@),
        strictly_increasing(timeline@),
    ensures
        r.len() == timeline.len(),
        forall|k: int| 0 <= k < r.len() ==> r@[k] == bracket_for(times@, order@, #[trigger] timeline@[k]),
{
    let ghost st = sorted_times(times@, order@);
    let n = order.len();
    let mut r: Vec<Option<Bracket>> = Vec::new();
    let mut ptr: usize = 0;
    let mut k: usize = 0;
    while k < timeline.len()
        invariant
            k <= timeline.len(),
            n == order.len(),
            st == sorted_times(times@, order@),
            is_stable_order(times@, order@),
            strictly_increasing(timeline@),
            r.len() == k,
            forall|q: int| 0 <= q < k ==> r@[q] == bracket_for(times@, order@, #[trigger] timeline@[q]),
            ptr == 0 || (k > 0 && ptr < n && st[ptr as int] <= timeline@[k - 1]),
        decreases timeline.len() - k,
    {
        let t = timeline[k];
        proof {
            assert forall|j: int| 0 <= j < ptr && j + 1 < st.len() implies !(#[trigger] st[j] <= t <= st[j
                + 1]) by {
                if j + 1 < ptr {
                    assert(comes_before(times@, order@[j + 1] as int, order@[ptr as int] as int));
                }
                assert(timeline@[k - 1] < timeline@[k as int]);
            }
            lemma_first_bracket_skip(st, t, ptr as int);
        }
        let mut j: usize = ptr;
        let mut found: Option<usize> = None;
        while j < n && n - j >= 2
            invariant_except_break
                found is None,
                first_bracket_from(st, t, 0) == first_bracket_from(st, t, j as int),
            invariant
                ptr <= j,
                n == order.len(),
                st == sorted_times(times@, order@),
                is_stable_order(times@, order@),
            ensures
                found matches Some(f) ==> f == j && first_bracket_from(st, t, 0) == Some(j as int),
                found is None ==> first_bracket_from(st, t, 0) is None,
            decreases n - j,
        {
            let lo = times[order[j]];
            let hi = times[order[j + 1]];
            if lo <= t && t <= hi {
                found = Some(j);
                break;
            }
            j = j + 1;
        }
        match found {
            Some(f) => {
                proof {
                    lemma_first_bracket_found(st, t, 0);
                    assert(comes_before(times@, order@[f as int] as int, order@[f + 1] as int));
                }
                let lo = times[order[f]];
                let hi = times[order[f + 1]];
                r.push(
                    Some(
                        Bracket { lower: order[f], upper: order[f + 1], offset: t - lo, width: hi - lo },
                    ),
                );
                ptr = f;
            },
            None => {
                r.push(None);
            },
        }
        k = k + 1;
    }
    r
}


/// One chart's part of a rebase: its stable order by time, and the bracket of
/// each timeline point.
pub struct ChartPlan {
    pub order: Vec<usize>,
    pub brackets: Vec<Option<Bracket>>,
}

/// How charts are carried onto one timeline: the common timeline and, for
/// each chart, where each timeline point falls in it.
pub struct RebasePlan {
    pub time: Vec<u64>,
    pub charts: Vec<ChartPlan>,
}

#[derive(Clone, Copy, Debug, PartialEq, Eq)]
pub enum RebaseError {
    /// The common time range of the charts is a single instant.
    ZeroWidthRange,
}

/// `plan` is the plan of the chart `times` on the timeline `timeline`.
pub open spec fn chart_plan_matches(times: Seq<u64>, timeline: Seq<u64>, plan: ChartPlan) -> bool {
    &&& is_stable_order(times, plan.order@)
    &&& plan.brackets.len() == timeline.len()
    &&& forall|k: int|
        0 <= k < timeline.len() ==> plan.brackets@[k] == bracket_for(
            times,
            plan.order@,
            #[trigger] timeline[k],
        )
}

/// `plan` carries the charts `charts` onto their common timeline.
pub open spec fn plan_matches(charts: Seq<Seq<u64>>, plan: RebasePlan) -> bool {
    &&& strictly_increasing(plan.time@)
    &&& forall|x: u64| #[trigger] plan.time@.contains(x) <==> on_timeline(charts, x)
    &&& plan.charts.len() == charts.len()
    &&& forall|c: int|
        0 <= c < charts.len() ==> chart_plan_matches(charts[c], plan.time@, #[trigger] plan.charts@[c])
}

/// Plans carrying the charts, given by the times of their points, onto one
/// timeline: the times inside the common range of all charts (from the latest
/// first time to the earliest last time), where each such time falls between
/// two neighbouring points of each chart sorted by time.
/// Fails when that common range is a single instant.
pub fn rebase(series: &Vec<Vec<u64>>) -> (result: Result<RebasePlan, RebaseError>)
    ensures
        result is Err <==> range_start(series.deep_view()) == range_end(series.deep_view()),
        result matches Ok(plan) ==> plan_matches(series.deep_view(), plan),
{
    let ghost charts = series.deep_view();
    let (lo, hi) = common_range(series);
    if lo == hi {
        return Err(RebaseError::ZeroWidthRange);
    }
    let mut orders: Vec<Vec<usize>> = Vec::new();
    let mut time: Vec<u64> = Vec::new();
    let mut c: usize = 0;
    while c < series.len()
        invariant
            c <= series.len(),
            charts == series.deep_view(),
            lo == range_start(charts),
            hi == range_end(charts),
            orders.len() == c,
            forall|d: int| 0 <= d < c ==> is_stable_order(charts[d], #[trigger] orders@[d]@),
            strictly_increasing(time@),
            forall|x: u64|
                #[trigger] time@.contains(x) <==> (lo <= x <= hi && exists|d: int|
                    0 <= d < c && #[trigger] charts[d].contains(x)),
        decreases series.len() - c,
    {
        assert(charts[c as int] == series[c as int]@);
        let order = stable_order(&series[c]);
        let inside = times_in_range(&series[c], &order, lo, hi);
        let merged = merge_union(&time, &inside);
        proof {
            assert forall|x: u64|
                #[trigger] merged@.contains(x) <==> (lo <= x <= hi && exists|d: int|
                    0 <= d < c + 1 && #[trigger] charts[d].contains(x)) by {
                if lo <= x <= hi && exists|d: int| 0 <= d < c + 1 && #[trigger] charts[d].contains(x) {
                    let d = choose|d: int| 0 <= d < c + 1 && #[trigger] charts[d].contains(x);
                    if d < c {
                        assert(time@.contains(x));
                    } else {
                        assert(inside@.contains(x));
                    }
                }
            }
        }
        time = merged;
        orders.push(order);
        c = c + 1;
    }
    let mut plans: Vec<ChartPlan> = Vec::new();
    let mut c: usize = 0;
    while c < series.len()
        invariant
            c <= series.len(),
            charts == series.deep_view(),
            orders.len() == series.len(),
            forall|d: int| 0 <= d < series.len() ==> is_stable_order(charts[d], #[trigger] orders@[d]@),
            strictly_increasing(time@),
            plans.len() == c,
            forall|d: int| 0 <= d < c ==> chart_plan_matches(charts[d], time@, #[trigger] plans@[d]),
        decreases series.len() - c,
    {
        assert(charts[c as int] == series[c as int]@);
        let order = orders[c].clone();
        assert(order@ =~= orders@[c as int]@);
        let brackets = chart_brackets(&series[c], &order, &time);
        plans.push(ChartPlan { order, brackets });
        c = c + 1;
    }
    Ok(RebasePlan { time, charts: plans })
}


proof fn lemma_earliest_latest(times: Seq<u64>)
    ensures
        forall|i: int| 0 <= i < times.len() ==> earliest(times) <= #[trigger] times[i] <= latest(times),
        times.len() > 0 ==> times.contains(earliest(times)) && times.contains(latest(times)),
    decreases times.len(),
{
    if times.len() > 0 {
        let rest = times.drop_last();
        lemma_earliest_latest(rest);
        assert forall|i: int| 0 <= i < times.len() implies earliest(times) <= #[trigger] times[i]
            <= latest(times) by {
            if i < rest.len() {
                assert(rest[i] == times[i]);
            }
        }
        if rest.len() > 0 {
            let a = choose|a: int| 0 <= a < rest.len() && rest[a] == earliest(rest);
            let b = choose|b: int| 0 <= b < rest.len() && rest[b] == latest(rest);
            assert(times[a] == rest[a] && times[b] == rest[b]);
        }
        assert(times[times.len() - 1] == times.last());
    }
}

proof fn lemma_range_within_chart(charts: Seq<Seq<u64>>, c: int)
    requires
        0 <= c < charts.len(),
    ensures
        earliest(charts[c]) <= range_start(charts),
        range_end(charts) <= latest(charts[c]),
    decreases charts.len(),
{
    if c < charts.len() - 1 {
        lemma_range_within_chart(charts.drop_last(), c);
    }
}

proof fn lemma_bracket_exists(st: Seq<u64>, t: u64, from: int)
    requires
        0 <= from < st.len(),
        st[from] <= t <= st[st.len() - 1],
        forall|i: int, j: int| 0 <= i <= j < st.len() ==> st[i] <= st[j],
    ensures
        first_bracket_from(st, t, from) is Some || (from == st.len() - 1 && st[from] == t),
    decreases st.len() - from,
{
    if from + 1 < st.len() && !(st[from] <= t <= st[from + 1]) {
        lemma_bracket_exists(st, t, from + 1);
    }
}

/// Every point of the timeline lies between two neighbouring points of each
/// chart: no rebased value has to fall back to a default, and each bracket
/// spans from its lower point's time, `offset` up to the timeline point and
/// `width` up to its upper point.
pub proof fn lemma_every_point_bracketed(charts: Seq<Seq<u64>>, plan: RebasePlan, c: int, k: int)
    requires
        plan_matches(charts, plan),
        range_start(charts) != range_end(charts),
        0 <= c < charts.len(),
        charts[c].len() <= usize::MAX,
        0 <= k < plan.time.len(),
    ensures
        plan.charts@[c].brackets@[k] matches Some(b) && {
            &&& b.lower < charts[c].len()
            &&& b.upper < charts[c].len()
            &&& b.offset <= b.width
            &&& charts[c][b.lower as int] + b.offset == plan.time@[k]
            &&& charts[c][b.lower as int] + b.width == charts[c][b.upper as int]
        },
{
    let times = charts[c];
    let cp = plan.charts@[c];
    let order = cp.order@;
    let t = plan.time@[k];
    assert(plan.time@.contains(t));
    assert(on_timeline(charts, t));
    lemma_range_within_chart(charts, c);
    lemma_earliest_latest(times);
    assert(chart_plan_matches(times, plan.time@, cp));
    assert(cp.brackets@[k] == bracket_for(times, order, t));
    let st = sorted_times(times, order);
    // the chart has at least two points: one chart with a single point would
    // squeeze the common range to one instant
    assert(times.len() > 0);
    if times.len() == 1 {
        assert(earliest(times) == times[0] && latest(times) == times[0]) by {
            assert(times.drop_last().len() == 0);
        }
        assert(false);
    }
    assert forall|i: int, j: int| 0 <= i <= j < st.len() implies st[i] <= st[j] by {
        if i < j {
            assert(comes_before(times, order[i] as int, order[j] as int));
        }
    }
    let lo_i = choose|a: int| 0 <= a < times.len() && times[a] == earliest(times);
    let hi_i = choose|a: int| 0 <= a < times.len() && times[a] == latest(times);
    assert(order.contains(lo_i as usize));
    assert(order.contains(hi_i as usize));
    let p = choose|p: int| 0 <= p < order.len() && order[p] == lo_i as usize;
    let q = choose|q: int| 0 <= q < order.len() && order[q] == hi_i as usize;
    assert(st[p] == times[order[p] as int]);
    assert(st[q] == times[order[q] as int]);
    assert(st[p] == earliest(times));
    assert(st[q] == latest(times));
    assert(range_start(charts) <= t <= range_end(charts));
    assert(st[0] <= st[p]);
    assert(st[q] <= st[st.len() - 1]);
    assert(st[0] <= t <= st[st.len() - 1]);
    lemma_bracket_exists(st, t, 0);
    lemma_first_bracket_found(st, t, 0);
    let j = first_bracket_from(st, t, 0)->Some_0;
    assert(st[j] == times[order[j] as int]);
    assert(st[j + 1] == times[order[j + 1] as int]);
}


proof fn lemma_bracket_at_own_time(st: Seq<u64>, t: u64, from: int, m: int)
    requires
        0 <= from <= m < st.len(),
        st[m] == t,
        st[from] <= t,
        forall|i: int, j: int| 0 <= i <= j < st.len() ==> st[i] <= st[j],
    ensures
        first_bracket_from(st, t, from) matches Some(j) ==> st[j] == t || st[j + 1] == t,
    decreases st.len() - from,
{
    if from + 1 < st.len() && st[from + 1] < t {
        assert(m != from);
        lemma_bracket_at_own_time(st, t, from + 1, m);
    } else if from + 1 < st.len() && m > from {
        assert(st[from + 1] <= st[m]);
    }
}

/// At a time where a chart has a point, the chart's bracket starts or ends
/// at a point of that time: the rebased value there is a price of the chart
/// itself, not a blend.
pub proof fn lemma_own_times_are_not_blended(charts: Seq<Seq<u64>>, plan: RebasePlan, c: int, k: int)
    requires
        plan_matches(charts, plan),
        range_start(charts) != range_end(charts),
        0 <= c < charts.len(),
        charts[c].len() <= usize::MAX,
        0 <= k < plan.time.len(),
        charts[c].contains(plan.time@[k]),
    ensures
        plan.charts@[c].brackets@[k] matches Some(b) && (b.offset == 0 || b.offset == b.width),
{
    lemma_every_point_bracketed(charts, plan, c, k);
    let times = charts[c];
    let cp = plan.charts@[c];
    let order = cp.order@;
    let t = plan.time@[k];
    assert(chart_plan_matches(times, plan.time@, cp));
    let st = sorted_times(times, order);
    assert forall|i: int, j: int| 0 <= i <= j < st.len() implies st[i] <= st[j] by {
        if i < j {
            assert(comes_before(times, order[i] as int, order[j] as int));
        }
    }
    let a = choose|a: int| 0 <= a < times.len() && times[a] == t;
    assert(order.contains(a as usize));
    let m = choose|m: int| 0 <= m < order.len() && order[m] == a as usize;
    assert(st[m] == t);
    assert(st[0] <= st[m]);
    lemma_bracket_at_own_time(st, t, 0, m);
    lemma_first_bracket_found(st, t, 0);
    let j = first_bracket_from(st, t, 0)->Some_0;
    assert(st[j] == times[order[j] as int]);
    assert(st[j + 1] == times[order[j + 1] as int]);
}

/// Rebasing a single chart that spans more than an instant keeps exactly its
/// own times, each once and in increasing order.
pub proof fn lemma_single_chart_keeps_its_times(times: Seq<u64>, plan: RebasePlan)
    requires
        plan_matches(seq![times], plan),
        range_start(seq![times]) != range_end(seq![times]),
    ensures
        strictly_increasing(plan.time@),
        forall|x: u64| plan.time@.contains(x) <==> times.contains(x),
{
    let charts = seq![times];
    assert(charts.drop_last() =~= Seq::<Seq<u64>>::empty());
    assert(charts.last() == times);
    assert(charts.len() == 1);
    assert(range_start(charts.drop_last()) == 0);
    assert(range_end(charts.drop_last()) == u64::MAX);
    assert(range_start(charts) == earliest(times));
    assert(range_end(charts) == latest(times));
    lemma_earliest_latest(times);
    assert forall|x: u64| plan.time@.contains(x) <==> times.contains(x) by {
        if times.contains(x) {
            let i = choose|i: int| 0 <= i < times.len() && times[i] == x;
            assert(charts[0].contains(x));
            assert(on_timeline(charts, x));
        }
        if plan.time@.contains(x) {
            assert(on_timeline(charts, x));
            let c = choose|c: int| 0 <= c < charts.len() && #[trigger] charts[c].contains(x);
            assert(c == 0);
        }
    }
}


/// Two lists of distinct times hold the same times, perhaps in another order.
pub open spec fn same_points(t1: Seq<u64>, t2: Seq<u64>) -> bool {
    &&& t1.no_duplicates()
    &&& t2.no_duplicates()
    &&& forall|x: u64| t1.contains(x) <==> t2.contains(x)
}

/// Some position of `pi` holds `c`.
pub open spec fn reached(pi: Seq<int>, c: int) -> bool {
    exists|i: int| 0 <= i < pi.len() && #[trigger] pi[i] == c
}

/// `charts2` holds the charts of `charts` in another order, chart `i`
/// becoming chart `pi[i]`, each with its points perhaps in another order.
pub open spec fn reorders(charts: Seq<Seq<u64>>, charts2: Seq<Seq<u64>>, pi: Seq<int>) -> bool {
    &&& charts.len() == charts2.len() == pi.len()
    &&& forall|i: int| 0 <= i < pi.len() ==> 0 <= #[trigger] pi[i] < pi.len()
    &&& forall|i: int, j: int| 0 <= i < j < pi.len() ==> pi[i] != pi[j]
    &&& forall|c: int| 0 <= c < pi.len() ==> #[trigger] reached(pi, c)
    &&& forall|i: int| 0 <= i < pi.len() ==> same_points(charts[i], charts2[#[trigger] pi[i]])
}

/// Two brackets stand on points of the same times, with the same offset and
/// width, or neither chart has a bracket.
pub open spec fn same_bracket_points(
    t1: Seq<u64>,
    b1: Option<Bracket>,
    t2: Seq<u64>,
    b2: Option<Bracket>,
) -> bool {
    match (b1, b2) {
        (Some(x), Some(y)) => {
            &&& t1[x.lower as int] == t2[y.lower as int]
            &&& t1[x.upper as int] == t2[y.upper as int]
            &&& x.offset == y.offset
            &&& x.width == y.width
        },
        (None, None) => true,
        _ => false,
    }
}

proof fn lemma_span_by_points(t1: Seq<u64>, t2: Seq<u64>)
    requires
        forall|x: u64| t1.contains(x) <==> t2.contains(x),
    ensures
        earliest(t1) == earliest(t2),
        latest(t1) == latest(t2),
{
    lemma_earliest_latest(t1);
    lemma_earliest_latest(t2);
    if t1.len() > 0 && t2.len() == 0 {
        assert(t1.contains(t1[0]));
    } else if t1.len() == 0 && t2.len() > 0 {
        assert(t2.contains(t2[0]));
    } else if t1.len() > 0 {
        let a = choose|a: int| 0 <= a < t1.len() && t1[a] == earliest(t1);
        let b = choose|b: int| 0 <= b < t2.len() && t2[b] == earliest(t2);
        assert(t1.contains(t1[a]));
        assert(t2.contains(t2[b]));
        let a2 = choose|i: int| 0 <= i < t2.len() && t2[i] == t1[a];
        let b2 = choose|i: int| 0 <= i < t1.len() && t1[i] == t2[b];
        assert(earliest(t2) <= t2[a2]);
        assert(earliest(t1) <= t1[b2]);
        let c = choose|c: int| 0 <= c < t1.len() && t1[c] == latest(t1);
        let d = choose|d: int| 0 <= d < t2.len() && t2[d] == latest(t2);
        assert(t1.contains(t1[c]));
        assert(t2.contains(t2[d]));
        let c2 = choose|i: int| 0 <= i < t2.len() && t2[i] == t1[c];
        let d2 = choose|i: int| 0 <= i < t1.len() && t1[i] == t2[d];
        assert(t2[c2] <= latest(t2));
        assert(t1[d2] <= latest(t1));
    }
}

proof fn lemma_range_attained(charts: Seq<Seq<u64>>)
    ensures
        range_start(charts) == 0 || exists|c: int|
            0 <= c < charts.len() && range_start(charts) == earliest(#[trigger] charts[c]),
        range_end(charts) == u64::MAX || exists|c: int|
            0 <= c < charts.len() && range_end(charts) == latest(#[trigger] charts[c]),
    decreases charts.len(),
{
    if charts.len() > 0 {
        let rest = charts.drop_last();
        lemma_range_attained(rest);
        let last = charts.len() - 1;
        assert(charts[last] == charts.last());
        if range_start(charts) != earliest(charts[last]) && range_start(charts) != 0 {
            let c = choose|c: int| 0 <= c < rest.len() && range_start(rest) == earliest(#[trigger] rest[c]);
            assert(rest[c] == charts[c]);
        }
        if range_end(charts) != latest(charts[last]) && range_end(charts) != u64::MAX {
            let c = choose|c: int| 0 <= c < rest.len() && range_end(rest) == latest(#[trigger] rest[c]);
            assert(rest[c] == charts[c]);
        }
    }
}

proof fn lemma_range_by_reorder(charts: Seq<Seq<u64>>, charts2: Seq<Seq<u64>>, pi: Seq<int>)
    requires
        reorders(charts, charts2, pi),
    ensures
        range_start(charts) == range_start(charts2),
        range_end(charts) == range_end(charts2),
{
    lemma_range_attained(charts);
    lemma_range_attained(charts2);
    assert forall|i: int| 0 <= i < charts.len() implies earliest(charts[i]) == earliest(
        charts2[pi[i]],
    ) && latest(charts[i]) == latest(charts2[pi[i]]) by {
        assert(same_points(charts[i], charts2[pi[i]]));
        lemma_span_by_points(charts[i], charts2[pi[i]]);
    }
    if range_start(charts) != 0 {
        let c = choose|c: int| 0 <= c < charts.len() && range_start(charts) == earliest(#[trigger] charts[c]);
        lemma_range_within_chart(charts2, pi[c]);
    }
    if range_start(charts2) != 0 {
        let c2 = choose|c: int| 0 <= c < charts2.len() && range_start(charts2) == earliest(#[trigger] charts2[c]);
        assert(reached(pi, c2));
        let i = choose|i: int| 0 <= i < pi.len() && #[trigger] pi[i] == c2;
        lemma_range_within_chart(charts, i);
    }
    if range_end(charts) != u64::MAX {
        let c = choose|c: int| 0 <= c < charts.len() && range_end(charts) == latest(#[trigger] charts[c]);
        lemma_range_within_chart(charts2, pi[c]);
    }
    if range_end(charts2) != u64::MAX {
        let c2 = choose|c: int| 0 <= c < charts2.len() && range_end(charts2) == latest(#[trigger] charts2[c]);
        assert(reached(pi, c2));
        let i = choose|i: int| 0 <= i < pi.len() && #[trigger] pi[i] == c2;
        lemma_range_within_chart(charts, i);
    }
}

/// Reordering the charts, or the points inside them, does not change whether
/// rebasing fails.
pub proof fn lemma_rebase_failure_ignores_input_order(
    charts: Seq<Seq<u64>>,
    charts2: Seq<Seq<u64>>,
    pi: Seq<int>,
)
    requires
        reorders(charts, charts2, pi),
    ensures
        (range_start(charts) == range_end(charts)) == (range_start(charts2) == range_end(charts2)),
{
    lemma_range_by_reorder(charts, charts2, pi);
}

proof fn lemma_increasing_by_elements(s1: Seq<u64>, s2: Seq<u64>, n: int)
    requires
        strictly_increasing(s1),
        strictly_increasing(s2),
        forall|x: u64| s1.contains(x) <==> s2.contains(x),
        0 <= n <= s1.len(),
        n <= s2.len(),
    ensures
        forall|k: int| 0 <= k < n ==> s1[k] == s2[k],
    decreases n,
{
    if n > 0 {
        let i = n - 1;
        lemma_increasing_by_elements(s1, s2, i);
        let p = s1[i];
        let q = s2[i];
        if p != q {
            assert(s2.contains(q));
            let j1 = choose|j: int| 0 <= j < s1.len() && s1[j] == q;
            if j1 < i {
                assert(s2[j1] == q);
            }
            assert(s1.contains(p));
            let j2 = choose|j: int| 0 <= j < s2.len() && s2[j] == p;
            if j2 < i {
                assert(s1[j2] == p);
            }
            assert(p < q);
            assert(q < p);
        }
    }
}

proof fn lemma_increasing_equal(s1: Seq<u64>, s2: Seq<u64>)
    requires
        strictly_increasing(s1),
        strictly_increasing(s2),
        forall|x: u64| s1.contains(x) <==> s2.contains(x),
    ensures
        s1 == s2,
{
    if s1.len() <= s2.len() {
        lemma_increasing_by_elements(s1, s2, s1.len() as int);
        if s1.len() < s2.len() {
            let x = s2[s1.len() as int];
            assert(s2.contains(x));
            let j = choose|j: int| 0 <= j < s1.len() && s1[j] == x;
            assert(s2[j] == x);
        }
    } else {
        lemma_increasing_by_elements(s1, s2, s2.len() as int);
        let x = s1[s2.len() as int];
        assert(s1.contains(x));
        let j = choose|j: int| 0 <= j < s2.len() && s2[j] == x;
        assert(s1[j] == x);
    }
    assert(s1 =~= s2);
}

proof fn lemma_sorted_times_of_distinct(times: Seq<u64>, order: Seq<usize>)
    requires
        is_stable_order(times, order),
        times.no_duplicates(),
        times.len() <= usize::MAX,
    ensures
        strictly_increasing(sorted_times(times, order)),
        forall|x: u64| sorted_times(times, order).contains(x) <==> times.contains(x),
{
    let st = sorted_times(times, order);
    assert forall|i: int, j: int| 0 <= i < j < st.len() implies st[i] < st[j] by {
        assert(comes_before(times, order[i] as int, order[j] as int));
        if times[order[i] as int] == times[order[j] as int] {
            assert(order[i] == order[j]);
        }
    }
    assert forall|x: u64| st.contains(x) <==> times.contains(x) by {
        if st.contains(x) {
            let i = choose|i: int| 0 <= i < st.len() && st[i] == x;
            assert(times[order[i] as int] == x);
        }
        if times.contains(x) {
            let m = choose|m: int| 0 <= m < times.len() && times[m] == x;
            assert(order.contains((m as usize)));
            let i = choose|i: int| 0 <= i < order.len() && order[i] == m as usize;
            assert(st[i] == x);
        }
    }
}

/// Reordering the charts, or the points inside them (charts without repeated
/// times), leaves the timeline as it is and only moves the chart plans: the
/// bracket of each timeline point in a chart stands on points of the same
/// times, with the same offset and width, so that with each price moved along
/// with its point the rebased values only change columns.
pub proof fn lemma_rebase_ignores_input_order(
    charts: Seq<Seq<u64>>,
    charts2: Seq<Seq<u64>>,
    pi: Seq<int>,
    plan: RebasePlan,
    plan2: RebasePlan,
)
    requires
        reorders(charts, charts2, pi),
        forall|c: int| 0 <= c < charts.len() ==> #[trigger] charts[c].len() <= usize::MAX,
        forall|c: int| 0 <= c < charts2.len() ==> #[trigger] charts2[c].len() <= usize::MAX,
        plan_matches(charts, plan),
        plan_matches(charts2, plan2),
    ensures
        plan.time@ == plan2.time@,
        forall|i: int, k: int|
            0 <= i < charts.len() && 0 <= k < plan.time.len() ==> same_bracket_points(
                charts[i],
                #[trigger] plan.charts@[i].brackets@[k],
                charts2[pi[i]],
                plan2.charts@[pi[i]].brackets@[k],
            ),
{
    lemma_range_by_reorder(charts, charts2, pi);
    assert forall|x: u64| plan.time@.contains(x) <==> plan2.time@.contains(x) by {
        if on_timeline(charts, x) {
            let c = choose|c: int| 0 <= c < charts.len() && #[trigger] charts[c].contains(x);
            assert(same_points(charts[c], charts2[pi[c]]));
            assert(charts2[pi[c]].contains(x));
            assert(on_timeline(charts2, x));
        }
        if on_timeline(charts2, x) {
            let c2 = choose|c: int| 0 <= c < charts2.len() && #[trigger] charts2[c].contains(x);
            assert(reached(pi, c2));
        let i = choose|i: int| 0 <= i < pi.len() && #[trigger] pi[i] == c2;
            assert(same_points(charts[i], charts2[pi[i]]));
            assert(charts[i].contains(x));
            assert(on_timeline(charts, x));
        }
    }
    lemma_increasing_equal(plan.time@, plan2.time@);
    assert forall|i: int, k: int|
        0 <= i < charts.len() && 0 <= k < plan.time.len() implies same_bracket_points(
        charts[i],
        #[trigger] plan.charts@[i].brackets@[k],
        charts2[pi[i]],
        plan2.charts@[pi[i]].brackets@[k],
    ) by {
        let t1 = charts[i];
        let t2 = charts2[pi[i]];
        let c1 = plan.charts@[i];
        let c2 = plan2.charts@[pi[i]];
        assert(same_points(t1, t2));
        assert(chart_plan_matches(t1, plan.time@, c1));
        assert(chart_plan_matches(t2, plan2.time@, c2));
        assert(t2.len() <= usize::MAX);
        lemma_sorted_times_of_distinct(t1, c1.order@);
        lemma_sorted_times_of_distinct(t2, c2.order@);
        let st1 = sorted_times(t1, c1.order@);
        let st2 = sorted_times(t2, c2.order@);
        assert forall|x: u64| st1.contains(x) <==> st2.contains(x) by {
            assert(st1.contains(x) <==> t1.contains(x));
            assert(st2.contains(x) <==> t2.contains(x));
        }
        lemma_increasing_equal(st1, st2);
        let t = plan.time@[k];
        assert(plan2.time@[k] == t);
        assert(c1.brackets@[k] == bracket_for(t1, c1.order@, t));
        assert(c2.brackets@[k] == bracket_for(t2, c2.order@, t));
        lemma_first_bracket_found(st1, t, 0);
        if first_bracket_from(st1, t, 0) is Some {
            let j = first_bracket_from(st1, t, 0)->Some_0;
            assert(st1[j] == t1[c1.order@[j] as int]);
            assert(st1[j + 1] == t1[c1.order@[j + 1] as int]);
            assert(st2[j] == t2[c2.order@[j] as int]);
            assert(st2[j + 1] == t2[c2.order@[j + 1] as int]);
        }
    }
}


/// Every bracket is a pair of neighbouring points of the chart sorted by
/// time (no point of the chart sorts between them) that encloses the timeline
/// point, with the offset and width measured from its lower point; it is the
/// first such pair in that order, and a point without a bracket is enclosed by
/// no such pair.
pub proof fn lemma_brackets_are_neighbours(charts: Seq<Seq<u64>>, plan: RebasePlan, c: int, k: int)
    requires
        plan_matches(charts, plan),
        0 <= c < charts.len(),
        0 <= k < plan.time.len(),
    ensures
        ({
            let times = charts[c];
            let order = plan.charts@[c].order@;
            let t = plan.time@[k];
            match plan.charts@[c].brackets@[k] {
                Some(b) => exists|j: int|
                    #![trigger order[j]]
                    0 <= j && j + 1 < order.len() && order[j] == b.lower && order[j + 1] == b.upper
                        && times[b.lower as int] <= t <= times[b.upper as int] && b.offset == t
                        - times[b.lower as int] && b.width == times[b.upper as int]
                        - times[b.lower as int] && forall|i: int|
                        0 <= i < j ==> !(times[order[i] as int] <= t <= times[#[trigger] order[i
                            + 1] as int]),
                None => forall|i: int|
                    0 <= i && i + 1 < order.len() ==> !(times[order[i] as int] <= t
                        <= times[#[trigger] order[i + 1] as int]),
            }
        }),
{
    let times = charts[c];
    let cp = plan.charts@[c];
    let order = cp.order@;
    let t = plan.time@[k];
    assert(chart_plan_matches(times, plan.time@, cp));
    assert(cp.brackets@[k] == bracket_for(times, order, t));
    let st = sorted_times(times, order);
    lemma_first_bracket_found(st, t, 0);
    lemma_first_bracket_none_before(st, t, 0);
    match first_bracket_from(st, t, 0) {
        Some(j) => {
            assert(st[j] == times[order[j] as int]);
            assert(st[j + 1] == times[order[j + 1] as int]);
            assert forall|i: int| 0 <= i < j implies !(times[order[i] as int] <= t
                <= times[#[trigger] order[i + 1] as int]) by {
                assert(st[i] == times[order[i] as int]);
                assert(st[i + 1] == times[order[i + 1] as int]);
            }
        },
        None => {
            assert forall|i: int| 0 <= i && i + 1 < order.len() implies !(times[order[i] as int]
                <= t <= times[#[trigger] order[i + 1] as int]) by {
                assert(st[i] == times[order[i] as int]);
                assert(st[i + 1] == times[order[i + 1] as int]);
            }
        },
    }
}

proof fn lemma_first_bracket_none_before(st: Seq<u64>, t: u64, from: int)
    requires
        0 <= from,
    ensures
        match first_bracket_from(st, t, from) {
            Some(j) => forall|i: int| from <= i < j ==> !(#[trigger] st[i] <= t <= st[i + 1]),
            None => forall|i: int|
                from <= i && i + 1 < st.len() ==> !(#[trigger] st[i] <= t <= st[i + 1]),
        },
    decreases st.len() - from,
{
    if from + 1 < st.len() && !(st[from] <= t <= st[from + 1]) {
        lemma_first_bracket_none_before(st, t, from + 1);
    }
}

} // verus!
