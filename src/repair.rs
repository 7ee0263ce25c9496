use vstd::prelude::*;
use vstd::string::StringExecFns;

use crate::dfg::{dfg_of, ActivityProjectionDFG};
use crate::projection::{log_in_range, EventLogActivityProjection, LogView, SILENT_ACT_PREFIX};

verus! {

/// The decimal digit `d`.
pub open spec fn digit_char(d: int) -> char {
    if d == 0 {
        '0'
    } else if d == 1 {
        '1'
    } else if d == 2 {
        '2'
    } else if d == 3 {
        '3'
    } else if d == 4 {
        '4'
    } else if d == 5 {
        '5'
    } else if d == 6 {
        '6'
    } else if d == 7 {
        '7'
    } else if d == 8 {
        '8'
    } else {
        '9'
    }
}

/// The decimal writing of `k`, without leading zeros.
pub open spec fn decimal(k: nat) -> Seq<char>
    decreases k,
{
    if k < 10 {
        seq![digit_char(k as int)]
    } else {
        decimal(k / 10) + seq![digit_char((k % 10) as int)]
    }
}

/// Name of the silent activity with index `k`.
pub open spec fn silent_name(k: nat) -> Seq<char> {
    SILENT_ACT_PREFIX@ + decimal(k)
}

/// The one-character text of the digit `d`.
fn digit_text(d: usize) -> (r: &'static str)
    requires
        d < 10,
    ensures
        r@ == seq![digit_char(d as int)],
{
    proof {
        reveal_strlit("0");
        reveal_strlit("1");
        reveal_strlit("2");
        reveal_strlit("3");
        reveal_strlit("4");
        reveal_strlit("5");
        reveal_strlit("6");
        reveal_strlit("7");
        reveal_strlit("8");
        reveal_strlit("9");
    }
    if d == 0 {
        "0"
    } else if d == 1 {
        "1"
    } else if d == 2 {
        "2"
    } else if d == 3 {
        "3"
    } else if d == 4 {
        "4"
    } else if d == 5 {
        "5"
    } else if d == 6 {
        "6"
    } else if d == 7 {
        "7"
    } else if d == 8 {
        "8"
    } else {
        "9"
    }
}

/// Appends the decimal writing of `k` to `s`.
fn append_decimal(s: &mut String, k: usize)
    ensures
        final(s)@ == old(s)@ + decimal(k as nat),
    decreases k,
{
    if k >= 10 {
        append_decimal(s, k / 10);
    }
    s.append(digit_text(k % 10));
}

/// The name of the silent activity with index `k`.
fn make_silent_name(k: usize) -> (r: String)
    ensures
        r@ == silent_name(k as nat),
{
    let mut s = String::from_str(SILENT_ACT_PREFIX);
    append_decimal(&mut s, k);
    s
}

/// `x` sits on a path `u -> x -> v` that the edge `u -> v` bypasses, and `x`
/// runs in sequence with both ends (no edge back from `x` to `u` or from `v` to `x`).
pub open spec fn bypass(m: Seq<Seq<u64>>, n: int, u: int, v: int, x: int) -> bool {
    &&& 0 <= x < n
    &&& x != u
    &&& x != v
    &&& m[u][x] > 0
    &&& m[x][v] > 0
    &&& m[x][u] == 0
    &&& m[v][x] == 0
}

/// The edge `u -> v` gets a silent activity: for loops, when it is a
/// self-loop or the weaker direction of a two-way edge; for skips, when it
/// bypasses some activity. Either way its weight must reach `thr`: an edge
/// whose weight equals the threshold counts, as ties do in filtering.
pub open spec fn marks(loops: bool, m: Seq<Seq<u64>>, n: int, thr: int, u: int, v: int) -> bool {
    &&& m[u][v] > 0
    &&& m[u][v] >= thr
    &&& if loops {
        u == v || m[v][u] > m[u][v]
    } else {
        u != v && exists|x: int| bypass(m, n, u, v, x)
    }
}

/// The marked edges `(u, y)` with `y < k`, in order.
pub open spec fn row_marked(loops: bool, m: Seq<Seq<u64>>, n: int, thr: int, u: int, k: int) -> Seq<
    (usize, usize),
>
    decreases k,
{
    if k <= 0 {
        seq![]
    } else {
        let p = row_marked(loops, m, n, thr, u, k - 1);
        if marks(loops, m, n, thr, u, k - 1) {
            p.push((u as usize, (k - 1) as usize))
        } else {
            p
        }
    }
}

/// The marked edges leaving the first `r` activities, row by row.
pub open spec fn marked_pairs(loops: bool, m: Seq<Seq<u64>>, n: int, thr: int, r: int) -> Seq<(usize, usize)>
    decreases r,
{
    if r <= 0 {
        seq![]
    } else {
        marked_pairs(loops, m, n, thr, r - 1) + row_marked(loops, m, n, thr, r - 1, n)
    }
}

/// Position of the first `(a, b)` in `ps`, or -1.
pub open spec fn pair_index(ps: Seq<(usize, usize)>, a: usize, b: usize) -> int
    decreases ps.len(),
{
    if ps.len() == 0 {
        -1
    } else {
        let p = pair_index(ps.drop_last(), a, b);
        if p >= 0 {
            p
        } else if ps.last() == (a, b) {
            ps.len() - 1
        } else {
            -1
        }
    }
}

/// `t` with the silent activity `base + k` inserted between every two
/// neighbours that form the pair `ps[k]`.
pub open spec fn repaired_trace(t: Seq<usize>, ps: Seq<(usize, usize)>, base: int) -> Seq<usize>
    decreases t.len(),
{
    if t.len() <= 1 {
        t
    } else {
        let pre = repaired_trace(t.drop_last(), ps, base);
        let k = pair_index(ps, t[t.len() - 2], t[t.len() - 1]);
        if k >= 0 {
            pre.push((base + k) as usize).push(t.last())
        } else {
            pre.push(t.last())
        }
    }
}

pub open spec fn repaired_log(log: LogView, ps: Seq<(usize, usize)>, base: int) -> LogView {
    log.map_values(|p: (Seq<usize>, u64)| (repaired_trace(p.0, ps, base), p.1))
}

/// Names of the silent activities `base .. base + cnt`.
pub open spec fn silent_names(base: int, cnt: int) -> Seq<Seq<char>> {
    Seq::new(cnt as nat, |k: int| silent_name((base + k) as nat))
}

/// The projection after one repair pass over the edges `ps`.
pub open spec fn repaired_projection(
    names: Seq<Seq<char>>,
    log: LogView,
    ps: Seq<(usize, usize)>,
) -> (Seq<Seq<char>>, LogView) {
    (names + silent_names(names.len() as int, ps.len() as int), repaired_log(log, ps, names.len() as int))
}

pub proof fn lemma_pair_index_range(ps: Seq<(usize, usize)>, a: usize, b: usize)
    ensures
        -1 <= pair_index(ps, a, b) < ps.len(),
        pair_index(ps, a, b) >= 0 ==> ps[pair_index(ps, a, b)] == (a, b),
    decreases ps.len(),
{
    if ps.len() > 0 {
        lemma_pair_index_range(ps.drop_last(), a, b);
    }
}

proof fn lemma_repaired_in_range(t: Seq<usize>, ps: Seq<(usize, usize)>, base: int, bound: int)
    requires
        forall|i: int| 0 <= i < t.len() ==> t[i] < bound,
        0 <= base,
        base + ps.len() <= bound,
    ensures
        forall|i: int| 0 <= i < repaired_trace(t, ps, base).len() ==> repaired_trace(t, ps, base)[i] < bound,
    decreases t.len(),
{
    if t.len() > 1 {
        lemma_repaired_in_range(t.drop_last(), ps, base, bound);
        lemma_pair_index_range(ps, t[t.len() - 2], t[t.len() - 1]);
        let pre = repaired_trace(t.drop_last(), ps, base);
        let k = pair_index(ps, t[t.len() - 2], t[t.len() - 1]);
        let r = repaired_trace(t, ps, base);
        assert(t[t.len() - 1] < bound);
        assert forall|i: int| 0 <= i < r.len() implies r[i] < bound by {
            if i < pre.len() {
                assert(r[i] == pre[i]);
            }
        };
    }
}

impl ActivityProjectionDFG {
    /// Whether the edge `u -> v` is marked for repair (see `marks`).
    fn marks_edge(&self, n: usize, thr: u128, loops: bool, u: usize, v: usize) -> (r: bool)
        requires
            self.wf(n as nat),
            u < n,
            v < n,
        ensures
            r == marks(loops, self.view(), n as int, thr as int, u as int, v as int),
    {
        let ghost m = self.view();
        assert(self.edges@[u as int]@.len() == n);
        assert(self.edges@[v as int]@.len() == n);
        let w = self.edges[u][v];
        assert(m[u as int][v as int] == w);
        assert(m[v as int][u as int] == self.edges@[v as int]@[u as int]);
        if w == 0 || (w as u128) < thr {
            return false;
        }
        if loops {
            return u == v || self.edges[v][u] > w;
        }
        if u == v {
            return false;
        }
        let mut x: usize = 0;
        while x < n
            invariant
                m == self.view(),
                self.wf(n as nat),
                u < n,
                v < n,
                x <= n,
                !loops,
                u != v,
                m[u as int][v as int] == w,
                w > 0,
                w >= thr,
                forall|y: int| 0 <= y < x ==> !bypass(m, n as int, u as int, v as int, y),
            decreases n - x,
        {
            assert(self.edges@[x as int]@.len() == n);
            if x != u && x != v && self.edges[u][x] > 0 && self.edges[x][v] > 0 && self.edges[x][u] == 0
                && self.edges[v][x] == 0 {
                assert(bypass(m, n as int, u as int, v as int, x as int));
                return true;
            }
            x += 1;
        }
        false
    }

    /// The marked edges, row by row.
    fn marked_edges(&self, n: usize, thr: u128, loops: bool) -> (r: Vec<(usize, usize)>)
        requires
            self.wf(n as nat),
        ensures
            r@ == marked_pairs(loops, self.view(), n as int, thr as int, n as int),
    {
        let ghost m = self.view();
        let mut r: Vec<(usize, usize)> = Vec::new();
        let mut u: usize = 0;
        while u < n
            invariant
                m == self.view(),
                self.wf(n as nat),
                u <= n,
                r@ == marked_pairs(loops, m, n as int, thr as int, u as int),
            decreases n - u,
        {
            let mut v: usize = 0;
            while v < n
                invariant
                    m == self.view(),
                    self.wf(n as nat),
                    u < n,
                    v <= n,
                    r@ == marked_pairs(loops, m, n as int, thr as int, u as int) + row_marked(
                        loops,
                        m,
                        n as int,
                        thr as int,
                        u as int,
                        v as int,
                    ),
                decreases n - v,
            {
                if self.marks_edge(n, thr, loops, u, v) {
                    r.push((u, v));
                }
                v += 1;
            }
            u += 1;
        }
        r
    }
}

/// Position of the first `(a, b)` in `ps`, or `None`.
fn find_pair(ps: &Vec<(usize, usize)>, a: usize, b: usize) -> (r: Option<usize>)
    ensures
        match r {
            Some(k) => pair_index(ps@, a, b) == k,
            None => pair_index(ps@, a, b) == -1,
        },
{
    let mut found: Option<usize> = None;
    let mut k: usize = 0;
    while k < ps.len()
        invariant
            k <= ps@.len(),
            match found {
                Some(f) => pair_index(ps@.subrange(0, k as int), a, b) == f,
                None => pair_index(ps@.subrange(0, k as int), a, b) == -1,
            },
        decreases ps@.len() - k,
    {
        assert(ps@.subrange(0, k + 1).drop_last() == ps@.subrange(0, k as int));
        if found.is_none() && ps[k].0 == a && ps[k].1 == b {
            found = Some(k);
        }
        k += 1;
    }
    assert(ps@.subrange(0, ps@.len() as int) == ps@);
    found
}

/// Inserts the silent activity `base + k` between the neighbours `ps[k]` of `t`.
fn repair_trace(t: &Vec<usize>, ps: &Vec<(usize, usize)>, base: usize, bound: usize) -> (r: Vec<usize>)
    requires
        base + ps@.len() <= bound,
    ensures
        r@ == repaired_trace(t@, ps@, base as int),
{
    let mut r: Vec<usize> = Vec::new();
    if t.len() == 0 {
        assert(t@ == repaired_trace(t@, ps@, base as int));
        return r;
    }
    r.push(t[0]);
    assert(t@.subrange(0, 1) == repaired_trace(t@.subrange(0, 1), ps@, base as int));
    assert(r@ == t@.subrange(0, 1));
    let mut j: usize = 1;
    while j < t.len()
        invariant
            base + ps@.len() <= bound,
            1 <= j <= t@.len(),
            r@ == repaired_trace(t@.subrange(0, j as int), ps@, base as int),
        decreases t@.len() - j,
    {
        let ghost s1 = t@.subrange(0, j + 1);
        assert(s1.drop_last() == t@.subrange(0, j as int));
        assert(s1[s1.len() - 2] == t@[j - 1]);
        match find_pair(ps, t[j - 1], t[j]) {
            Some(k) => {
                proof {
                    lemma_pair_index_range(ps@, t@[j - 1], t@[j as int]);
                }
                r.push(base + k);
            },
            None => {},
        }
        r.push(t[j]);
        j += 1;
    }
    assert(t@.subrange(0, t@.len() as int) == t@);
    r
}

/// One repair pass: appends a silent activity for each marked edge and
/// inserts it wherever the edge's two activities directly follow each other.
fn repair_pass(proj: &EventLogActivityProjection, thr: u128, loops: bool) -> (r: (
    EventLogActivityProjection,
    Vec<String>,
))
    requires
        proj.wf(),
    ensures
        r.0.wf(),
        (r.0.names(), r.0.log()) == repaired_projection(
            proj.names(),
            proj.log(),
            marked_pairs(
                loops,
                dfg_of(proj.log(), proj.activities@.len()),
                proj.activities@.len() as int,
                thr as int,
                proj.activities@.len() as int,
            ),
        ),
        r.1@.len() == r.0.activities@.len() - proj.activities@.len(),
        forall|k: int| 0 <= k < r.1@.len() ==> (#[trigger] r.1@[k])@ == r.0.names()[proj.activities@.len() + k],
{
    let n = proj.activities.len();
    let dfg = ActivityProjectionDFG::from_event_log_projection(proj);
    let ps = dfg.marked_edges(n, thr, loops);
    let mut activities: Vec<String> = Vec::new();
    let mut added: Vec<String> = Vec::new();
    let mut i: usize = 0;
    while i < n
        invariant
            n == proj.activities@.len(),
            i <= n,
            activities@.len() == i,
            forall|k: int| 0 <= k < i ==> (#[trigger] activities@[k])@ == proj.names()[k],
        decreases n - i,
    {
        activities.push(proj.activities[i].clone());
        i += 1;
    }
    let mut k: usize = 0;
    while k < ps.len()
        invariant
            n == proj.activities@.len(),
            k <= ps@.len(),
            activities@.len() == n + k,
            added@.len() == k,
            forall|q: int| 0 <= q < n ==> (#[trigger] activities@[q])@ == proj.names()[q],
            forall|q: int| 0 <= q < k ==> (#[trigger] activities@[n + q])@ == silent_name((n + q) as nat),
            forall|q: int| 0 <= q < k ==> (#[trigger] added@[q])@ == silent_name((n + q) as nat),
        decreases ps@.len() - k,
    {
        let name = make_silent_name(activities.len());
        activities.push(name.clone());
        added.push(name);
        k += 1;
    }
    let bound = activities.len();
    let mut traces: Vec<(Vec<usize>, u64)> = Vec::new();
    let mut i: usize = 0;
    while i < proj.traces.len()
        invariant
            n == proj.activities@.len(),
            bound == n + ps@.len(),
            proj.wf(),
            i <= proj.traces@.len(),
            traces@.len() == i,
            forall|q: int|
                0 <= q < i ==> (#[trigger] traces@[q]).0@ == repaired_trace(proj.log()[q].0, ps@, n as int)
                    && traces@[q].1 == proj.log()[q].1,
        decreases proj.traces@.len() - i,
    {
        let nt = repair_trace(&proj.traces[i].0, &ps, n, bound);
        traces.push((nt, proj.traces[i].1));
        i += 1;
    }
    let r = EventLogActivityProjection { activities, traces };
    let ghost want = repaired_projection(proj.names(), proj.log(), ps@);
    assert(r.names() =~= want.0);
    assert(r.log() =~= want.1);
    assert forall|a: int, b: int| 0 <= a < r.log().len() && 0 <= b < r.log()[a].0.len() implies (#[trigger] r.log()[
        a
    ].0[b]) < bound by {
        let t = proj.log()[a].0;
        assert forall|i: int| 0 <= i < t.len() implies t[i] < bound by {
            assert(proj.log()[a].0[i] < n);
        };
        lemma_repaired_in_range(t, ps@, n as int, bound as int);
    };
    (r, added)
}

/// Loop repair: every self-loop, and the weaker direction of every two-way
/// edge, whose weight reaches `thr` gets a silent activity that closes the
/// loop. Returns the repaired projection and the names of the added activities.
pub fn add_artificial_acts_for_loops(proj: &EventLogActivityProjection, thr: u128) -> (r: (
    EventLogActivityProjection,
    Vec<String>,
))
    requires
        proj.wf(),
    ensures
        r.0.wf(),
        (r.0.names(), r.0.log()) == repaired_projection(
            proj.names(),
            proj.log(),
            marked_pairs(
                true,
                dfg_of(proj.log(), proj.activities@.len()),
                proj.activities@.len() as int,
                thr as int,
                proj.activities@.len() as int,
            ),
        ),
        r.1@.len() == r.0.activities@.len() - proj.activities@.len(),
        forall|k: int| 0 <= k < r.1@.len() ==> (#[trigger] r.1@[k])@ == r.0.names()[proj.activities@.len() + k],
{
    repair_pass(proj, thr, true)
}

/// Skip repair: every edge `u -> v` whose weight reaches `thr` and that
/// bypasses an activity running in sequence with both ends gets a silent
/// activity on the bypass. Returns the repaired projection and the names of
/// the added activities.
pub fn add_artificial_acts_for_skips(proj: &EventLogActivityProjection, thr: u128) -> (r: (
    EventLogActivityProjection,
    Vec<String>,
))
    requires
        proj.wf(),
    ensures
        r.0.wf(),
        (r.0.names(), r.0.log()) == repaired_projection(
            proj.names(),
            proj.log(),
            marked_pairs(
                false,
                dfg_of(proj.log(), proj.activities@.len()),
                proj.activities@.len() as int,
                thr as int,
                proj.activities@.len() as int,
            ),
        ),
        r.1@.len() == r.0.activities@.len() - proj.activities@.len(),
        forall|k: int| 0 <= k < r.1@.len() ==> (#[trigger] r.1@[k])@ == r.0.names()[proj.activities@.len() + k],
{
    repair_pass(proj, thr, false)
}

} // verus!
