use vstd::prelude::*;

use crate::candidates::{cand_view, CandidateView};
use crate::pruning::views;

verus! {

/// Lexicographic order on sequences of activity indices.
pub open spec fn seq_lt(a: Seq<usize>, b: Seq<usize>) -> bool
    decreases a.len(),
{
    if a.len() == 0 {
        b.len() > 0
    } else if b.len() == 0 {
        false
    } else if a[0] != b[0] {
        a[0] < b[0]
    } else {
        seq_lt(a.drop_first(), b.drop_first())
    }
}

/// Candidates ordered by their input side, then by their output side.
pub open spec fn cand_lt(x: CandidateView, y: CandidateView) -> bool {
    seq_lt(x.0, y.0) || (x.0 == y.0 && seq_lt(x.1, y.1))
}

proof fn lemma_seq_lt_irreflexive(a: Seq<usize>)
    ensures
        !seq_lt(a, a),
    decreases a.len(),
{
    if a.len() > 0 {
        lemma_seq_lt_irreflexive(a.drop_first());
    }
}

proof fn lemma_seq_lt_transitive(a: Seq<usize>, b: Seq<usize>, c: Seq<usize>)
    requires
        seq_lt(a, b),
        seq_lt(b, c),
    ensures
        seq_lt(a, c),
    decreases a.len(),
{
    if a.len() > 0 && b.len() > 0 && c.len() > 0 && a[0] == b[0] && b[0] == c[0] {
        lemma_seq_lt_transitive(a.drop_first(), b.drop_first(), c.drop_first());
    }
}

proof fn lemma_cand_lt_irreflexive(x: CandidateView)
    ensures
        !cand_lt(x, x),
{
    lemma_seq_lt_irreflexive(x.0);
    lemma_seq_lt_irreflexive(x.1);
}

proof fn lemma_cand_lt_transitive(x: CandidateView, y: CandidateView, z: CandidateView)
    requires
        cand_lt(x, y),
        cand_lt(y, z),
    ensures
        cand_lt(x, z),
{
    if seq_lt(x.0, y.0) && seq_lt(y.0, z.0) {
        lemma_seq_lt_transitive(x.0, y.0, z.0);
    } else if seq_lt(x.1, y.1) && seq_lt(y.1, z.1) && x.0 == y.0 && y.0 == z.0 {
        lemma_seq_lt_transitive(x.1, y.1, z.1);
    }
}

fn vec_lt(a: &Vec<usize>, b: &Vec<usize>) -> (r: bool)
    ensures
        r == seq_lt(a@, b@),
{
    let mut i: usize = 0;
    assert(a@.subrange(0, a@.len() as int) == a@);
    assert(b@.subrange(0, b@.len() as int) == b@);
    while i < a.len() && i < b.len()
        invariant
            i <= a@.len(),
            i <= b@.len(),
            a@.subrange(0, i as int) == b@.subrange(0, i as int),
            seq_lt(a@, b@) == seq_lt(a@.subrange(i as int, a@.len() as int), b@.subrange(i as int, b@.len() as int)),
        decreases a@.len() - i,
    {
        if a[i] != b[i] {
            return a[i] < b[i];
        }
        let ghost sa = a@.subrange(i as int, a@.len() as int);
        let ghost sb = b@.subrange(i as int, b@.len() as int);
        assert(sa.drop_first() == a@.subrange(i + 1, a@.len() as int));
        assert(sb.drop_first() == b@.subrange(i + 1, b@.len() as int));
        assert(a@.subrange(0, i + 1) == a@.subrange(0, i as int).push(a@[i as int]));
        assert(b@.subrange(0, i + 1) == b@.subrange(0, i as int).push(b@[i as int]));
        i += 1;
    }
    i == a.len() && i < b.len()
}

fn vec_eq(a: &Vec<usize>, b: &Vec<usize>) -> (r: bool)
    ensures
        r == (a@ == b@),
{
    if a.len() != b.len() {
        return false;
    }
    let mut i: usize = 0;
    while i < a.len()
        invariant
            a@.len() == b@.len(),
            i <= a@.len(),
            forall|q: int| 0 <= q < i ==> a@[q] == b@[q],
        decreases a@.len() - i,
    {
        if a[i] != b[i] {
            return false;
        }
        i += 1;
    }
    assert(a@ =~= b@);
    true
}

fn candidate_lt(x: &(Vec<usize>, Vec<usize>), y: &(Vec<usize>, Vec<usize>)) -> (r: bool)
    ensures
        r == cand_lt(cand_view(*x), cand_view(*y)),
{
    vec_lt(&x.0, &y.0) || (vec_eq(&x.0, &y.0) && vec_lt(&x.1, &y.1))
}

/// Each candidate comes before the next one: sorted, without repeats.
pub open spec fn strictly_sorted(cs: Seq<CandidateView>) -> bool {
    forall|i: int, j: int| 0 <= i < j < cs.len() ==> cand_lt(cs[i], cs[j])
}

proof fn lemma_seq_lt_total(a: Seq<usize>, b: Seq<usize>)
    ensures
        seq_lt(a, b) || seq_lt(b, a) || a == b,
    decreases a.len(),
{
    if a.len() > 0 && b.len() > 0 && a[0] == b[0] {
        lemma_seq_lt_total(a.drop_first(), b.drop_first());
        if a.drop_first() == b.drop_first() {
            assert forall|i: int| 0 <= i < a.len() implies a[i] == b[i] by {
                if i > 0 {
                    assert(a[i] == a.drop_first()[i - 1]);
                    assert(b[i] == b.drop_first()[i - 1]);
                }
            };
            assert(a =~= b);
        }
    } else if a.len() == 0 && b.len() == 0 {
        assert(a =~= b);
    }
}

proof fn lemma_cand_lt_total(x: CandidateView, y: CandidateView)
    ensures
        cand_lt(x, y) || cand_lt(y, x) || x == y,
{
    lemma_seq_lt_total(x.0, y.0);
    lemma_seq_lt_total(x.1, y.1);
}

/// Two sequences in strict order with the same elements are equal.
pub proof fn lemma_strictly_sorted_unique(s: Seq<CandidateView>, t: Seq<CandidateView>)
    requires
        strictly_sorted(s),
        strictly_sorted(t),
        forall|x: CandidateView| s.contains(x) == t.contains(x),
    ensures
        s == t,
    decreases s.len(),
{
    if s.len() == 0 {
        if t.len() > 0 {
            assert(t.contains(t[0]));
        }
        assert(s =~= t);
    } else {
        assert(s.contains(s[0]));
        assert(t.len() > 0);
        assert(t.contains(t[0]));
        let j = choose|j: int| 0 <= j < t.len() && t[j] == s[0];
        let i = choose|i: int| 0 <= i < s.len() && s[i] == t[0];
        if i > 0 && j > 0 {
            assert(cand_lt(s[0], s[i]));
            assert(cand_lt(t[0], t[j]));
            lemma_cand_lt_transitive(s[0], t[0], s[0]);
            lemma_cand_lt_irreflexive(s[0]);
        }
        assert(s[0] == t[0]);
        let s1 = s.drop_first();
        let t1 = t.drop_first();
        assert forall|x: CandidateView| s1.contains(x) == t1.contains(x) by {
            if s1.contains(x) {
                let p = choose|p: int| 0 <= p < s1.len() && s1[p] == x;
                assert(s[p + 1] == x);
                assert(s.contains(x));
                let q = choose|q: int| 0 <= q < t.len() && t[q] == x;
                assert(cand_lt(s[0], s[p + 1]));
                if q == 0 {
                    lemma_cand_lt_irreflexive(x);
                }
                assert(t1[q - 1] == x);
            }
            if t1.contains(x) {
                let p = choose|p: int| 0 <= p < t1.len() && t1[p] == x;
                assert(t[p + 1] == x);
                assert(t.contains(x));
                let q = choose|q: int| 0 <= q < s.len() && s[q] == x;
                assert(cand_lt(t[0], t[p + 1]));
                if q == 0 {
                    lemma_cand_lt_irreflexive(x);
                }
                assert(s1[q - 1] == x);
            }
        };
        lemma_strictly_sorted_unique(s1, t1);
        assert(s =~= t) by {
            assert forall|k: int| 0 <= k < s.len() implies s[k] == t[k] by {
                if k > 0 {
                    assert(s[k] == s1[k - 1]);
                    assert(t[k] == t1[k - 1]);
                }
            };
        };
    }
}

/// The candidates in lexicographic order of `(A, B)`, each once.
pub fn sort_candidates(cands: Vec<(Vec<usize>, Vec<usize>)>) -> (r: Vec<(Vec<usize>, Vec<usize>)>)
    ensures
        strictly_sorted(views(r@)),
        forall|x: CandidateView| views(r@).contains(x) == views(cands@).contains(x),
{
    let ghost input = views(cands@);
    let mut rest = cands;
    let mut out: Vec<(Vec<usize>, Vec<usize>)> = Vec::new();
    assert(views(rest@) == input);
    while rest.len() > 0
        invariant
            strictly_sorted(views(out@)),
            forall|x: CandidateView| input.contains(x) == (views(out@).contains(x) || views(rest@).contains(x)),
        decreases rest@.len(),
    {
        let ghost rv0 = views(rest@);
        let c = rest.pop().unwrap();
        let ghost cv = cand_view(c);
        let ghost rv = views(rest@);
        assert(rv0 == rv.push(cv));
        let ghost ov = views(out@);
        let mut pos: usize = 0;
        let mut stop = false;
        while !stop && pos < out.len()
            invariant
                ov == views(out@),
                cv == cand_view(c),
                pos <= out@.len(),
                stop ==> pos < out@.len() && !cand_lt(ov[pos as int], cv),
                forall|q: int| 0 <= q < pos ==> cand_lt(ov[q], cv),
            decreases out@.len() - pos, if stop { 0int } else { 1int },
        {
            assert(ov[pos as int] == cand_view(out@[pos as int]));
            if candidate_lt(&out[pos], &c) {
                pos += 1;
            } else {
                stop = true;
            }
        }
        let repeat = stop && vec_eq(&out[pos].0, &c.0) && vec_eq(&out[pos].1, &c.1);
        proof {
            if stop {
                assert(ov[pos as int] == cand_view(out@[pos as int]));
                lemma_cand_lt_total(ov[pos as int], cv);
            }
        }
        if repeat {
            proof {
                assert(ov[pos as int] == cv);
                assert forall|x: CandidateView| input.contains(x) == (ov.contains(x) || rv.contains(x)) by {
                    if rv0.contains(x) && !rv.contains(x) {
                        let p = choose|p: int| 0 <= p < rv0.len() && rv0[p] == x;
                        if p < rv.len() {
                            assert(rv[p] == x);
                        }
                        assert(ov.contains(x));
                    }
                    if rv.contains(x) {
                        let p = choose|p: int| 0 <= p < rv.len() && rv[p] == x;
                        assert(rv0[p] == x);
                    }
                };
            }
        } else {
            out.insert(pos, c);
            proof {
                let nv = views(out@);
                assert(nv =~= ov.insert(pos as int, cv));
                assert(pos < ov.len() ==> cand_lt(cv, ov[pos as int]));
                assert forall|i: int, j: int| 0 <= i < j < nv.len() implies cand_lt(nv[i], nv[j]) by {
                    if j < pos {
                        assert(nv[i] == ov[i] && nv[j] == ov[j]);
                    } else if j == pos {
                        assert(nv[i] == ov[i]);
                    } else if i == pos {
                        assert(nv[j] == ov[j - 1]);
                        if j - 1 > pos {
                            lemma_cand_lt_transitive(cv, ov[pos as int], ov[j - 1]);
                        }
                    } else if i < pos {
                        assert(nv[i] == ov[i] && nv[j] == ov[j - 1]);
                    } else {
                        assert(nv[i] == ov[i - 1] && nv[j] == ov[j - 1]);
                    }
                };
                assert forall|x: CandidateView| input.contains(x) == (nv.contains(x) || rv.contains(x)) by {
                    if ov.contains(x) {
                        let p = choose|p: int| 0 <= p < ov.len() && ov[p] == x;
                        if p < pos {
                            assert(nv[p] == x);
                        } else {
                            assert(nv[p + 1] == x);
                        }
                    }
                    if nv.contains(x) {
                        let p = choose|p: int| 0 <= p < nv.len() && nv[p] == x;
                        if p < pos {
                            assert(ov[p] == x);
                        } else if p > pos {
                            assert(ov[p - 1] == x);
                        }
                    }
                    if rv0.contains(x) {
                        let p = choose|p: int| 0 <= p < rv0.len() && rv0[p] == x;
                        if p < rv.len() {
                            assert(rv[p] == x);
                        } else {
                            assert(nv[pos as int] == x);
                        }
                    }
                    if rv.contains(x) {
                        let p = choose|p: int| 0 <= p < rv.len() && rv[p] == x;
                        assert(rv0[p] == x);
                    }
                    if x == cv {
                        assert(rv0[rv.len() as int] == x);
                    }
                };
            }
        }
    }
    assert forall|x: CandidateView| views(out@).contains(x) == views(cands@).contains(x) by {
        if views(rest@).contains(x) {
            let p = choose|p: int| 0 <= p < views(rest@).len() && views(rest@)[p] == x;
        }
    };
    out
}

} // verus!
