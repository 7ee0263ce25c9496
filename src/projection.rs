use vstd::prelude::*;

verus! {

/// Name of the artificial activity that opens every trace.
pub const START_EVENT: &'static str = "__START";

/// Name of the artificial activity that closes every trace.
pub const END_EVENT: &'static str = "__END";

/// Prefix of the names of the silent activities that log repair inserts.
pub const SILENT_ACT_PREFIX: &'static str = "__silent_";

/// Traces as sequences of activity indices, each with its multiplicity.
pub type LogView = Seq<(Seq<usize>, u64)>;

/// An event log reduced to activity indices: `activities[i]` is the name of
/// activity `i`, and each trace is a sequence of such indices with a weight.
pub struct EventLogActivityProjection {
    pub activities: Vec<String>,
    pub traces: Vec<(Vec<usize>, u64)>,
}

/// The name of the start or of the end activity.
pub open spec fn reserved(nm: Seq<char>) -> bool {
    nm == START_EVENT@ || nm == END_EVENT@
}

/// Every index in every trace is below `n`.
pub open spec fn log_in_range(log: LogView, n: nat) -> bool {
    forall|i: int, j: int|
        0 <= i < log.len() && 0 <= j < log[i].0.len() ==> (#[trigger] log[i].0[j]) < n
}

/// `i` is the first position of `name` in `names`.
pub open spec fn is_first_index(names: Seq<Seq<char>>, name: Seq<char>, i: int) -> bool {
    0 <= i < names.len() && names[i] == name && forall|j: int| 0 <= j < i ==> names[j] != name
}

pub open spec fn has_name(names: Seq<Seq<char>>, name: Seq<char>) -> bool {
    exists|i: int| 0 <= i < names.len() && names[i] == name
}

/// The log with every trace framed by `s` in front and `e` behind.
pub open spec fn framed(log: LogView, s: usize, e: usize) -> LogView {
    log.map_values(|p: (Seq<usize>, u64)| (seq![s] + p.0 + seq![e], p.1))
}

/// The names list after appending `name` when it is missing.
pub open spec fn with_name(names: Seq<Seq<char>>, name: Seq<char>) -> Seq<Seq<char>> {
    if has_name(names, name) {
        names
    } else {
        names.push(name)
    }
}

impl EventLogActivityProjection {
    pub open spec fn names(&self) -> Seq<Seq<char>> {
        self.activities@.map_values(|s: String| s@)
    }

    pub open spec fn log(&self) -> LogView {
        self.traces@.map_values(|p: (Vec<usize>, u64)| (p.0@, p.1))
    }

    /// Every activity index in a trace names an activity.
    pub open spec fn wf(&self) -> bool {
        log_in_range(self.log(), self.activities@.len())
    }

    /// Every index in every trace names an activity, and none of them is
    /// the start or the end activity (those only frame traces).
    pub open spec fn consistent(&self) -> bool {
        &&& self.wf()
        &&& forall|i: int, j: int|
            0 <= i < self.log().len() && 0 <= j < self.log()[i].0.len() ==> !reserved(
                self.names()[#[trigger] self.log()[i].0[j] as int],
            )
    }

    /// Checks that every index in every trace is in range and names neither
    /// the start nor the end activity.
    pub fn is_consistent(&self) -> (r: bool)
        ensures
            r == self.consistent(),
    {
        let n = self.activities.len();
        let start = START_EVENT.to_owned();
        let end = END_EVENT.to_owned();
        let mut flags: Vec<bool> = Vec::new();
        let mut x: usize = 0;
        while x < n
            invariant
                n == self.activities@.len(),
                start@ == START_EVENT@,
                end@ == END_EVENT@,
                x <= n,
                flags@.len() == x,
                forall|q: int| 0 <= q < x ==> flags@[q] == reserved(self.names()[q]),
            decreases n - x,
        {
            let f = self.activities[x] == start || self.activities[x] == end;
            flags.push(f);
            x += 1;
        }
        let mut i: usize = 0;
        while i < self.traces.len()
            invariant
                n == self.activities@.len(),
                flags@.len() == n,
                forall|q: int| 0 <= q < n ==> flags@[q] == reserved(self.names()[q]),
                i <= self.traces@.len(),
                forall|a: int, b: int|
                    0 <= a < i && 0 <= b < self.log()[a].0.len() ==> (#[trigger] self.log()[a].0[b]) < n && !reserved(
                        self.names()[self.log()[a].0[b] as int],
                    ),
            decreases self.traces@.len() - i,
        {
            let t = &self.traces[i].0;
            let mut j: usize = 0;
            while j < t.len()
                invariant
                    n == self.activities@.len(),
                    flags@.len() == n,
                    forall|q: int| 0 <= q < n ==> flags@[q] == reserved(self.names()[q]),
                    i < self.traces@.len(),
                    t@ == self.log()[i as int].0,
                    j <= t@.len(),
                    forall|a: int, b: int|
                        0 <= a < i && 0 <= b < self.log()[a].0.len() ==> (#[trigger] self.log()[a].0[b]) < n
                            && !reserved(self.names()[self.log()[a].0[b] as int]),
                    forall|b: int| 0 <= b < j ==> t@[b] < n && !reserved(self.names()[t@[b] as int]),
                decreases t@.len() - j,
            {
                if t[j] >= n || flags[t[j]] {
                    assert(self.log()[i as int].0[j as int] == t@[j as int]);
                    return false;
                }
                j += 1;
            }
            assert forall|a: int, b: int|
                0 <= a < i + 1 && 0 <= b < self.log()[a].0.len() implies (#[trigger] self.log()[a].0[b]) < n
                    && !reserved(self.names()[self.log()[a].0[b] as int]) by {
                if a == i {
                    assert(self.log()[a].0[b] == t@[b]);
                }
            };
            i += 1;
        }
        true
    }

    /// A copy with the same names and traces.
    pub fn duplicate(&self) -> (r: Self)
        ensures
            r.names() == self.names(),
            r.log() == self.log(),
    {
        let mut activities: Vec<String> = Vec::new();
        let mut i: usize = 0;
        while i < self.activities.len()
            invariant
                i <= self.activities@.len(),
                activities@.len() == i,
                forall|k: int| 0 <= k < i ==> (#[trigger] activities@[k])@ == self.names()[k],
            decreases self.activities@.len() - i,
        {
            activities.push(self.activities[i].clone());
            i += 1;
        }
        let mut traces: Vec<(Vec<usize>, u64)> = Vec::new();
        let mut j: usize = 0;
        while j < self.traces.len()
            invariant
                j <= self.traces@.len(),
                traces@.len() == j,
                forall|k: int| 0 <= k < j ==> (#[trigger] traces@[k]).0@ == self.log()[k].0 && traces@[k].1 == self.log()[k].1,
            decreases self.traces@.len() - j,
        {
            let t = &self.traces[j].0;
            let mut c: Vec<usize> = Vec::new();
            let mut q: usize = 0;
            while q < t.len()
                invariant
                    q <= t@.len(),
                    c@ == t@.subrange(0, q as int),
                decreases t@.len() - q,
            {
                c.push(t[q]);
                assert(t@.subrange(0, q + 1) == t@.subrange(0, q as int).push(t@[q as int]));
                q += 1;
            }
            assert(t@.subrange(0, t@.len() as int) == t@);
            traces.push((c, self.traces[j].1));
            j += 1;
        }
        let r = EventLogActivityProjection { activities, traces };
        assert(r.names() =~= self.names());
        assert(r.log() =~= self.log());
        r
    }

    /// The first index of the activity called `name`, if there is one.
    pub fn index_of(&self, name: &str) -> (r: Option<usize>)
        ensures
            match r {
                Some(i) => is_first_index(self.names(), name@, i as int),
                None => !has_name(self.names(), name@),
            },
    {
        let target = name.to_owned();
        let mut i: usize = 0;
        while i < self.activities.len()
            invariant
                target@ == name@,
                i <= self.activities@.len(),
                forall|j: int| 0 <= j < i ==> self.names()[j] != name@,
            decreases self.activities@.len() - i,
        {
            if self.activities[i] == target {
                return Some(i);
            }
            i += 1;
        }
        None
    }

    /// The names of the given activities, in the same order.
    pub fn acts_to_names(&self, acts: &Vec<usize>) -> (r: Vec<String>)
        requires
            forall|k: int| 0 <= k < acts@.len() ==> acts@[k] < self.activities@.len(),
        ensures
            r@.len() == acts@.len(),
            forall|k: int| 0 <= k < acts@.len() ==> (#[trigger] r@[k])@ == self.names()[acts@[k] as int],
    {
        let mut r: Vec<String> = Vec::new();
        let mut k: usize = 0;
        while k < acts.len()
            invariant
                k <= acts@.len(),
                r@.len() == k,
                forall|k: int| 0 <= k < acts@.len() ==> acts@[k] < self.activities@.len(),
                forall|q: int| 0 <= q < k ==> (#[trigger] r@[q])@ == self.names()[acts@[q] as int],
            decreases acts@.len() - k,
        {
            r.push(self.activities[acts[k]].clone());
            k += 1;
        }
        r
    }

    /// Appends an activity called `name` unless one exists; returns its first index.
    fn ensure_activity(&mut self, name: &str) -> (r: usize)
        requires
            old(self).wf(),
        ensures
            final(self).wf(),
            final(self).traces == old(self).traces,
            final(self).names() == with_name(old(self).names(), name@),
            is_first_index(final(self).names(), name@, r as int),
    {
        match self.index_of(name) {
            Some(i) => i,
            None => {
                let ghost old_names = self.names();
                self.activities.push(name.to_owned());
                assert(self.names() =~= old_names.push(name@));
                self.activities.len() - 1
            },
        }
    }
}

/// Brackets every trace with the `START_EVENT` and `END_EVENT` activities,
/// adding them to the activities when they are missing. Returns their indices.
pub fn add_start_end_acts_proj(proj: &mut EventLogActivityProjection) -> (r: (usize, usize))
    requires
        old(proj).wf(),
    ensures
        final(proj).wf(),
        final(proj).names() == with_name(with_name(old(proj).names(), START_EVENT@), END_EVENT@),
        is_first_index(final(proj).names(), START_EVENT@, r.0 as int),
        is_first_index(final(proj).names(), END_EVENT@, r.1 as int),
        final(proj).log() == framed(old(proj).log(), r.0, r.1),
{
    let s = proj.ensure_activity(START_EVENT);
    let e = proj.ensure_activity(END_EVENT);
    let ghost names1 = proj.names();
    let ghost n = proj.activities@.len();
    let mut new_traces: Vec<(Vec<usize>, u64)> = Vec::new();
    let mut i: usize = 0;
    while i < proj.traces.len()
        invariant
            proj.wf(),
            proj.activities@.len() == n,
            s < n,
            e < n,
            i <= proj.traces@.len(),
            new_traces@.len() == i,
            forall|k: int| 0 <= k < i ==> (#[trigger] new_traces@[k]).0@ == seq![s] + proj.log()[k].0 + seq![e]
                && new_traces@[k].1 == proj.log()[k].1,
        decreases proj.traces@.len() - i,
    {
        let t = &proj.traces[i].0;
        let mut nt: Vec<usize> = Vec::new();
        nt.push(s);
        let mut j: usize = 0;
        while j < t.len()
            invariant
                j <= t@.len(),
                nt@ == seq![s] + t@.subrange(0, j as int),
            decreases t@.len() - j,
        {
            nt.push(t[j]);
            assert(t@.subrange(0, j + 1) == t@.subrange(0, j as int).push(t@[j as int]));
            j += 1;
        }
        nt.push(e);
        assert(t@.subrange(0, t@.len() as int) == t@);
        new_traces.push((nt, proj.traces[i].1));
        i += 1;
    }
    let ghost old_log = proj.log();
    proj.traces = new_traces;
    assert(proj.log() =~= framed(old_log, s, e));
    assert forall|a: int, b: int|
        0 <= a < proj.log().len() && 0 <= b < proj.log()[a].0.len() implies (#[trigger] proj.log()[a].0[b]) < n by {
        let t = old_log[a].0;
        assert(proj.log()[a].0 == seq![s] + t + seq![e]);
        if b > 0 && b <= t.len() {
            assert(proj.log()[a].0[b] == t[b - 1]);
        }
    };
    (s, e)
}

/// The names of both sides of each candidate.
pub fn cnds_to_names(log_proj: &EventLogActivityProjection, cnd: &Vec<(Vec<usize>, Vec<usize>)>) -> (r: Vec<
    (Vec<String>, Vec<String>),
>)
    requires
        forall|c: int, k: int|
            0 <= c < cnd@.len() && 0 <= k < cnd@[c].0@.len() ==> (#[trigger] cnd@[c].0@[k]) < log_proj.activities@.len(),
        forall|c: int, k: int|
            0 <= c < cnd@.len() && 0 <= k < cnd@[c].1@.len() ==> (#[trigger] cnd@[c].1@[k]) < log_proj.activities@.len(),
    ensures
        r@.len() == cnd@.len(),
        forall|c: int| #![trigger r@[c]] 0 <= c < cnd@.len() ==> {
            &&& r@[c].0@.len() == cnd@[c].0@.len()
            &&& r@[c].1@.len() == cnd@[c].1@.len()
            &&& forall|k: int| 0 <= k < cnd@[c].0@.len() ==> (#[trigger] r@[c].0@[k])@ == log_proj.names()[cnd@[c].0@[k] as int]
            &&& forall|k: int| 0 <= k < cnd@[c].1@.len() ==> (#[trigger] r@[c].1@[k])@ == log_proj.names()[cnd@[c].1@[k] as int]
        },
{
    let mut r: Vec<(Vec<String>, Vec<String>)> = Vec::new();
    let mut c: usize = 0;
    while c < cnd.len()
        invariant
            c <= cnd@.len(),
            r@.len() == c,
            forall|c: int, k: int|
                0 <= c < cnd@.len() && 0 <= k < cnd@[c].0@.len() ==> (#[trigger] cnd@[c].0@[k]) < log_proj.activities@.len(),
            forall|c: int, k: int|
                0 <= c < cnd@.len() && 0 <= k < cnd@[c].1@.len() ==> (#[trigger] cnd@[c].1@[k]) < log_proj.activities@.len(),
            forall|q: int| #![trigger r@[q]] 0 <= q < c ==> {
                &&& r@[q].0@.len() == cnd@[q].0@.len()
                &&& r@[q].1@.len() == cnd@[q].1@.len()
                &&& forall|k: int| 0 <= k < cnd@[q].0@.len() ==> (#[trigger] r@[q].0@[k])@ == log_proj.names()[cnd@[q].0@[k] as int]
                &&& forall|k: int| 0 <= k < cnd@[q].1@.len() ==> (#[trigger] r@[q].1@[k])@ == log_proj.names()[cnd@[q].1@[k] as int]
            },
        decreases cnd@.len() - c,
    {
        let a = log_proj.acts_to_names(&cnd[c].0);
        let b = log_proj.acts_to_names(&cnd[c].1);
        r.push((a, b));
        c += 1;
    }
    r
}

} // verus!
