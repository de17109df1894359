use vstd::prelude::*;
use crate::ratio::Ratio;
use crate::meta_agent::ProvenanceLog;

verus! {

/// A contributor's aggregate over every submission. `last_updated` is in
/// milliseconds since the epoch; the scores are exact fractions.
#[derive(Clone, Debug)]
pub struct ContributorStats {
    pub contributor_id: String,
    pub trace_depth: usize,
    pub provenance_hash: String,
    pub backend_used: String,
    pub last_updated: i64,
    pub uniqueness_score: Ratio,
    pub total_submissions: usize,
    pub avg_trace_depth: Ratio,
    pub languages_used: Vec<String>,
    pub rank: usize,
}

/// The orders in which the leaderboard can be ranked.
#[derive(Clone, Copy, Debug, PartialEq, Eq, Structural)]
pub enum RankingCriteria {
    TraceDepth,
    UniquenessScore,
    TotalSubmissions,
    AvgTraceDepth,
    Combined,
}

impl RankingCriteria {
    /// Whether the order is decided by integers and exact fractions alone.
    /// The combined score takes a natural logarithm, and is ranked by the
    /// caller through `apply_ranking`.
    pub open spec fn is_exact(self) -> bool {
        self != RankingCriteria::Combined
    }
}

/// `a` ranks strictly above `b` under `c`.
pub open spec fn better(c: RankingCriteria, a: ContributorStats, b: ContributorStats) -> bool {
    match c {
        RankingCriteria::TraceDepth => a.trace_depth > b.trace_depth || (a.trace_depth == b.trace_depth
            && a.uniqueness_score.greater(b.uniqueness_score)),
        RankingCriteria::UniquenessScore => a.uniqueness_score.greater(b.uniqueness_score) || (
        a.uniqueness_score.same_value(b.uniqueness_score) && a.trace_depth > b.trace_depth),
        RankingCriteria::TotalSubmissions => a.total_submissions > b.total_submissions,
        RankingCriteria::AvgTraceDepth => a.avg_trace_depth.greater(b.avg_trace_depth),
        RankingCriteria::Combined => false,
    }
}

pub open spec fn scores_wf(s: ContributorStats) -> bool {
    s.uniqueness_score.wf() && s.avg_trace_depth.wf()
}

/// `out` holds exactly the entries, ordered so that none ranks strictly
/// above one placed before it.
pub open spec fn is_ranking(entries: Seq<ContributorStats>, out: Seq<ContributorStats>, c: RankingCriteria) -> bool {
    &&& out.len() == entries.len()
    &&& forall|i: int| 0 <= i < entries.len() ==> out.contains(#[trigger] entries[i])
    &&& forall|j: int| 0 <= j < out.len() ==> entries.contains(#[trigger] out[j])
    &&& forall|i: int, j: int| 0 <= i < j < out.len() ==> !better(c, #[trigger] out[j], #[trigger] out[i])
}

/// Sum of the depths of a history.
pub open spec fn depth_sum(h: Seq<ProvenanceLog>) -> nat
    decreases h.len(),
{
    if h.len() == 0 {
        0
    } else {
        depth_sum(h.drop_last()) + h.last().trace_depth as nat
    }
}

/// Sum of the submission counts of the entries.
pub open spec fn submissions_sum(e: Seq<ContributorStats>) -> nat
    decreases e.len(),
{
    if e.len() == 0 {
        0
    } else {
        submissions_sum(e.drop_last()) + e.last().total_submissions as nat
    }
}

/// `a` followed by the tags of `b` that it lacks, in first-seen order.
pub open spec fn union_append(a: Seq<Seq<char>>, b: Seq<Seq<char>>) -> Seq<Seq<char>>
    decreases b.len(),
{
    if b.len() == 0 {
        a
    } else {
        let u = union_append(a, b.drop_last());
        if u.contains(b.last()) {
            u
        } else {
            u.push(b.last())
        }
    }
}

pub open spec fn strings_view(v: Seq<String>) -> Seq<Seq<char>> {
    v.map_values(|s: String| s@)
}

/// The ranked aggregate of every contributor's submissions.
pub struct Leaderboard {
    pub entries: Vec<ContributorStats>,
    pub histories: Vec<Vec<ProvenanceLog>>,
}

impl Leaderboard {
    /// The submissions of the contributor of entry `i`, oldest first.
    pub open spec fn history(&self, i: int) -> Seq<ProvenanceLog> {
        self.histories@[i]@
    }

    /// One entry per contributor, each holding the exact aggregate of that
    /// contributor's history.
    pub open spec fn wf(&self) -> bool {
        &&& self.histories@.len() == self.entries@.len()
        &&& submissions_sum(self.entries@) <= usize::MAX
        &&& forall|i: int, j: int|
            0 <= i < j < self.entries@.len() ==> (#[trigger] self.entries@[i]).contributor_id@
                != (#[trigger] self.entries@[j]).contributor_id@
        &&& forall|i: int| 0 <= i < self.entries@.len() ==> self.entry_matches(i)
    }

    pub open spec fn entry_matches(&self, i: int) -> bool {
        let e = self.entries@[i];
        let h = self.history(i);
        &&& h.len() >= 1
        &&& e.total_submissions == h.len()
        &&& e.avg_trace_depth == (Ratio { num: depth_sum(h) as u128, den: h.len() as u128 })
        &&& scores_wf(e)
        &&& forall|k: int| 0 <= k < h.len() ==> (#[trigger] h[k]).contributor_id@ == e.contributor_id@
    }

    /// Position of the entry of `id`, or -1.
    pub open spec fn index_of(&self, id: Seq<char>) -> int {
        if exists|i: int| 0 <= i < self.entries@.len() && (#[trigger] self.entries@[i]).contributor_id@ == id {
            choose|i: int| 0 <= i < self.entries@.len() && (#[trigger] self.entries@[i]).contributor_id@ == id
        } else {
            -1
        }
    }

    pub fn new() -> (r: Leaderboard)
        ensures
            r.wf(),
            r.entries@.len() == 0,
    {
        Leaderboard { entries: Vec::new(), histories: Vec::new() }
    }

    /// Number of contributors.
    pub fn total_contributors(&self) -> (r: usize)
        ensures
            r == self.entries@.len(),
    {
        self.entries.len()
    }

    /// Number of submissions over all contributors.
    pub fn total_submissions(&self) -> (r: usize)
        requires
            self.wf(),
        ensures
            r == submissions_sum(self.entries@),
    {
        let mut total: usize = 0;
        let mut i: usize = 0;
        while i < self.entries.len()
            invariant
                i <= self.entries@.len(),
                submissions_sum(self.entries@) <= usize::MAX,
                total == submissions_sum(self.entries@.subrange(0, i as int)),
            decreases self.entries@.len() - i,
        {
            proof {
                assert(self.entries@.subrange(0, i + 1).drop_last() =~= self.entries@.subrange(0, i as int));
                lemma_submissions_prefix(self.entries@, i + 1);
            }
            total = total + self.entries[i].total_submissions;
            i = i + 1;
        }
        proof {
            assert(self.entries@.subrange(0, i as int) =~= self.entries@);
        }
        total
    }
}

/// What `add_entry` makes of an existing entry `o` given a submission `p`
/// with languages `langs`, whose history is then `h`.
pub open spec fn merged_entry(
    o: ContributorStats,
    e: ContributorStats,
    p: ProvenanceLog,
    langs: Seq<Seq<char>>,
    h: Seq<ProvenanceLog>,
) -> bool {
    &&& e.contributor_id@ == o.contributor_id@
    &&& e.total_submissions == o.total_submissions + 1
    &&& e.trace_depth == if p.trace_depth > o.trace_depth { p.trace_depth } else { o.trace_depth }
    &&& e.provenance_hash@ == p.trace_hash@
    &&& e.backend_used@ == p.backend_used@
    &&& e.last_updated == p.timestamp
    &&& e.uniqueness_score == if p.uniqueness_score.greater(o.uniqueness_score) {
        p.uniqueness_score
    } else {
        o.uniqueness_score
    }
    &&& e.avg_trace_depth == (Ratio { num: depth_sum(h) as u128, den: h.len() as u128 })
    &&& strings_view(e.languages_used@) == union_append(strings_view(o.languages_used@), langs)
    &&& e.rank == o.rank
}

/// The entry that a first submission `p` with languages `langs` creates.
pub open spec fn fresh_entry(e: ContributorStats, p: ProvenanceLog, langs: Seq<Seq<char>>) -> bool {
    &&& e.contributor_id@ == p.contributor_id@
    &&& e.total_submissions == 1
    &&& e.trace_depth == p.trace_depth
    &&& e.provenance_hash@ == p.trace_hash@
    &&& e.backend_used@ == p.backend_used@
    &&& e.last_updated == p.timestamp
    &&& e.uniqueness_score == p.uniqueness_score
    &&& e.avg_trace_depth == (Ratio { num: p.trace_depth as u128, den: 1 })
    &&& strings_view(e.languages_used@) == langs
    &&& e.rank == 0
}

/// Every entry but the one at `i`, and its history, is as it was.
pub open spec fn unchanged_except(a: Leaderboard, b: Leaderboard, i: int) -> bool {
    forall|j: int|
        0 <= j < a.entries@.len() && j != i ==> #[trigger] b.entries@[j] == a.entries@[j] && b.history(j) == a.history(j)
}

fn copy_string(s: &String) -> (r: String)
    ensures
        r@ == s@,
{
    s.clone()
}

impl Leaderboard {
    /// Position of the entry of `id`, if any.
    pub fn find(&self, id: &str) -> (r: Option<usize>)
        ensures
            r is Some ==> r->Some_0 < self.entries@.len() && self.entries@[r->Some_0 as int].contributor_id@ == id@,
            r is None ==> forall|i: int| 0 <= i < self.entries@.len() ==> (#[trigger] self.entries@[i]).contributor_id@ != id@,
    {
        let key = id.to_owned();
        let mut i: usize = 0;
        while i < self.entries.len()
            invariant
                key@ == id@,
                i <= self.entries@.len(),
                forall|j: int| 0 <= j < i ==> (#[trigger] self.entries@[j]).contributor_id@ != id@,
            decreases self.entries@.len() - i,
        {
            if self.entries[i].contributor_id == key {
                return Some(i);
            }
            i = i + 1;
        }
        None
    }

    /// The submissions of `contributor_id`, oldest first; `None` when the
    /// contributor has none.
    pub fn get_contributor_history(&self, contributor_id: &str) -> (r: Option<&Vec<ProvenanceLog>>)
        requires
            self.wf(),
        ensures
            r is None <==> forall|i: int| 0 <= i < self.entries@.len() ==> (#[trigger] self.entries@[i]).contributor_id@ != contributor_id@,
            r is Some ==> exists|i: int| 0 <= i < self.entries@.len()
                && (#[trigger] self.entries@[i]).contributor_id@ == contributor_id@
                && r->Some_0@ == self.history(i),
    {
        match self.find(contributor_id) {
            Some(i) => Some(&self.histories[i]),
            None => None,
        }
    }

    /// Records a submission. A known contributor's entry counts one more
    /// submission, keeps the larger depth and the larger uniqueness, takes
    /// the submission's hash, backend and time, recomputes the mean depth
    /// over the whole history, and adds the languages it has not seen. An
    /// unknown contributor gets a new entry built from the submission.
    /// Ranks are left as they were: see `update_ranks` and `apply_ranking`.
    pub fn add_entry(&mut self, provenance: ProvenanceLog, languages: Vec<String>)
        requires
            old(self).wf(),
            submissions_sum(old(self).entries@) < usize::MAX,
            provenance.uniqueness_score.wf(),
        ensures
            final(self).wf(),
            submissions_sum(final(self).entries@) == submissions_sum(old(self).entries@) + 1,
            ({
                let id = provenance.contributor_id@;
                let langs = strings_view(languages@);
                if exists|i: int| 0 <= i < old(self).entries@.len() && (#[trigger] old(self).entries@[i]).contributor_id@ == id {
                    exists|i: int| 0 <= i < old(self).entries@.len()
                        && (#[trigger] old(self).entries@[i]).contributor_id@ == id
                        && final(self).entries@.len() == old(self).entries@.len()
                        && final(self).history(i) == old(self).history(i).push(provenance)
                        && merged_entry(old(self).entries@[i], final(self).entries@[i], provenance, langs, final(self).history(i))
                        && unchanged_except(*old(self), *final(self), i)
                } else {
                    &&& final(self).entries@.len() == old(self).entries@.len() + 1
                    &&& final(self).entries@.drop_last() == old(self).entries@
                    &&& fresh_entry(final(self).entries@.last(), provenance, langs)
                    &&& final(self).history(old(self).entries@.len() as int) == seq![provenance]
                    &&& forall|j: int| 0 <= j < old(self).entries@.len() ==> final(self).history(j) == old(self).history(j)
                }
            }),
    {
        let ghost p = provenance;
        let ghost langs = strings_view(languages@);
        match self.find(provenance.contributor_id.as_str()) {
            Some(i) => {
                self.merge_into(i, provenance, languages);
                proof {
                    let ii = i as int;
                    assert(old(self).entries@[ii].contributor_id@ == p.contributor_id@);
                    assert(self.history(ii) == old(self).history(ii).push(p));
                    assert(merged_entry(old(self).entries@[ii], self.entries@[ii], p, langs, self.history(ii)));
                    assert(unchanged_except(*old(self), *self, ii));
                }
            },
            None => {
                self.push_fresh(provenance, languages);
                proof {
                    assert(!exists|i: int| 0 <= i < old(self).entries@.len() && (#[trigger] old(self).entries@[i]).contributor_id@ == p.contributor_id@);
                }
            },
        }
    }

    fn push_fresh(&mut self, provenance: ProvenanceLog, languages: Vec<String>)
        requires
            old(self).wf(),
            submissions_sum(old(self).entries@) < usize::MAX,
            provenance.uniqueness_score.wf(),
            forall|i: int| 0 <= i < old(self).entries@.len() ==> (#[trigger] old(self).entries@[i]).contributor_id@ != provenance.contributor_id@,
        ensures
            final(self).wf(),
            submissions_sum(final(self).entries@) == submissions_sum(old(self).entries@) + 1,
            final(self).entries@.len() == old(self).entries@.len() + 1,
            final(self).entries@.drop_last() == old(self).entries@,
            fresh_entry(final(self).entries@.last(), provenance, strings_view(languages@)),
            final(self).history(old(self).entries@.len() as int) == seq![provenance],
            forall|j: int| 0 <= j < old(self).entries@.len() ==> final(self).history(j) == old(self).history(j),
    {
        let stats = ContributorStats {
            contributor_id: copy_string(&provenance.contributor_id),
            trace_depth: provenance.trace_depth,
            provenance_hash: copy_string(&provenance.trace_hash),
            backend_used: copy_string(&provenance.backend_used),
            last_updated: provenance.timestamp,
            uniqueness_score: provenance.uniqueness_score,
            total_submissions: 1,
            avg_trace_depth: Ratio::new(provenance.trace_depth as u128, 1),
            languages_used: languages,
            rank: 0,
        };
        let ghost old_entries = self.entries@;
        let ghost old_hist = self.histories@;
        self.entries.push(stats);
        let mut h: Vec<ProvenanceLog> = Vec::new();
        h.push(provenance);
        self.histories.push(h);
        proof {
            assert(self.entries@.drop_last() =~= old_entries);
            assert(submissions_sum(self.entries@) == submissions_sum(old_entries) + 1);
            assert(h@ =~= seq![provenance]);
            assert(h@.drop_last() =~= Seq::<ProvenanceLog>::empty());
            assert(depth_sum(Seq::<ProvenanceLog>::empty()) == 0);
            assert(depth_sum(h@) == provenance.trace_depth);
            assert(self.history(old_entries.len() as int) == h@);
            assert forall|i: int| 0 <= i < self.entries@.len() implies self.entry_matches(i) by {
                if i < old_entries.len() {
                    assert(old(self).entry_matches(i));
                    assert(self.entries@[i] == old_entries[i]);
                    assert(self.histories@[i] == old_hist[i]);
                }
            }
        }
    }

    fn merge_into(&mut self, i: usize, provenance: ProvenanceLog, languages: Vec<String>)
        requires
            old(self).wf(),
            submissions_sum(old(self).entries@) < usize::MAX,
            provenance.uniqueness_score.wf(),
            i < old(self).entries@.len(),
            old(self).entries@[i as int].contributor_id@ == provenance.contributor_id@,
        ensures
            final(self).wf(),
            submissions_sum(final(self).entries@) == submissions_sum(old(self).entries@) + 1,
            final(self).entries@.len() == old(self).entries@.len(),
            final(self).history(i as int) == old(self).history(i as int).push(provenance),
            merged_entry(old(self).entries@[i as int], final(self).entries@[i as int], provenance,
                strings_view(languages@), final(self).history(i as int)),
            unchanged_except(*old(self), *final(self), i as int),
    {
        let ghost old_entries = self.entries@;
        let ghost old_hist = self.histories@;
        let hash = copy_string(&provenance.trace_hash);
        let backend = copy_string(&provenance.backend_used);
        let stamp = provenance.timestamp;
        let depth = provenance.trace_depth;
        let uniq = provenance.uniqueness_score;
        proof {
            assert(old(self).entry_matches(i as int));
        }
        self.histories[i].push(provenance);
        // mean over the whole history
        let n = self.histories[i].len();
        let mut sum: u128 = 0;
        let mut k: usize = 0;
        proof {
            lemma_submissions_bound(old_entries, i as int);
        }
        while k < n
            invariant
                n == self.histories@[i as int]@.len(),
                n <= usize::MAX,
                i < self.histories@.len(),
                k <= n,
                sum == depth_sum(self.histories@[i as int]@.subrange(0, k as int)),
                sum <= k * 0x1_0000_0000_0000_0000,
            decreases n - k,
        {
            proof {
                assert(self.histories@[i as int]@.subrange(0, k + 1).drop_last() =~= self.histories@[i as int]@.subrange(0, k as int));
                assert(k * 0x1_0000_0000_0000_0000 + 0x1_0000_0000_0000_0000 <= 0xffff_ffff_ffff_ffff * 0x1_0000_0000_0000_0000 + 0x1_0000_0000_0000_0000);
            }
            sum = sum + self.histories[i][k].trace_depth as u128;
            k = k + 1;
        }
        proof {
            assert(self.histories@[i as int]@.subrange(0, n as int) =~= self.histories@[i as int]@);
        }
        let o = &self.entries[i];
        let mut languages_used: Vec<String> = Vec::new();
        let mut m: usize = 0;
        while m < o.languages_used.len()
            invariant
                m <= o.languages_used@.len(),
                strings_view(languages_used@) == strings_view(o.languages_used@.subrange(0, m as int)),
            decreases o.languages_used@.len() - m,
        {
            let ghost before = languages_used@;
            let x = copy_string(&o.languages_used[m]);
            languages_used.push(x);
            proof {
                assert(languages_used@ =~= before.push(x));
                assert(o.languages_used@.subrange(0, m + 1) =~= o.languages_used@.subrange(0, m as int).push(o.languages_used@[m as int]));
                assert(strings_view(languages_used@) =~= strings_view(before).push(x@));
                assert(strings_view(o.languages_used@.subrange(0, m + 1)) =~= strings_view(o.languages_used@.subrange(0, m as int)).push(x@));
            }
            m = m + 1;
        }
        proof {
            assert(o.languages_used@.subrange(0, m as int) =~= o.languages_used@);
        }
        let mut m: usize = 0;
        while m < languages.len()
            invariant
                m <= languages@.len(),
                strings_view(languages_used@) == union_append(strings_view(o.languages_used@), strings_view(languages@.subrange(0, m as int))),
            decreases languages@.len() - m,
        {
            let lang = &languages[m];
            let mut seen = false;
            let mut q: usize = 0;
            while q < languages_used.len()
                invariant
                    q <= languages_used@.len(),
                    seen == exists|r: int| 0 <= r < q && (#[trigger] languages_used@[r])@ == lang@,
                decreases languages_used@.len() - q,
            {
                if languages_used[q] == *lang {
                    seen = true;
                }
                q = q + 1;
            }
            let ghost u = strings_view(languages_used@);
            proof {
                assert(strings_view(languages@.subrange(0, m + 1)).drop_last() =~= strings_view(languages@.subrange(0, m as int)));
                assert(strings_view(languages@.subrange(0, m + 1)).last() == lang@);
                if seen {
                    let r = choose|r: int| 0 <= r < q && (#[trigger] languages_used@[r])@ == lang@;
                    assert(u[r] == lang@);
                } else {
                    assert forall|r: int| 0 <= r < u.len() implies u[r] != lang@ by {
                        assert(u[r] == languages_used@[r]@);
                    }
                }
            }
            if !seen {
                languages_used.push(copy_string(lang));
                proof {
                    assert(strings_view(languages_used@) =~= u.push(lang@));
                }
            }
            m = m + 1;
        }
        proof {
            assert(languages@.subrange(0, m as int) =~= languages@);
        }
        let stats = ContributorStats {
            contributor_id: copy_string(&o.contributor_id),
            trace_depth: if depth > o.trace_depth { depth } else { o.trace_depth },
            provenance_hash: hash,
            backend_used: backend,
            last_updated: stamp,
            uniqueness_score: if uniq.is_greater(&o.uniqueness_score) { uniq } else { o.uniqueness_score },
            total_submissions: o.total_submissions + 1,
            avg_trace_depth: Ratio::new(sum, n as u128),
            languages_used,
            rank: o.rank,
        };
        self.entries.set(i, stats);
        proof {
            let h = self.histories@[i as int]@;
            assert(h.drop_last() =~= old_hist[i as int]@);
            assert(self.history(i as int) =~= old(self).history(i as int).push(provenance));
            lemma_submissions_update(old_entries, i as int, self.entries@);
            assert forall|j: int| 0 <= j < self.entries@.len() implies self.entry_matches(j) by {
                assert(old(self).entry_matches(j));
                if j != i {
                    assert(self.entries@[j] == old_entries[j]);
                    assert(self.histories@[j] == old_hist[j]);
                } else {
                    let hh = self.history(j);
                    assert(hh == old_hist[j]@.push(provenance));
                    assert forall|k: int| 0 <= k < hh.len() implies (#[trigger] hh[k]).contributor_id@ == self.entries@[j].contributor_id@ by {
                        if k < hh.len() - 1 {
                            assert(hh[k] == old_hist[j]@[k]);
                        }
                    }
                }
            }
            assert forall|a: int, b: int| 0 <= a < b < self.entries@.len() implies (#[trigger] self.entries@[a]).contributor_id@ != (#[trigger] self.entries@[b]).contributor_id@ by {
                assert(old_entries[a].contributor_id@ != old_entries[b].contributor_id@);
            }
        }
    }
}

/// `better` is a strict weak order: irreflexive, asymmetric, transitive,
/// and whatever ranks above `d` ranks above `b` or `b` ranks above `d`.
pub proof fn lemma_better_order(c: RankingCriteria, a: ContributorStats, b: ContributorStats, d: ContributorStats)
    requires
        scores_wf(a),
        scores_wf(b),
        scores_wf(d),
    ensures
        !better(c, a, a),
        better(c, a, b) ==> !better(c, b, a),
        better(c, a, b) && better(c, b, d) ==> better(c, a, d),
        better(c, a, d) ==> better(c, a, b) || better(c, b, d),
{
    let (ua, ub, ud) = (a.uniqueness_score, b.uniqueness_score, d.uniqueness_score);
    crate::ratio::lemma_ratio_order(ua, ub, ud);
    crate::ratio::lemma_ratio_order(ua, ud, ub);
    crate::ratio::lemma_ratio_order(ub, ua, ud);
    crate::ratio::lemma_ratio_order(ub, ud, ua);
    crate::ratio::lemma_ratio_order(ud, ua, ub);
    crate::ratio::lemma_ratio_order(ud, ub, ua);
    crate::ratio::lemma_ratio_order(ua, ua, ua);
    let (va, vb, vd) = (a.avg_trace_depth, b.avg_trace_depth, d.avg_trace_depth);
    crate::ratio::lemma_ratio_order(va, vb, vd);
    crate::ratio::lemma_ratio_order(va, va, va);
}

/// Entries referred to by a ranking, as values.
pub open spec fn deref_all(v: Seq<&ContributorStats>) -> Seq<ContributorStats> {
    v.map_values(|x: &ContributorStats| *x)
}

/// `r` lists each of `0..n` once.
pub open spec fn is_permutation(r: Seq<usize>, n: nat) -> bool {
    &&& r.len() == n
    &&& forall|q: int| 0 <= q < r.len() ==> #[trigger] r[q] < n
    &&& forall|q1: int, q2: int| 0 <= q1 < q2 < r.len() ==> #[trigger] r[q1] != #[trigger] r[q2]
    &&& forall|i: int| 0 <= i < n ==> #[trigger] appears(r, i)
}

/// `i` occurs in `r`.
pub open spec fn appears(r: Seq<usize>, i: int) -> bool {
    exists|q: int| 0 <= q < r.len() && r[q] == i
}

/// Where the insertion sort places entry `k` into `r`: the first position
/// from `p` on whose entry `k` ranks strictly above; the end if none.
pub open spec fn insert_pos(e: Seq<ContributorStats>, c: RankingCriteria, r: Seq<usize>, k: int, p: int) -> int
    decreases r.len() - p,
{
    if p >= r.len() {
        r.len() as int
    } else if better(c, e[k], e[r[p] as int]) {
        p
    } else {
        insert_pos(e, c, r, k, p + 1)
    }
}

/// The insertion sort of positions `0..k` of `e`.
pub open spec fn stable_prefix(e: Seq<ContributorStats>, c: RankingCriteria, k: nat) -> Seq<usize>
    decreases k,
{
    if k == 0 {
        Seq::empty()
    } else {
        let r = stable_prefix(e, c, (k - 1) as nat);
        r.insert(insert_pos(e, c, r, k - 1, 0), (k - 1) as usize)
    }
}

/// Positions of all entries in ranked order, ties in their order in `e`.
pub open spec fn stable_order(e: Seq<ContributorStats>, c: RankingCriteria) -> Seq<usize> {
    stable_prefix(e, c, e.len())
}

/// The entries in ranked order, ties in their order in `e`.
pub open spec fn ordered_entries(e: Seq<ContributorStats>, c: RankingCriteria) -> Seq<ContributorStats> {
    stable_order(e, c).map_values(|i: usize| e[i as int])
}

/// `r` lists each of `0..k` once, none ranking above one placed before it,
/// and entries that rank equal in increasing position.
pub open spec fn is_stable_ranking_of(e: Seq<ContributorStats>, r: Seq<usize>, c: RankingCriteria, k: nat) -> bool {
    &&& is_permutation(r, k)
    &&& forall|q1: int, q2: int|
        0 <= q1 < q2 < r.len() ==> !better(c, e[#[trigger] r[q2] as int], e[#[trigger] r[q1] as int])
            && (!better(c, e[r[q1] as int], e[r[q2] as int]) ==> r[q1] < r[q2])
}

pub open spec fn is_stable_ranking(e: Seq<ContributorStats>, r: Seq<usize>, c: RankingCriteria) -> bool {
    is_stable_ranking_of(e, r, c, e.len())
}

impl Leaderboard {
    pub open spec fn all_scores_wf(&self) -> bool {
        forall|i: int| 0 <= i < self.entries@.len() ==> scores_wf(#[trigger] self.entries@[i])
    }

    proof fn lemma_wf_scores(&self)
        requires
            self.wf(),
        ensures
            self.all_scores_wf(),
    {
        assert forall|i: int| 0 <= i < self.entries@.len() implies scores_wf(#[trigger] self.entries@[i]) by {
            assert(self.entry_matches(i));
        }
    }

    /// Whether `a` ranks strictly above `b` under an exact criterion.
    pub fn is_better(c: RankingCriteria, a: &ContributorStats, b: &ContributorStats) -> (r: bool)
        requires
            c.is_exact(),
            scores_wf(*a),
            scores_wf(*b),
        ensures
            r == better(c, *a, *b),
    {
        match c {
            RankingCriteria::TraceDepth => a.trace_depth > b.trace_depth || (a.trace_depth == b.trace_depth
                && a.uniqueness_score.is_greater(&b.uniqueness_score)),
            RankingCriteria::UniquenessScore => {
                let o = a.uniqueness_score.compare(&b.uniqueness_score);
                o == 1 || (o == 0 && a.trace_depth > b.trace_depth)
            },
            RankingCriteria::TotalSubmissions => a.total_submissions > b.total_submissions,
            RankingCriteria::AvgTraceDepth => a.avg_trace_depth.is_greater(&b.avg_trace_depth),
            RankingCriteria::Combined => false,
        }
    }

    /// Positions of the entries in ranked order: `stable_order`, an
    /// insertion sort in which entries that rank equal keep their order in
    /// `entries`.
    pub fn ranked_indices(&self, c: RankingCriteria) -> (r: Vec<usize>)
        requires
            c.is_exact(),
            self.all_scores_wf(),
        ensures
            r@ == stable_order(self.entries@, c),
            is_stable_ranking(self.entries@, r@, c),
    {
        let n = self.entries.len();
        let ghost e = self.entries@;
        let mut r: Vec<usize> = Vec::new();
        let mut k: usize = 0;
        while k < n
            invariant
                e == self.entries@,
                n == e.len(),
                k <= n,
                self.all_scores_wf(),
                c.is_exact(),
                r@ == stable_prefix(e, c, k as nat),
                is_stable_ranking_of(e, r@, c, k as nat),
            decreases n - k,
        {
            let mut p: usize = 0;
            while p < r.len() && !Leaderboard::is_better(c, &self.entries[k], &self.entries[r[p]])
                invariant
                    e == self.entries@,
                    n == e.len(),
                    k < n,
                    self.all_scores_wf(),
                    c.is_exact(),
                    is_stable_ranking_of(e, r@, c, k as nat),
                    p <= r@.len(),
                    forall|q: int| 0 <= q < p ==> !better(c, e[k as int], e[#[trigger] r@[q] as int]),
                    insert_pos(e, c, r@, k as int, 0) == insert_pos(e, c, r@, k as int, p as int),
                decreases r@.len() - p,
            {
                p = p + 1;
            }
            let ghost old_r = r@;
            proof {
                if p < old_r.len() {
                    assert(better(c, e[k as int], e[old_r[p as int] as int]));
                }
                assert(insert_pos(e, c, old_r, k as int, p as int) == p);
                assert(stable_prefix(e, c, (k + 1) as nat) == old_r.insert(p as int, k));
            }
            r.insert(p, k);
            proof {
                let nr = r@;
                assert(nr == old_r.insert(p as int, k));
                assert forall|q: int| 0 <= q < nr.len() implies (#[trigger] nr[q]) == if q < p {
                    old_r[q]
                } else if q == p {
                    k
                } else {
                    old_r[q - 1]
                } by {}
                assert forall|q1: int, q2: int| 0 <= q1 < q2 < nr.len() implies !better(c, e[#[trigger] nr[q2] as int], e[#[trigger] nr[q1] as int])
                    && (!better(c, e[nr[q1] as int], e[nr[q2] as int]) ==> nr[q1] < nr[q2]) by {
                    if q1 == p && q2 > p {
                        let x = old_r[q2 - 1];
                        let y = old_r[p as int];
                        lemma_better_order(c, e[x as int], e[k as int], e[y as int]);
                        lemma_better_order(c, e[k as int], e[x as int], e[y as int]);
                        if q2 - 1 > p {
                            assert(!better(c, e[old_r[q2 - 1] as int], e[old_r[p as int] as int]));
                        }
                    } else if q2 == p {
                        assert(old_r[q1] < k);
                    } else if q1 < p && q2 > p {
                        assert(!better(c, e[old_r[q2 - 1] as int], e[old_r[q1] as int]));
                        assert(!better(c, e[old_r[q1] as int], e[old_r[q2 - 1] as int]) ==> old_r[q1] < old_r[q2 - 1]);
                    } else if q1 > p {
                        assert(!better(c, e[old_r[q2 - 1] as int], e[old_r[q1 - 1] as int]));
                        assert(!better(c, e[old_r[q1 - 1] as int], e[old_r[q2 - 1] as int]) ==> old_r[q1 - 1] < old_r[q2 - 1]);
                    } else {
                        assert(!better(c, e[old_r[q2] as int], e[old_r[q1] as int]));
                        assert(!better(c, e[old_r[q1] as int], e[old_r[q2] as int]) ==> old_r[q1] < old_r[q2]);
                    }
                }
                assert forall|q1: int, q2: int| 0 <= q1 < q2 < nr.len() implies #[trigger] nr[q1] != #[trigger] nr[q2] by {
                    if q1 != p && q2 != p {
                        let a = if q1 < p { q1 } else { q1 - 1 };
                        let b = if q2 < p { q2 } else { q2 - 1 };
                        assert(old_r[a] != old_r[b]);
                    }
                }
                assert forall|i: int| 0 <= i < k + 1 implies #[trigger] appears(nr, i) by {
                    if i == k {
                        assert(nr[p as int] == k);
                    } else {
                        assert(appears(old_r, i));
                        let q = choose|q: int| 0 <= q < old_r.len() && old_r[q] == i;
                        if q < p {
                            assert(nr[q] == i);
                        } else {
                            assert(nr[q + 1] == i);
                        }
                    }
                }
            }
            k = k + 1;
        }
        r
    }

    /// The entries in ranked order under an exact criterion.
    pub fn rank_by(&self, c: RankingCriteria) -> (r: Vec<&ContributorStats>)
        requires
            c.is_exact(),
            self.wf(),
        ensures
            is_ranking(self.entries@, deref_all(r@), c),
            deref_all(r@) == ordered_entries(self.entries@, c),
            is_stable_ranking(self.entries@, stable_order(self.entries@, c), c),
    {
        proof {
            self.lemma_wf_scores();
        }
        let idx = self.ranked_indices(c);
        let ghost e = self.entries@;
        let mut r: Vec<&ContributorStats> = Vec::new();
        let mut j: usize = 0;
        while j < idx.len()
            invariant
                e == self.entries@,
                is_permutation(idx@, e.len()),
                j <= idx@.len(),
                r@.len() == j,
                forall|q: int| 0 <= q < j ==> *(#[trigger] r@[q]) == e[idx@[q] as int],
            decreases idx@.len() - j,
        {
            r.push(&self.entries[idx[j]]);
            j = j + 1;
        }
        proof {
            let out = deref_all(r@);
            assert forall|q: int| 0 <= q < out.len() implies out[q] == e[idx@[q] as int] by {}
            assert(out =~= ordered_entries(e, c));
            assert forall|i: int| 0 <= i < e.len() implies out.contains(#[trigger] e[i]) by {
                assert(appears(idx@, i));
                let q = choose|q: int| 0 <= q < idx@.len() && idx@[q] == i;
                assert(out[q] == e[i]);
            }
            assert forall|q: int| 0 <= q < out.len() implies e.contains(#[trigger] out[q]) by {
                assert(e[idx@[q] as int] == out[q]);
            }
        }
        r
    }

    /// Ranked by maximum trace depth, then by uniqueness.
    pub fn rank_by_depth(&self) -> (r: Vec<&ContributorStats>)
        requires
            self.wf(),
        ensures
            is_ranking(self.entries@, deref_all(r@), RankingCriteria::TraceDepth),
            deref_all(r@) == ordered_entries(self.entries@, RankingCriteria::TraceDepth),
            is_stable_ranking(self.entries@, stable_order(self.entries@, RankingCriteria::TraceDepth), RankingCriteria::TraceDepth),
    {
        self.rank_by(RankingCriteria::TraceDepth)
    }

    /// Ranked by uniqueness, then by maximum trace depth.
    pub fn rank_by_uniqueness(&self) -> (r: Vec<&ContributorStats>)
        requires
            self.wf(),
        ensures
            is_ranking(self.entries@, deref_all(r@), RankingCriteria::UniquenessScore),
            deref_all(r@) == ordered_entries(self.entries@, RankingCriteria::UniquenessScore),
            is_stable_ranking(self.entries@, stable_order(self.entries@, RankingCriteria::UniquenessScore), RankingCriteria::UniquenessScore),
    {
        self.rank_by(RankingCriteria::UniquenessScore)
    }

    /// Ranked by number of submissions.
    pub fn rank_by_submissions(&self) -> (r: Vec<&ContributorStats>)
        requires
            self.wf(),
        ensures
            is_ranking(self.entries@, deref_all(r@), RankingCriteria::TotalSubmissions),
            deref_all(r@) == ordered_entries(self.entries@, RankingCriteria::TotalSubmissions),
            is_stable_ranking(self.entries@, stable_order(self.entries@, RankingCriteria::TotalSubmissions), RankingCriteria::TotalSubmissions),
    {
        self.rank_by(RankingCriteria::TotalSubmissions)
    }

    /// Ranked by mean trace depth.
    pub fn rank_by_avg_depth(&self) -> (r: Vec<&ContributorStats>)
        requires
            self.wf(),
        ensures
            is_ranking(self.entries@, deref_all(r@), RankingCriteria::AvgTraceDepth),
            deref_all(r@) == ordered_entries(self.entries@, RankingCriteria::AvgTraceDepth),
            is_stable_ranking(self.entries@, stable_order(self.entries@, RankingCriteria::AvgTraceDepth), RankingCriteria::AvgTraceDepth),
    {
        self.rank_by(RankingCriteria::AvgTraceDepth)
    }

    /// The first `n` entries of the ranking under an exact criterion.
    pub fn get_top_n(&self, n: usize, c: RankingCriteria) -> (r: Vec<&ContributorStats>)
        requires
            c.is_exact(),
            self.wf(),
        ensures
            r@.len() == if n < self.entries@.len() { n as int } else { self.entries@.len() as int },
            is_ranking(self.entries@, ordered_entries(self.entries@, c), c),
            deref_all(r@) == ordered_entries(self.entries@, c).subrange(0, r@.len() as int),
    {
        let ranked = self.rank_by(c);
        let mut r: Vec<&ContributorStats> = Vec::new();
        let mut j: usize = 0;
        while j < ranked.len() && j < n
            invariant
                j <= ranked@.len(),
                j <= n,
                r@.len() == j,
                forall|q: int| 0 <= q < j ==> #[trigger] r@[q] == ranked@[q],
            decreases ranked@.len() - j,
        {
            r.push(ranked[j]);
            j = j + 1;
        }
        proof {
            assert(deref_all(r@) =~= deref_all(ranked@).subrange(0, r@.len() as int));
            assert(deref_all(ranked@) == ordered_entries(self.entries@, c));
        }
        r
    }
}

/// `b` is `a` with possibly another rank.
pub open spec fn same_but_rank(a: ContributorStats, b: ContributorStats) -> bool {
    b == (ContributorStats { rank: b.rank, ..a })
}

/// The entry at `order[q]` holds rank `q + 1`.
pub open spec fn ranks_follow(e: Seq<ContributorStats>, order: Seq<usize>) -> bool {
    forall|q: int| 0 <= q < order.len() ==> (#[trigger] e[order[q] as int]).rank == q + 1
}

proof fn lemma_submissions_same(a: Seq<ContributorStats>, b: Seq<ContributorStats>)
    requires
        a.len() == b.len(),
        forall|i: int| 0 <= i < a.len() ==> (#[trigger] a[i]).total_submissions == b[i].total_submissions,
    ensures
        submissions_sum(a) == submissions_sum(b),
    decreases a.len(),
{
    if a.len() > 0 {
        lemma_submissions_same(a.drop_last(), b.drop_last());
    }
}

impl Leaderboard {
    /// Gives the entry at `order[q]` rank `q + 1`; nothing else changes.
    pub fn apply_ranking(&mut self, order: &Vec<usize>)
        requires
            old(self).wf(),
            is_permutation(order@, old(self).entries@.len()),
        ensures
            final(self).wf(),
            final(self).entries@.len() == old(self).entries@.len(),
            forall|j: int| 0 <= j < old(self).entries@.len() ==> #[trigger] final(self).history(j) == old(self).history(j),
            forall|i: int| 0 <= i < old(self).entries@.len() ==> same_but_rank(#[trigger] old(self).entries@[i], final(self).entries@[i]),
            ranks_follow(final(self).entries@, order@),
    {
        let ghost e = self.entries@;
        let mut j: usize = 0;
        while j < order.len()
            invariant
                is_permutation(order@, e.len()),
                j <= order@.len(),
                self.entries@.len() == e.len(),
                self.histories == old(self).histories,
                e == old(self).entries@,
                forall|i: int| 0 <= i < e.len() ==> same_but_rank(#[trigger] e[i], self.entries@[i]),
                forall|q: int| 0 <= q < j ==> (#[trigger] self.entries@[order@[q] as int]).rank == q + 1,
            decreases order@.len() - j,
        {
            let x = order[j];
            let ghost before = self.entries@;
            self.entries[x].rank = j + 1;
            proof {
                assert forall|q: int| 0 <= q < j + 1 implies (#[trigger] self.entries@[order@[q] as int]).rank == q + 1 by {
                    if q < j {
                        assert(order@[q] != order@[j as int]);
                        assert(self.entries@[order@[q] as int] == before[order@[q] as int]);
                    }
                }
                assert forall|i: int| 0 <= i < e.len() implies same_but_rank(#[trigger] e[i], self.entries@[i]) by {
                    if i != x {
                        assert(self.entries@[i] == before[i]);
                    }
                }
            }
            j = j + 1;
        }
        proof {
            lemma_submissions_same(e, self.entries@);
            assert forall|i: int| 0 <= i < self.entries@.len() implies self.entry_matches(i) by {
                assert(old(self).entry_matches(i));
                assert(same_but_rank(e[i], self.entries@[i]));
            }
            assert forall|a: int, b: int| 0 <= a < b < self.entries@.len() implies (#[trigger] self.entries@[a]).contributor_id@ != (#[trigger] self.entries@[b]).contributor_id@ by {
                assert(same_but_rank(e[a], self.entries@[a]));
                assert(same_but_rank(e[b], self.entries@[b]));
                assert(e[a].contributor_id@ != e[b].contributor_id@);
            }
        }
    }

    /// Sets every entry's rank (1 = best) by its place in the ranking under
    /// an exact criterion; nothing else changes.
    pub fn update_ranks(&mut self, c: RankingCriteria)
        requires
            old(self).wf(),
            c.is_exact(),
        ensures
            final(self).wf(),
            final(self).entries@.len() == old(self).entries@.len(),
            forall|j: int| 0 <= j < old(self).entries@.len() ==> #[trigger] final(self).history(j) == old(self).history(j),
            forall|i: int| 0 <= i < old(self).entries@.len() ==> same_but_rank(#[trigger] old(self).entries@[i], final(self).entries@[i]),
            ranks_follow(final(self).entries@, stable_order(old(self).entries@, c)),
            is_stable_ranking(old(self).entries@, stable_order(old(self).entries@, c), c),
    {
        proof {
            self.lemma_wf_scores();
        }
        let order = self.ranked_indices(c);
        self.apply_ranking(&order);
    }
}

impl Default for Leaderboard {
    fn default() -> (r: Leaderboard)
        ensures
            r.wf(),
            r.entries@.len() == 0,
    {
        Leaderboard::new()
    }
}

proof fn lemma_submissions_bound(e: Seq<ContributorStats>, i: int)
    requires
        0 <= i < e.len(),
    ensures
        e[i].total_submissions <= submissions_sum(e),
    decreases e.len(),
{
    if i < e.len() - 1 {
        lemma_submissions_bound(e.drop_last(), i);
    }
}

proof fn lemma_submissions_update(e: Seq<ContributorStats>, i: int, f: Seq<ContributorStats>)
    requires
        0 <= i < e.len(),
        f.len() == e.len(),
        forall|j: int| 0 <= j < e.len() && j != i ==> f[j] == e[j],
        f[i].total_submissions == e[i].total_submissions + 1,
    ensures
        submissions_sum(f) == submissions_sum(e) + 1,
    decreases e.len(),
{
    if i < e.len() - 1 {
        lemma_submissions_update(e.drop_last(), i, f.drop_last());
    } else {
        assert(f.drop_last() =~= e.drop_last());
    }
}

proof fn lemma_submissions_prefix(e: Seq<ContributorStats>, k: int)
    requires
        0 <= k <= e.len(),
    ensures
        submissions_sum(e.subrange(0, k)) <= submissions_sum(e),
    decreases e.len() - k,
{
    if k < e.len() {
        lemma_submissions_prefix(e, k + 1);
        assert(e.subrange(0, k + 1).drop_last() =~= e.subrange(0, k));
    } else {
        assert(e.subrange(0, k) =~= e);
    }
}

/// After the submissions in a contributor's history, that contributor's
/// mean depth is exactly the sum of the submitted depths over their number,
/// and the submission count is that number.
pub proof fn lemma_mean_depth_exact(lb: Leaderboard, i: int)
    requires
        lb.wf(),
        0 <= i < lb.entries@.len(),
    ensures
        lb.entries@[i].avg_trace_depth.num == depth_sum(lb.history(i)),
        lb.entries@[i].avg_trace_depth.den == lb.history(i).len(),
        lb.entries@[i].total_submissions == lb.history(i).len(),
{
    assert(lb.entry_matches(i));
    lemma_depth_sum_bound(lb.history(i));
    assert(lb.history(i).len() * usize::MAX <= usize::MAX * usize::MAX) by (nonlinear_arith)
        requires
            lb.history(i).len() <= usize::MAX,
    ;
}

proof fn lemma_depth_sum_bound(h: Seq<ProvenanceLog>)
    ensures
        depth_sum(h) <= h.len() * usize::MAX,
    decreases h.len(),
{
    if h.len() > 0 {
        lemma_depth_sum_bound(h.drop_last());
    }
}

} // verus!
