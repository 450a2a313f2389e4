//! The qualification graph: all competitions of one run in processing order,
//! each linked to the competitions that it qualifies into.

use crate::fast;
use crate::itsf::ItsfPlayerDb;
use crate::model::{
    build_competition, is_adjusted, lemma_adjusted_all_ranked, lemma_adjusted_shape, phase_adjusted,
    qualification_ranks, Competition, CompetitionView, TeamKey, TeamView,
};
use vstd::prelude::*;

verus! {

/// Whether two views show the same competition, whatever its links.
pub open spec fn same_competition(a: CompetitionView, b: CompetitionView) -> bool {
    &&& a.index == b.index
    &&& a.source == b.source
    &&& a.teams == b.teams
    &&& a.phases == b.phases
}

/// Whether the link list of competition `k` is exact: it holds, in rising
/// order, the index of every competition that `k` qualifies into, and no
/// other.
pub open spec fn links_exact(comps: Seq<CompetitionView>, k: int) -> bool {
    let list = comps[k].subcomps;
    &&& forall|a: int, b: int| 0 <= a < b < list.len() ==> list[a] < list[b]
    &&& forall|a: int|
        0 <= a < list.len() ==> (#[trigger] list[a]) < comps.len() && comps[k].qualifies_for(
            comps[list[a] as int],
        )
    &&& forall|j: int|
        0 <= j < comps.len() && #[trigger] comps[k].qualifies_for(comps[j]) ==> list.contains(
            j as usize,
        )
}

/// Whether some competition qualifies into competition `k`.
pub open spec fn is_fed(comps: Seq<CompetitionView>, k: int) -> bool {
    exists|j: int| 0 <= j < comps.len() && #[trigger] comps[j].qualifies_for(comps[k])
}

/// Whether the competitions are linked as their team tables say: each has
/// its position as index, an exact link list, and is marked as a
/// sub-competition exactly where some competition qualifies into it.
pub open spec fn linked(comps: Seq<CompetitionView>) -> bool {
    forall|k: int|
        0 <= k < comps.len() ==> {
            &&& (#[trigger] comps[k]).index == k
            &&& links_exact(comps, k)
            &&& comps[k].is_subcomp == is_fed(comps, k)
        }
}

/// Why the rankings of a graph cannot be adjusted.
#[derive(Clone, Copy, Debug, PartialEq, Eq, Structural)]
pub enum GraphError {
    /// The root competition `index` has no phase, so it has no ranking.
    EmptyCompetition { index: usize },
    /// A ranking of `subcompetition` holds a team that the ranking of `root`,
    /// its qualification, does not hold.
    MissingQualificationRank { root: usize, subcompetition: usize },
}

/// Whether competition `r` is a root: no competition qualifies into it.
pub open spec fn is_root(comps: Seq<CompetitionView>, r: int) -> bool {
    0 <= r < comps.len() && !comps[r].is_subcomp
}

/// Whether the `a`-th competition that `r` qualifies into has all its
/// ranked teams in the ranking of `r`.
pub open spec fn link_ranked(comps: Seq<CompetitionView>, r: int, a: int) -> bool {
    comps[comps[r].subcomps[a] as int].ranked_by(qualification_ranks(comps[r]))
}

/// Whether competition `r` can seed the competitions it qualifies into: it
/// has a phase, and its ranking holds every team that they rank.
pub open spec fn can_seed(comps: Seq<CompetitionView>, r: int) -> bool {
    &&& comps[r].phases.len() > 0
    &&& forall|a: int| 0 <= a < comps[r].subcomps.len() ==> #[trigger] link_ranked(comps, r, a)
}

/// Whether every root can seed the competitions it qualifies into.
pub open spec fn all_seedable(comps: Seq<CompetitionView>) -> bool {
    forall|r: int| #[trigger] is_root(comps, r) ==> can_seed(comps, r)
}

/// Whether `r` is the first root that cannot seed.
pub open spec fn first_unseedable(comps: Seq<CompetitionView>, r: int) -> bool {
    &&& is_root(comps, r)
    &&& !can_seed(comps, r)
    &&& forall|q: int| 0 <= q < r && #[trigger] is_root(comps, q) ==> can_seed(comps, q)
}

/// Whether `failure` names what stops the adjustment first: the first root
/// that cannot seed, and, where that root has a phase, the first of its
/// sub-competitions that ranks a team unknown to it.
pub open spec fn is_first_failure(comps: Seq<CompetitionView>, failure: GraphError) -> bool {
    match failure {
        GraphError::EmptyCompetition { index } => {
            &&& first_unseedable(comps, index as int)
            &&& comps[index as int].phases.len() == 0
        },
        GraphError::MissingQualificationRank { root, subcompetition } => {
            &&& first_unseedable(comps, root as int)
            &&& comps[root as int].phases.len() > 0
            &&& exists|a: int| #[trigger]
                first_unranked(comps, root as int, a) && comps[root as int].subcomps[a]
                    == subcompetition
        },
    }
}

/// Whether the `a`-th competition that `r` qualifies into is the first that
/// ranks a team unknown to `r`.
pub open spec fn first_unranked(comps: Seq<CompetitionView>, r: int, a: int) -> bool {
    &&& 0 <= a < comps[r].subcomps.len()
    &&& !link_ranked(comps, r, a)
    &&& forall|b: int| 0 <= b < a ==> #[trigger] link_ranked(comps, r, b)
}

/// Whether `after` comes from `before` by one adjustment after another, one
/// for each map of ranks in `chain`, in that order.
pub open spec fn seeded_by_chain(
    before: Seq<(TeamView, u64)>,
    after: Seq<(TeamView, u64)>,
    chain: Seq<Map<TeamKey, u64>>,
) -> bool
    decreases chain.len(),
{
    if chain.len() == 0 {
        after == before
    } else {
        exists|mid: Seq<(TeamView, u64)>| #[trigger]
            is_adjusted(mid, after, chain.last()) && seeded_by_chain(
                before,
                mid,
                chain.drop_last(),
            )
    }
}

/// The ranks by which competition `c` is seeded, in the order in which they
/// are applied: those of each root among the first `upto` competitions that
/// qualifies into `c`.
pub open spec fn seeding_chain(comps: Seq<CompetitionView>, c: int, upto: int) -> Seq<
    Map<TeamKey, u64>,
>
    decreases upto,
{
    if upto <= 0 {
        Seq::empty()
    } else {
        let rest = seeding_chain(comps, c, upto - 1);
        if !comps[upto - 1].is_subcomp && comps[upto - 1].qualifies_for(comps[c]) {
            rest.push(qualification_ranks(comps[upto - 1]))
        } else {
            rest
        }
    }
}

/// Whether `after` is the competition `before` with nothing changed but the
/// rankings of its phases, and those adjusted by each map of `chain` in turn.
pub open spec fn competition_seeded(
    before: CompetitionView,
    after: CompetitionView,
    chain: Seq<Map<TeamKey, u64>>,
) -> bool {
    &&& same_links(before, after)
    &&& after.phases.len() == before.phases.len()
    &&& forall|p: int|
        0 <= p < before.phases.len() ==> {
            &&& (#[trigger] after.phases[p]).source == before.phases[p].source
            &&& after.phases[p].phase_type == before.phases[p].phase_type
            &&& after.phases[p].matches == before.phases[p].matches
            &&& seeded_by_chain(before.phases[p].ranking, after.phases[p].ranking, chain)
        }
}

/// Whether two views agree on all of a competition but its phases.
pub open spec fn same_links(before: CompetitionView, after: CompetitionView) -> bool {
    &&& after.index == before.index
    &&& after.source == before.source
    &&& after.teams == before.teams
    &&& after.subcomps == before.subcomps
    &&& after.is_subcomp == before.is_subcomp
}

/// Whether `after` is the graph `before` with every competition seeded by
/// the roots that qualify into it.
pub open spec fn graph_seeded(before: Seq<CompetitionView>, after: Seq<CompetitionView>) -> bool {
    &&& after.len() == before.len()
    &&& forall|c: int|
        0 <= c < before.len() ==> competition_seeded(
            before[c],
            #[trigger] after[c],
            seeding_chain(before, c, before.len() as int),
        )
}

/// Whether, in the state `cur`, the `a`-th competition that root `q`
/// qualifies into is ranked by the ranks that `q` had in the state `base`.
pub open spec fn link_ranked_in(
    base: Seq<CompetitionView>,
    cur: Seq<CompetitionView>,
    q: int,
    a: int,
) -> bool {
    cur[base[q].subcomps[a] as int].ranked_by(qualification_ranks(base[q]))
}

/// The chain by which competition `c` is seeded once the roots before `r`
/// are done and root `r` has seeded the competitions in `done`.
pub open spec fn chain_during(
    base: Seq<CompetitionView>,
    c: int,
    r: int,
    done: Seq<usize>,
) -> Seq<Map<TeamKey, u64>> {
    if done.contains(c as usize) {
        seeding_chain(base, c, r + 1)
    } else {
        seeding_chain(base, c, r)
    }
}

/// One more adjustment prolongs the chain by its ranks.
pub proof fn lemma_chain_step(
    before: Seq<(TeamView, u64)>,
    mid: Seq<(TeamView, u64)>,
    after: Seq<(TeamView, u64)>,
    chain: Seq<Map<TeamKey, u64>>,
    quali: Map<TeamKey, u64>,
)
    requires
        seeded_by_chain(before, mid, chain),
        is_adjusted(mid, after, quali),
    ensures
        seeded_by_chain(before, after, chain.push(quali)),
{
    let longer = chain.push(quali);
    assert(longer.len() > 0);
    assert(longer.drop_last() =~= chain);
    assert(longer.last() == quali);
    assert(is_adjusted(mid, after, longer.last()));
    assert(seeded_by_chain(before, mid, longer.drop_last()));
}

/// A chain of adjustments keeps the length of a ranking and the teams of its
/// first four places.
pub proof fn lemma_chain_keeps_top_four(
    before: Seq<(TeamView, u64)>,
    after: Seq<(TeamView, u64)>,
    chain: Seq<Map<TeamKey, u64>>,
)
    requires
        seeded_by_chain(before, after, chain),
        before.len() < u64::MAX,
    ensures
        after.len() == before.len(),
        forall|i: int| 0 <= i < after.len() && i < 4 ==> (#[trigger] after[i]).0 == before[i].0,
    decreases chain.len(),
{
    if chain.len() > 0 {
        let mid = choose|mid: Seq<(TeamView, u64)>| #[trigger]
            is_adjusted(mid, after, chain.last()) && seeded_by_chain(
                before,
                mid,
                chain.drop_last(),
            );
        lemma_chain_keeps_top_four(before, mid, chain.drop_last());
        lemma_adjusted_shape(mid, after, chain.last());
    }
}

/// After a chain of at least one adjustment the ranks run from one, without
/// gap or repeat.
pub proof fn lemma_chain_dense(
    before: Seq<(TeamView, u64)>,
    after: Seq<(TeamView, u64)>,
    chain: Seq<Map<TeamKey, u64>>,
)
    requires
        seeded_by_chain(before, after, chain),
        chain.len() > 0,
        before.len() < u64::MAX,
    ensures
        forall|i: int| 0 <= i < after.len() ==> (#[trigger] after[i]).1 == i + 1,
{
    let mid = choose|mid: Seq<(TeamView, u64)>| #[trigger]
        is_adjusted(mid, after, chain.last()) && seeded_by_chain(before, mid, chain.drop_last());
    lemma_chain_keeps_top_four(before, mid, chain.drop_last());
    lemma_adjusted_shape(mid, after, chain.last());
}

/// No competition of a linked graph is linked to itself.
pub proof fn lemma_no_self_link(comps: Seq<CompetitionView>, k: int)
    requires
        linked(comps),
        0 <= k < comps.len(),
    ensures
        !comps[k].subcomps.contains(k as usize),
{
    assert(links_exact(comps, k));
    if comps[k].subcomps.contains(k as usize) {
        let a = choose|a: int| 0 <= a < comps[k].subcomps.len() && comps[k].subcomps[a] == k as usize;
        assert(comps[k].qualifies_for(comps[comps[k].subcomps[a] as int]));
    }
}

/// The links of a linked graph say which competition qualifies into which:
/// `k` is linked to `j` exactly where `k` is a qualification for `j`, and a
/// competition is marked as sub-competition exactly where it is linked to.
pub proof fn lemma_links_are_qualifications(comps: Seq<CompetitionView>, k: int, j: int)
    requires
        linked(comps),
        0 <= k < comps.len(),
        0 <= j < comps.len(),
    ensures
        comps[k].subcomps.contains(j as usize) <==> comps[k].qualifies_for(comps[j]),
        comps[k].subcomps.contains(j as usize) ==> comps[j].is_subcomp,
{
    assert(links_exact(comps, k));
    if comps[k].subcomps.contains(j as usize) {
        let a = choose|a: int| 0 <= a < comps[k].subcomps.len() && comps[k].subcomps[a] == j as usize;
        assert(comps[k].qualifies_for(comps[comps[k].subcomps[a] as int]));
    }
    if comps[k].qualifies_for(comps[j]) {
        assert(is_fed(comps, j));
    }
}

/// The views of a list of competitions.
pub open spec fn competitions_view(comps: Seq<Competition>) -> Seq<CompetitionView> {
    comps.map_values(|c: Competition| c@)
}

/// All competitions of one run, linked.
pub struct QualificationGraph<'a> {
    competitions: Vec<Competition<'a>>,
}

impl<'a> View for QualificationGraph<'a> {
    type V = Seq<CompetitionView>;

    closed spec fn view(&self) -> Seq<CompetitionView> {
        competitions_view(self.competitions@)
    }
}

impl<'a> QualificationGraph<'a> {
    /// The invariant of the graph.
    pub open spec fn wf(&self) -> bool {
        linked(self@)
    }

    /// A graph without competitions.
    pub fn new() -> (graph: Self)
        ensures
            graph.wf(),
            graph@.len() == 0,
    {
        QualificationGraph { competitions: Vec::new() }
    }

    /// The competitions in processing order.
    pub fn competitions(&self) -> (list: &Vec<Competition<'a>>)
        ensures
            competitions_view(list@) == self@,
    {
        &self.competitions
    }

    /// The number of competitions.
    pub fn len(&self) -> (n: usize)
        ensures
            n == self@.len(),
    {
        self.competitions.len()
    }

    /// The roots in processing order: the indices of the competitions that
    /// no competition qualifies into.
    pub fn roots(&self) -> (indices: Vec<usize>)
        ensures
            forall|a: int, b: int| 0 <= a < b < indices@.len() ==> indices@[a] < indices@[b],
            forall|a: int| 0 <= a < indices@.len() ==> is_root(self@, (#[trigger] indices@[a]) as int),
            forall|r: int| #[trigger] is_root(self@, r) ==> indices@.contains(r as usize),
    {
        let n: usize = self.competitions.len();
        let mut indices: Vec<usize> = Vec::new();
        let mut r: usize = 0;
        while r < n
            invariant
                n == self.competitions@.len(),
                r <= n,
                forall|a: int, b: int| 0 <= a < b < indices@.len() ==> indices@[a] < indices@[b],
                forall|a: int|
                    0 <= a < indices@.len() ==> (#[trigger] indices@[a]) < r && is_root(
                        self@,
                        indices@[a] as int,
                    ),
                forall|q: int| 0 <= q < r && #[trigger] is_root(self@, q) ==> indices@.contains(q as usize),
            decreases n - r,
        {
            assert(self@[r as int] == self.competitions@[r as int]@);
            if !self.competitions[r].is_subcomp {
                let ghost before = indices@;
                indices.push(r);
                assert forall|q: int| 0 <= q < r + 1 && #[trigger] is_root(self@, q) implies indices@.contains(
                    q as usize,
                ) by {
                    if q < r {
                        let a = choose|a: int| 0 <= a < before.len() && before[a] == q as usize;
                        assert(indices@[a] == q as usize);
                    } else {
                        assert(indices@[before.len() as int] == r);
                    }
                }
            }
            r = r + 1;
        }
        indices
    }

    /// What stops the adjustment of the rankings first, if anything does.
    pub fn first_failure(&self) -> (failure: Option<GraphError>)
        requires
            self.wf(),
        ensures
            failure is None <==> all_seedable(self@),
            failure matches Some(e) ==> is_first_failure(self@, e),
    {
        let n: usize = self.competitions.len();
        let mut r: usize = 0;
        while r < n
            invariant
                n == self.competitions@.len(),
                r <= n,
                self.wf(),
                forall|q: int| 0 <= q < r && #[trigger] is_root(self@, q) ==> can_seed(self@, q),
            decreases n - r,
        {
            assert(self@[r as int] == self.competitions@[r as int]@);
            let root = &self.competitions[r];
            if !root.is_subcomp {
                match root.rankings() {
                    None => {
                        assert(is_root(self@, r as int));
                        return Some(GraphError::EmptyCompetition { index: r });
                    },
                    Some(ranks) => {
                        let m: usize = root.subcomps.len();
                        let mut a: usize = 0;
                        while a < m
                            invariant
                                n == self.competitions@.len(),
                                r < n,
                                self.wf(),
                                m == self@[r as int].subcomps.len(),
                                root@ == self@[r as int],
                                is_root(self@, r as int),
                                self@[r as int].phases.len() > 0,
                                ranks@ == qualification_ranks(self@[r as int]),
                                a <= m,
                                forall|q: int|
                                    0 <= q < r && #[trigger] is_root(self@, q) ==> can_seed(
                                        self@,
                                        q,
                                    ),
                                forall|b: int| 0 <= b < a ==> #[trigger] link_ranked(self@, r as int, b),
                            decreases m - a,
                        {
                            assert(links_exact(self@, r as int));
                            let s: usize = root.subcomps[a];
                            assert(s == self@[r as int].subcomps[a as int]);
                            assert(s < n);
                            assert(self@[s as int] == self.competitions@[s as int]@);
                            if !self.competitions[s].ranked_by(&ranks) {
                                proof {
                                    let comps = self@;
                                    let w = a as int;
                                    assert(!link_ranked(comps, r as int, w));
                                    assert(!can_seed(comps, r as int));
                                    assert(first_unseedable(comps, r as int));
                                    assert(comps[r as int].phases.len() > 0);
                                    assert(first_unranked(comps, r as int, w));
                                    assert(comps[r as int].subcomps[w] == s);
                                }
                                return Some(
                                    GraphError::MissingQualificationRank {
                                        root: r,
                                        subcompetition: s,
                                    },
                                );
                            }
                            assert(link_ranked(self@, r as int, a as int));
                            a = a + 1;
                        }
                    },
                }
            }
            r = r + 1;
        }
        None
    }

    /// Seeds the rankings of every competition by the roots that qualify
    /// into it: root after root in processing order, each root its
    /// sub-competitions in the order of its links. Where a root cannot seed,
    /// nothing is changed and the reason is returned.
    pub fn adjust_rankings(&mut self) -> (result: Result<(), GraphError>)
        requires
            old(self).wf(),
        ensures
            final(self).wf(),
            result is Ok <==> all_seedable(old(self)@),
            result is Ok ==> graph_seeded(old(self)@, final(self)@),
            result matches Err(e) ==> is_first_failure(old(self)@, e) && final(self)@ == old(self)@,
    {
        match self.first_failure() {
            Some(e) => Err(e),
            None => {
                self.seed_all();
                Ok(())
            },
        }
    }

    /// Seeds every competition where every root can seed.
    fn seed_all(&mut self)
        requires
            old(self).wf(),
            all_seedable(old(self)@),
        ensures
            final(self).wf(),
            graph_seeded(old(self)@, final(self)@),
    {
        let n: usize = self.competitions.len();
        let ghost base = self@;
        let mut r: usize = 0;
        proof {
            assert forall|q: int, a: int|
                is_root(base, q) && 0 <= a < base[q].subcomps.len() implies #[trigger] link_ranked_in(
                base,
                base,
                q,
                a,
            ) by {
                assert(can_seed(base, q));
                assert(link_ranked(base, q, a));
            }
        }
        while r < n
            invariant
                n == self.competitions@.len(),
                n == base.len(),
                r <= n,
                linked(base),
                all_seedable(base),
                forall|c: int|
                    0 <= c < n ==> competition_seeded(
                        base[c],
                        #[trigger] self@[c],
                        seeding_chain(base, c, r as int),
                    ),
                forall|c: int| 0 <= c < n && !base[c].is_subcomp ==> #[trigger] self@[c] == base[c],
                forall|q: int, a: int|
                    is_root(base, q) && 0 <= a < base[q].subcomps.len() ==> #[trigger] link_ranked_in(
                        base,
                        self@,
                        q,
                        a,
                    ),
            decreases n - r,
        {
            assert(self@[r as int] == self.competitions@[r as int]@);
            if !self.competitions[r].is_subcomp {
                assert(is_root(base, r as int));
                assert(can_seed(base, r as int));
                let ranks = self.competitions[r].rankings().unwrap();
                let subs = self.competitions[r].subcomps();
                let m: usize = subs.len();
                let mut a: usize = 0;
                assert(subs@.take(0).len() == 0);
                while a < m
                    invariant
                        n == self.competitions@.len(),
                        n == base.len(),
                        r < n,
                        linked(base),
                        all_seedable(base),
                        is_root(base, r as int),
                        subs@ == base[r as int].subcomps,
                        m == subs@.len(),
                        a <= m,
                        ranks@ == qualification_ranks(base[r as int]),
                        forall|c: int|
                            0 <= c < n ==> competition_seeded(
                                base[c],
                                #[trigger] self@[c],
                                chain_during(base, c, r as int, subs@.take(a as int)),
                            ),
                        forall|c: int|
                            0 <= c < n && !base[c].is_subcomp ==> #[trigger] self@[c] == base[c],
                        forall|q: int, b: int|
                            is_root(base, q) && 0 <= b < base[q].subcomps.len()
                                ==> #[trigger] link_ranked_in(base, self@, q, b),
                    decreases m - a,
                {
                    let s: usize = subs[a];
                    let ghost cur = self@;
                    proof {
                        assert(links_exact(base, r as int));
                        assert(s == base[r as int].subcomps[a as int]);
                        assert(s < n);
                        assert(base[r as int].qualifies_for(base[s as int]));
                        assert(is_fed(base, s as int));
                        assert(base[s as int].is_subcomp);
                        assert(link_ranked_in(base, cur, r as int, a as int));
                        assert(cur[s as int] == self.competitions@[s as int]@);
                    }
                    self.competitions[s].adjust_final_rankings(&ranks);
                    proof {
                        let next = self@;
                        assert(next[s as int] == self.competitions@[s as int]@);
                        assert forall|c: int| 0 <= c < n && c != s implies #[trigger] next[c]
                            == cur[c] by {
                            assert(next[c] == self.competitions@[c]@);
                        }
                        lemma_seed_step(
                            base,
                            cur,
                            next,
                            r as int,
                            a as int,
                            subs@,
                            ranks@,
                        );
                    }
                    a = a + 1;
                }
                proof {
                    assert(subs@.take(m as int) =~= subs@);
                    assert forall|c: int| 0 <= c < n implies competition_seeded(
                        base[c],
                        #[trigger] self@[c],
                        seeding_chain(base, c, r as int + 1),
                    ) by {
                        assert(links_exact(base, r as int));
                        if !subs@.contains(c as usize) {
                            if base[r as int].qualifies_for(base[c]) {
                                assert(subs@.contains(c as usize));
                            }
                        }
                    }
                }
            }
            r = r + 1;
        }
        proof {
            let after = self@;
            assert forall|k: int| 0 <= k < after.len() implies {
                &&& (#[trigger] after[k]).index == k
                &&& links_exact(after, k)
                &&& after[k].is_subcomp == is_fed(after, k)
            } by {
                lemma_links_kept(base, after, k);
            }
        }
    }

    /// Builds the competition of a raw record, tests it against every
    /// competition before it in both directions, links where one qualifies
    /// into the other, and appends it.
    pub fn add(&mut self, competition: &'a fast::Competition, players: &ItsfPlayerDb)
        requires
            old(self).wf(),
        ensures
            final(self).wf(),
            final(self)@.len() == old(self)@.len() + 1,
            forall|k: int|
                0 <= k < old(self)@.len() ==> same_competition(
                    #[trigger] final(self)@[k],
                    old(self)@[k],
                ),
            same_competition(
                final(self)@[old(self)@.len() as int],
                build_competition(old(self)@.len() as usize, *competition, players@),
            ),
            forall|k: int|
                0 <= k < old(self)@.len() && old(self)@[k].is_subcomp ==> (#[trigger] final(self)@[k]).is_subcomp,
            forall|k: int|
                0 <= k < old(self)@.len() ==> old(self)@[k].subcomps.is_prefix_of(
                    (#[trigger] final(self)@[k]).subcomps,
                ),
    {
        let n: usize = self.competitions.len();
        let ghost base = self@;
        let mut comp = Competition::new(n, competition, players);
        let ghost fresh = comp@;
        let mut i: usize = 0;
        while i < n
            invariant
                n == self.competitions@.len(),
                n == base.len(),
                i <= n,
                linked(base),
                fresh.index == n,
                same_competition(comp@, fresh),
                forall|k: int| 0 <= k < n ==> same_competition(#[trigger] self@[k], base[k]),
                forall|k: int|
                    0 <= k < n ==> (#[trigger] self@[k]).subcomps == (if k < i
                        && base[k].qualifies_for(fresh) {
                        base[k].subcomps.push(n)
                    } else {
                        base[k].subcomps
                    }),
                forall|k: int|
                    0 <= k < n ==> (#[trigger] self@[k]).is_subcomp == (base[k].is_subcomp || (k
                        < i && fresh.qualifies_for(base[k]))),
                forall|a: int, b: int|
                    0 <= a < b < comp@.subcomps.len() ==> comp@.subcomps[a] < comp@.subcomps[b],
                forall|a: int|
                    0 <= a < comp@.subcomps.len() ==> (#[trigger] comp@.subcomps[a]) < i
                        && fresh.qualifies_for(base[comp@.subcomps[a] as int]),
                forall|j: int|
                    0 <= j < i && #[trigger] fresh.qualifies_for(base[j])
                        ==> comp@.subcomps.contains(j as usize),
                comp@.is_subcomp <==> exists|j: int|
                    0 <= j < i && #[trigger] base[j].qualifies_for(fresh),
            decreases n - i,
        {
            let ghost before = self@;
            let ghost comp_before = comp@;
            assert(before[i as int] == self.competitions@[i as int]@);
            comp.maybe_add_subcompetition(&mut self.competitions[i]);
            let ghost comp_mid = comp@;
            assert(self@[i as int] == self.competitions@[i as int]@);
            self.competitions[i].maybe_add_subcompetition(&mut comp);
            proof {
                let after = self@;
                assert(after[i as int] == self.competitions@[i as int]@);
                assert forall|k: int| 0 <= k < n && k != i implies #[trigger] after[k]
                    == before[k] by {
                    assert(after[k] == self.competitions@[k]@);
                }
                assert(comp_before.qualifies_for(before[i as int]) == fresh.qualifies_for(
                    base[i as int],
                ));
                assert(before[i as int].qualifies_for(comp_mid) == base[i as int].qualifies_for(
                    fresh,
                ));
                if fresh.qualifies_for(base[i as int]) {
                    assert(comp@.subcomps == comp_before.subcomps.push(i));
                    assert forall|j: int|
                        0 <= j < i + 1 && #[trigger] fresh.qualifies_for(
                            base[j],
                        ) implies comp@.subcomps.contains(j as usize) by {
                        if j < i {
                            let a = choose|a: int|
                                0 <= a < comp_before.subcomps.len() && comp_before.subcomps[a]
                                    == j as usize;
                            assert(comp@.subcomps[a] == j as usize);
                        } else {
                            assert(comp@.subcomps[comp_before.subcomps.len() as int] == i);
                        }
                    }
                } else {
                    assert(comp@.subcomps == comp_before.subcomps);
                }
            }
            i = i + 1;
        }
        let ghost before = self@;
        let ghost last = comp@;
        self.competitions.push(comp);
        proof {
            let after = self@;
            assert(after.len() == n + 1);
            assert(after[n as int] == last);
            assert forall|k: int| 0 <= k < n implies #[trigger] after[k] == before[k] by {
                assert(after[k] == self.competitions@[k]@);
            }
            assert forall|k: int| 0 <= k < after.len() implies {
                &&& (#[trigger] after[k]).index == k
                &&& links_exact(after, k)
                &&& after[k].is_subcomp == is_fed(after, k)
            } by {
                lemma_links_after_add(base, fresh, after, k);
            }
        }
    }
}

/// The links after a competition was added are exact.
proof fn lemma_links_after_add(
    base: Seq<CompetitionView>,
    fresh: CompetitionView,
    after: Seq<CompetitionView>,
    k: int,
)
    requires
        linked(base),
        fresh.index == base.len(),
        after.len() == base.len() + 1,
        0 <= k < after.len(),
        forall|j: int| 0 <= j < base.len() ==> same_competition(#[trigger] after[j], base[j]),
        same_competition(after[base.len() as int], fresh),
        forall|j: int|
            0 <= j < base.len() ==> (#[trigger] after[j]).subcomps == (if base[j].qualifies_for(
                fresh,
            ) {
                base[j].subcomps.push(base.len() as usize)
            } else {
                base[j].subcomps
            }),
        forall|j: int|
            0 <= j < base.len() ==> (#[trigger] after[j]).is_subcomp == (base[j].is_subcomp
                || fresh.qualifies_for(base[j])),
        forall|a: int, b: int|
            0 <= a < b < after[base.len() as int].subcomps.len() ==> after[base.len() as int].subcomps[a]
                < after[base.len() as int].subcomps[b],
        forall|a: int|
            0 <= a < after[base.len() as int].subcomps.len() ==> (
            #[trigger] after[base.len() as int].subcomps[a]) < base.len() && fresh.qualifies_for(
                base[after[base.len() as int].subcomps[a] as int],
            ),
        forall|j: int|
            0 <= j < base.len() && #[trigger] fresh.qualifies_for(base[j])
                ==> after[base.len() as int].subcomps.contains(j as usize),
        after[base.len() as int].is_subcomp <==> exists|j: int|
            0 <= j < base.len() && #[trigger] base[j].qualifies_for(fresh),
    ensures
        after[k].index == k,
        links_exact(after, k),
        after[k].is_subcomp == is_fed(after, k),
{
    let n = base.len() as int;
    assert forall|a: int, b: int| 0 <= a < after.len() && 0 <= b < after.len() implies (
    #[trigger] after[a]).qualifies_for(#[trigger] after[b]) == (if a < n {
        base[a]
    } else {
        fresh
    }).qualifies_for(
        if b < n {
            base[b]
        } else {
            fresh
        },
    ) by {}
    let list = after[k].subcomps;
    if k < n {
        assert(links_exact(base, k));
        let old_list = base[k].subcomps;
        assert forall|j: int|
            0 <= j < after.len() && #[trigger] after[k].qualifies_for(
                after[j],
            ) implies list.contains(j as usize) by {
            if j < n {
                assert(base[k].qualifies_for(base[j]));
                assert(old_list.contains(j as usize));
                let a = choose|a: int| 0 <= a < old_list.len() && old_list[a] == j as usize;
                assert(list[a] == j as usize);
            } else {
                assert(list[old_list.len() as int] == n as usize);
            }
        }
        assert forall|a: int| 0 <= a < list.len() implies (#[trigger] list[a]) < after.len()
            && after[k].qualifies_for(after[list[a] as int]) by {
            if a < old_list.len() {
                assert(old_list[a] < n);
            }
        }
        assert forall|a: int, b: int| 0 <= a < b < list.len() implies list[a] < list[b] by {
            if b < old_list.len() {
            } else {
                assert(old_list[a] < n);
            }
        }
        if after[k].is_subcomp {
            if base[k].is_subcomp {
                assert(is_fed(base, k));
                let j = choose|j: int| 0 <= j < n && #[trigger] base[j].qualifies_for(base[k]);
                assert(after[j].qualifies_for(after[k]));
            } else {
                assert(after[n].qualifies_for(after[k]));
            }
        }
        if is_fed(after, k) {
            let j = choose|j: int|
                0 <= j < after.len() && #[trigger] after[j].qualifies_for(after[k]);
            if j < n {
                assert(base[j].qualifies_for(base[k]));
                assert(is_fed(base, k));
            }
        }
    } else {
        assert forall|j: int|
            0 <= j < after.len() && #[trigger] after[k].qualifies_for(
                after[j],
            ) implies list.contains(j as usize) by {
            assert(j < n);
            assert(fresh.qualifies_for(base[j]));
        }
        assert forall|a: int| 0 <= a < list.len() implies (#[trigger] list[a]) < after.len()
            && after[k].qualifies_for(after[list[a] as int]) by {}
        if after[k].is_subcomp {
            let j = choose|j: int| 0 <= j < n && #[trigger] base[j].qualifies_for(fresh);
            assert(after[j].qualifies_for(after[k]));
        }
        if is_fed(after, k) {
            let j = choose|j: int|
                0 <= j < after.len() && #[trigger] after[j].qualifies_for(after[k]);
            assert(j < n);
            assert(base[j].qualifies_for(fresh));
        }
    }
}

/// Links that are exact stay exact where nothing changes but the phases.
proof fn lemma_links_kept(base: Seq<CompetitionView>, after: Seq<CompetitionView>, k: int)
    requires
        linked(base),
        after.len() == base.len(),
        0 <= k < base.len(),
        forall|c: int| 0 <= c < base.len() ==> same_links(base[c], #[trigger] after[c]),
    ensures
        after[k].index == k,
        links_exact(after, k),
        after[k].is_subcomp == is_fed(after, k),
{
    assert forall|a: int, b: int| 0 <= a < after.len() && 0 <= b < after.len() implies (
    #[trigger] after[a]).qualifies_for(#[trigger] after[b]) == base[a].qualifies_for(base[b]) by {}
    assert(links_exact(base, k));
    let list = after[k].subcomps;
    assert forall|j: int|
        0 <= j < after.len() && #[trigger] after[k].qualifies_for(after[j]) implies list.contains(
        j as usize,
    ) by {
        assert(base[k].qualifies_for(base[j]));
    }
    assert forall|a: int| 0 <= a < list.len() implies (#[trigger] list[a]) < after.len()
        && after[k].qualifies_for(after[list[a] as int]) by {
        assert(base[k].qualifies_for(base[list[a] as int]));
    }
    if is_fed(base, k) {
        let j = choose|j: int| 0 <= j < base.len() && #[trigger] base[j].qualifies_for(base[k]);
        assert(after[j].qualifies_for(after[k]));
    }
    if is_fed(after, k) {
        let j = choose|j: int| 0 <= j < after.len() && #[trigger] after[j].qualifies_for(after[k]);
        assert(base[j].qualifies_for(base[k]));
    }
}

/// What holds of the graph after root `r` has seeded its `a`-th
/// sub-competition.
proof fn lemma_seed_step(
    base: Seq<CompetitionView>,
    cur: Seq<CompetitionView>,
    next: Seq<CompetitionView>,
    r: int,
    a: int,
    subs: Seq<usize>,
    ranks: Map<TeamKey, u64>,
)
    requires
        linked(base),
        cur.len() == base.len(),
        next.len() == base.len(),
        is_root(base, r),
        subs == base[r].subcomps,
        0 <= a < subs.len(),
        ranks == qualification_ranks(base[r]),
        forall|c: int|
            0 <= c < base.len() ==> competition_seeded(
                base[c],
                #[trigger] cur[c],
                chain_during(base, c, r, subs.take(a)),
            ),
        forall|c: int| 0 <= c < base.len() && !base[c].is_subcomp ==> #[trigger] cur[c] == base[c],
        forall|q: int, b: int|
            is_root(base, q) && 0 <= b < base[q].subcomps.len() ==> #[trigger] link_ranked_in(
                base,
                cur,
                q,
                b,
            ),
        forall|c: int| 0 <= c < base.len() && c != subs[a] ==> #[trigger] next[c] == cur[c],
        same_links(cur[subs[a] as int], next[subs[a] as int]),
        next[subs[a] as int].phases.len() == cur[subs[a] as int].phases.len(),
        forall|p: int|
            0 <= p < next[subs[a] as int].phases.len() ==> phase_adjusted(
                cur[subs[a] as int].phases[p],
                #[trigger] next[subs[a] as int].phases[p],
                ranks,
            ),
    ensures
        forall|c: int|
            0 <= c < base.len() ==> competition_seeded(
                base[c],
                #[trigger] next[c],
                chain_during(base, c, r, subs.take(a + 1)),
            ),
        forall|c: int| 0 <= c < base.len() && !base[c].is_subcomp ==> #[trigger] next[c] == base[c],
        forall|q: int, b: int|
            is_root(base, q) && 0 <= b < base[q].subcomps.len() ==> #[trigger] link_ranked_in(
                base,
                next,
                q,
                b,
            ),
{
    let s = subs[a] as int;
    let n = base.len() as int;
    assert(links_exact(base, r));
    assert(0 <= s < n);
    assert(base[r].qualifies_for(base[s]));
    assert(is_fed(base, s));
    assert(base[s].is_subcomp);
    let done = subs.take(a);
    let more = subs.take(a + 1);
    assert(more =~= done.push(subs[a]));
    assert(!done.contains(subs[a])) by {
        if done.contains(subs[a]) {
            let i = choose|i: int| 0 <= i < done.len() && done[i] == subs[a];
            assert(subs[i] < subs[a]);
        }
    }
    assert(more.contains(subs[a])) by {
        assert(more[a] == subs[a]);
    }
    assert forall|x: usize| x != subs[a] implies done.contains(x) == #[trigger] more.contains(
        x,
    ) by {
        if done.contains(x) {
            let i = choose|i: int| 0 <= i < done.len() && done[i] == x;
            assert(more[i] == x);
        }
        if more.contains(x) {
            let i = choose|i: int| 0 <= i < more.len() && more[i] == x;
            assert(i < a);
            assert(done[i] == x);
        }
    }
    let chain = seeding_chain(base, s, r);
    assert(seeding_chain(base, s, r + 1) == chain.push(ranks));
    assert forall|c: int| 0 <= c < n implies competition_seeded(
        base[c],
        #[trigger] next[c],
        chain_during(base, c, r, more),
    ) by {
        if c == s {
            assert(competition_seeded(base[s], cur[s], chain));
            assert forall|p: int| 0 <= p < base[s].phases.len() implies {
                &&& (#[trigger] next[s].phases[p]).source == base[s].phases[p].source
                &&& next[s].phases[p].phase_type == base[s].phases[p].phase_type
                &&& next[s].phases[p].matches == base[s].phases[p].matches
                &&& seeded_by_chain(
                    base[s].phases[p].ranking,
                    next[s].phases[p].ranking,
                    chain.push(ranks),
                )
            } by {
                assert(phase_adjusted(cur[s].phases[p], next[s].phases[p], ranks));
                assert(seeded_by_chain(base[s].phases[p].ranking, cur[s].phases[p].ranking, chain));
                lemma_chain_step(
                    base[s].phases[p].ranking,
                    cur[s].phases[p].ranking,
                    next[s].phases[p].ranking,
                    chain,
                    ranks,
                );
            }
        } else {
            assert(next[c] == cur[c]);
            assert(done.contains(c as usize) == more.contains(c as usize));
        }
    }
    assert forall|q: int, b: int|
        is_root(base, q) && 0 <= b < base[q].subcomps.len() implies #[trigger] link_ranked_in(
        base,
        next,
        q,
        b,
    ) by {
        assert(link_ranked_in(base, cur, q, b));
        assert(links_exact(base, q));
        let t = base[q].subcomps[b] as int;
        assert(0 <= t < n);
        if t == s {
            let other = qualification_ranks(base[q]);
            assert forall|p: int| 0 <= p < next[s].phases.len() implies crate::model::all_ranked(
                (#[trigger] next[s].phases[p]).ranking,
                other,
            ) by {
                assert(phase_adjusted(cur[s].phases[p], next[s].phases[p], ranks));
                assert(crate::model::all_ranked(cur[s].phases[p].ranking, other));
                lemma_adjusted_all_ranked(
                    cur[s].phases[p].ranking,
                    next[s].phases[p].ranking,
                    ranks,
                    other,
                );
            }
        } else {
            assert(next[t] == cur[t]);
        }
    }
}

} // verus!
