//! Orchestration of the two-stage pipeline: candidates are grouped by
//! size, then each size-equal group is grouped by content digest, and
//! the digest-equal groups are reported, members sorted when the option
//! is set.
//!
//! Key extraction touches the filesystem, so the pipeline is driven from
//! outside: the caller supplies the size outcomes of all candidates,
//! then repeatedly takes a size-equal group and supplies the hash
//! outcomes of its members.

use vstd::prelude::*;

use crate::grouping::Outcome;
use crate::grouping::disjoint_by_filter_map;
use crate::grouping::failures;
use crate::grouping::group_of;
use crate::grouping::groups_of;
use crate::grouping::lemma_group_covers;
use crate::grouping::lemma_group_of_permutation;
use crate::grouping::lemma_grouping_complete;
use crate::grouping::lemma_grouping_permutation;
use crate::grouping::lemma_grouping_sound;
use crate::grouping::lemma_retained_covers;
use crate::grouping::lemma_retained_members;
use crate::grouping::lemma_retained_permutation;
use crate::grouping::reported_keys;
use crate::grouping::retained;
use crate::keys::Digest;
use crate::sorting::lemma_sort_spec_contains;
use crate::sorting::lemma_sort_spec_permutes;
use crate::sorting::lemma_sort_spec_sorted;
use crate::sorting::sort_paths;
use crate::sorting::sort_spec;
use crate::sorting::sorted_le;

verus! {

/// A reported group's members, sorted when the option is set.
pub open spec fn finished_group(g: Seq<String>, sort_vec: bool) -> Seq<String> {
    if sort_vec {
        sort_spec(g)
    } else {
        g
    }
}

/// The groups that the hash stage reports for one size-equal group,
/// given the hash outcomes supplied for its members.
pub open spec fn hash_stage_groups(
    outs: Seq<(Outcome<Digest>, String)>,
    sort_vec: bool,
) -> Seq<Seq<String>> {
    groups_of(retained(outs), 1).map_values(|g: Seq<String>| finished_group(g, sort_vec))
}

/// The hash outcomes of a group's members under one fixed oracle: what
/// one run of the content-hash extractor answers for each path.
pub open spec fn oracle_outcomes(g: Seq<String>, ho: spec_fn(String) -> Outcome<Digest>) -> Seq<
    (Outcome<Digest>, String),
> {
    g.map_values(|p: String| (ho(p), p))
}

/// The hash-stage groups of every size-equal group in turn, concatenated
/// in stage-one order.
pub open spec fn flatten_stage2(
    sgs: Seq<Seq<String>>,
    ho: spec_fn(String) -> Outcome<Digest>,
    sort_vec: bool,
) -> Seq<Seq<String>>
    decreases sgs.len(),
{
    if sgs.len() == 0 {
        Seq::empty()
    } else {
        hash_stage_groups(oracle_outcomes(sgs[0], ho), sort_vec) + flatten_stage2(
            sgs.drop_first(),
            ho,
            sort_vec,
        )
    }
}

/// Every group that the whole two-stage pipeline reports, given the size
/// outcomes of the candidates and the hash oracle.
pub open spec fn pipeline_groups(
    size_outs: Seq<(Outcome<u64>, String)>,
    ho: spec_fn(String) -> Outcome<Digest>,
    sort_vec: bool,
) -> Seq<Seq<String>> {
    flatten_stage2(groups_of(retained(size_outs), 1), ho, sort_vec)
}

/// The pipeline's state between two steps of its driver.
pub struct Pipeline {
    sort_vec: bool,
    sized: bool,
    pending: Vec<Vec<String>>,
    results: Vec<Vec<String>>,
}

impl Pipeline {
    /// Whether each reported group's members are to be sorted.
    pub closed spec fn sort_option(self) -> bool {
        self.sort_vec
    }

    /// Whether the size stage has run.
    pub closed spec fn size_stage_done(self) -> bool {
        self.sized
    }

    /// The size-equal groups whose members still await hashing.
    pub closed spec fn pending_view(self) -> Seq<Seq<String>> {
        self.pending@.map_values(|g: Vec<String>| g@)
    }

    /// The duplicate groups reported so far.
    pub closed spec fn results_view(self) -> Seq<Seq<String>> {
        self.results@.map_values(|g: Vec<String>| g@)
    }

    /// A fresh pipeline: nothing grouped, nothing pending.
    pub fn new(sort_vec: bool) -> (p: Pipeline)
        ensures
            p.sort_option() == sort_vec,
            !p.size_stage_done(),
            p.pending_view() == Seq::<Seq<String>>::empty(),
            p.results_view() == Seq::<Seq<String>>::empty(),
    {
        let p = Pipeline { sort_vec, sized: false, pending: Vec::new(), results: Vec::new() };
        proof {
            assert(p.pending_view() =~= Seq::<Seq<String>>::empty());
            assert(p.results_view() =~= Seq::<Seq<String>>::empty());
        }
        p
    }

    /// The size stage: group the candidates by their size outcome with
    /// threshold one; the size-equal groups await hashing, and the
    /// failing candidates come back as diagnostics.
    pub fn supply_sizes(&mut self, outcomes: Vec<(Outcome<u64>, String)>) -> (diags: Vec<
        (String, String),
    >)
        requires
            !old(self).size_stage_done(),
        ensures
            final(self).size_stage_done(),
            final(self).sort_option() == old(self).sort_option(),
            final(self).results_view() == old(self).results_view(),
            final(self).pending_view() == groups_of(retained(outcomes@), 1),
            diags@ == failures(outcomes@),
    {
        let (groups, diags) = disjoint_by_filter_map(outcomes, 1);
        self.pending = groups;
        self.sized = true;
        diags
    }

    /// Hand out the next size-equal group whose members need hashing.
    pub fn take_request(&mut self) -> (r: Option<Vec<String>>)
        ensures
            final(self).sort_option() == old(self).sort_option(),
            final(self).size_stage_done() == old(self).size_stage_done(),
            final(self).results_view() == old(self).results_view(),
            (match r {
                Some(g) => old(self).pending_view().len() > 0 && g@ == old(
                    self,
                ).pending_view()[0] && final(self).pending_view() == old(
                    self,
                ).pending_view().drop_first(),
                None => old(self).pending_view().len() == 0 && final(self).pending_view() == old(
                    self,
                ).pending_view(),
            }),
    {
        if self.pending.len() == 0 {
            None
        } else {
            let ghost pend0 = self.pending@;
            let g = self.pending.remove(0);
            proof {
                assert(self.pending@.map_values(|g2: Vec<String>| g2@) =~= pend0.map_values(
                    |g2: Vec<String>| g2@,
                ).drop_first());
            }
            Some(g)
        }
    }

    /// The hash stage for one size-equal group: group the supplied hash
    /// outcomes by digest with threshold one, sort each reported group's
    /// members if the option is set, and append the groups to the
    /// results; the failing candidates come back as diagnostics.
    pub fn supply_hashes(&mut self, outcomes: Vec<(Outcome<Digest>, String)>) -> (diags: Vec<
        (String, String),
    >)
        requires
            old(self).size_stage_done(),
        ensures
            final(self).sort_option() == old(self).sort_option(),
            final(self).size_stage_done(),
            final(self).pending_view() == old(self).pending_view(),
            final(self).results_view() == old(self).results_view() + hash_stage_groups(
                outcomes@,
                old(self).sort_option(),
            ),
            diags@ == failures(outcomes@),
    {
        let (groups, diags) = disjoint_by_filter_map(outcomes, 1);
        let mut groups = groups;
        let ghost gs = groups@.map_values(|g: Vec<String>| g@);
        let ghost res0 = self.results@.map_values(|g: Vec<String>| g@);
        let ghost pend0 = self.pending@;
        let ghost sort0 = self.sort_vec;
        let ghost mut n: int = 0;
        while groups.len() > 0
            invariant
                0 <= n <= gs.len(),
                groups@.map_values(|g: Vec<String>| g@) == gs.skip(n),
                self.sort_vec == sort0,
                self.sized,
                self.pending@ == pend0,
                self.results@.map_values(|g: Vec<String>| g@) == res0 + gs.take(n).map_values(
                    |g: Seq<String>| finished_group(g, sort0),
                ),
            decreases groups.len(),
        {
            let ghost grs0 = groups@;
            proof {
                assert(groups@.map_values(|g: Vec<String>| g@).len() == groups@.len());
            }
            let g = groups.remove(0);
            proof {
                let vf = |g2: Vec<String>| g2@;
                assert(g == grs0[0]);
                assert(grs0.map_values(vf)[0] == vf(grs0[0]));
                assert(g@ == gs[n]);
                assert forall|w: int| 0 <= w < groups@.len() implies vf(groups@[w]) == gs.skip(
                    n + 1,
                )[w] by {
                    assert(groups@[w] == grs0[w + 1]);
                    assert(grs0.map_values(vf)[w + 1] == vf(grs0[w + 1]));
                    assert(gs.skip(n)[w + 1] == gs[n + 1 + w]);
                    assert(gs.skip(n + 1)[w] == gs[n + 1 + w]);
                }
                assert(groups@.map_values(vf) =~= gs.skip(n + 1));
                assert(gs.take(n + 1).drop_last() =~= gs.take(n));
                assert(gs.take(n + 1).last() == gs[n]);
            }
            let ghost res_before = self.results@;
            if self.sort_vec {
                let sg = sort_paths(g);
                self.results.push(sg);
                proof {
                    assert(sg@ == finished_group(gs[n], sort0));
                }
            } else {
                self.results.push(g);
                proof {
                    assert(self.results@.last()@ == finished_group(gs[n], sort0));
                }
            }
            proof {
                let vf = |g2: Vec<String>| g2@;
                let ff = |g2: Seq<String>| finished_group(g2, sort0);
                assert(self.results@.map_values(vf) =~= res_before.map_values(vf).push(
                    ff(gs[n]),
                ));
                assert(gs.take(n + 1).map_values(ff) =~= gs.take(n).map_values(ff).push(
                    ff(gs[n]),
                ));
                assert(res0 + gs.take(n + 1).map_values(ff) =~= (res0 + gs.take(n).map_values(
                    ff,
                )).push(ff(gs[n])));
                n = n + 1;
            }
        }
        proof {
            assert(gs.take(n) =~= gs);
            let ff = |g2: Seq<String>| finished_group(g2, sort0);
            assert(gs.map_values(ff) =~= hash_stage_groups(outcomes@, sort0));
        }
        diags
    }

    /// Consume the pipeline and yield every reported duplicate group.
    pub fn finish(self) -> (r: Vec<Vec<String>>)
        ensures
            r@.map_values(|g: Vec<String>| g@) == self.results_view(),
    {
        self.results
    }
}

/// Each group of the flattened pipeline output is one hash-stage group
/// of one size-equal group.
proof fn lemma_flatten_member(
    sgs: Seq<Seq<String>>,
    ho: spec_fn(String) -> Outcome<Digest>,
    sort_vec: bool,
    i: int,
)
    requires
        0 <= i < flatten_stage2(sgs, ho, sort_vec).len(),
    ensures
        exists|w: int, l: int|
            #![auto]
            0 <= w < sgs.len() && 0 <= l < hash_stage_groups(
                oracle_outcomes(sgs[w], ho),
                sort_vec,
            ).len() && flatten_stage2(sgs, ho, sort_vec)[i] == hash_stage_groups(
                oracle_outcomes(sgs[w], ho),
                sort_vec,
            )[l],
    decreases sgs.len(),
{
    let head = hash_stage_groups(oracle_outcomes(sgs[0], ho), sort_vec);
    if i < head.len() {
        assert(flatten_stage2(sgs, ho, sort_vec)[i] == head[i]);
        assert(0 <= 0 < sgs.len() && 0 <= i < hash_stage_groups(
            oracle_outcomes(sgs[0], ho),
            sort_vec,
        ).len() && flatten_stage2(sgs, ho, sort_vec)[i] == hash_stage_groups(
            oracle_outcomes(sgs[0], ho),
            sort_vec,
        )[i]);
    } else {
        lemma_flatten_member(sgs.drop_first(), ho, sort_vec, i - head.len());
        let (w, l) = choose|w: int, l: int|
            #![auto]
            0 <= w < sgs.drop_first().len() && 0 <= l < hash_stage_groups(
                oracle_outcomes(sgs.drop_first()[w], ho),
                sort_vec,
            ).len() && flatten_stage2(sgs.drop_first(), ho, sort_vec)[i - head.len()]
                == hash_stage_groups(oracle_outcomes(sgs.drop_first()[w], ho), sort_vec)[l];
        assert(sgs.drop_first()[w] == sgs[w + 1]);
        assert(flatten_stage2(sgs, ho, sort_vec)[i] == flatten_stage2(
            sgs.drop_first(),
            ho,
            sort_vec,
        )[i - head.len()]);
        assert(0 <= w + 1 < sgs.len() && 0 <= l < hash_stage_groups(
            oracle_outcomes(sgs[w + 1], ho),
            sort_vec,
        ).len() && flatten_stage2(sgs, ho, sort_vec)[i] == hash_stage_groups(
            oracle_outcomes(sgs[w + 1], ho),
            sort_vec,
        )[l]);
    }
}

/// Each hash-stage group of each size-equal group appears in the
/// flattened pipeline output.
proof fn lemma_flatten_covers(
    sgs: Seq<Seq<String>>,
    ho: spec_fn(String) -> Outcome<Digest>,
    sort_vec: bool,
    w: int,
    l: int,
)
    requires
        0 <= w < sgs.len(),
        0 <= l < hash_stage_groups(oracle_outcomes(sgs[w], ho), sort_vec).len(),
    ensures
        exists|i: int|
            #![auto]
            0 <= i < flatten_stage2(sgs, ho, sort_vec).len() && flatten_stage2(sgs, ho, sort_vec)[i]
                == hash_stage_groups(oracle_outcomes(sgs[w], ho), sort_vec)[l],
    decreases sgs.len(),
{
    let head = hash_stage_groups(oracle_outcomes(sgs[0], ho), sort_vec);
    let whole = flatten_stage2(sgs, ho, sort_vec);
    if w == 0 {
        assert(whole[l] == head[l]);
    } else {
        assert(sgs.drop_first()[w - 1] == sgs[w]);
        lemma_flatten_covers(sgs.drop_first(), ho, sort_vec, w - 1, l);
        let i = choose|i: int|
            #![auto]
            0 <= i < flatten_stage2(sgs.drop_first(), ho, sort_vec).len() && flatten_stage2(
                sgs.drop_first(),
                ho,
                sort_vec,
            )[i] == hash_stage_groups(oracle_outcomes(sgs.drop_first()[w - 1], ho), sort_vec)[l];
        assert(whole[head.len() + i] == flatten_stage2(sgs.drop_first(), ho, sort_vec)[i]);
    }
}

/// The two runs of an unmodified tree: the reported groups are a
/// function of the supplied outcomes alone, so runs whose candidates
/// come in the same order with the same outcomes report the same groups.
pub proof fn lemma_pipeline_deterministic(
    size_outs1: Seq<(Outcome<u64>, String)>,
    size_outs2: Seq<(Outcome<u64>, String)>,
    ho1: spec_fn(String) -> Outcome<Digest>,
    ho2: spec_fn(String) -> Outcome<Digest>,
    sort_vec: bool,
)
    requires
        size_outs1 == size_outs2,
        forall|p: String| #[trigger] ho1(p) == ho2(p),
    ensures
        pipeline_groups(size_outs1, ho1, sort_vec) == pipeline_groups(size_outs2, ho2, sort_vec),
{
    assert(ho1 =~= ho2);
}

/// With and without the sort option, group for group the same members
/// are reported: the option only orders each group, lexicographically.
pub proof fn lemma_pipeline_sort_option(
    size_outs: Seq<(Outcome<u64>, String)>,
    ho: spec_fn(String) -> Outcome<Digest>,
    i: int,
)
    ensures
        pipeline_groups(size_outs, ho, true).len() == pipeline_groups(size_outs, ho, false).len(),
        0 <= i < pipeline_groups(size_outs, ho, false).len() ==> pipeline_groups(
            size_outs,
            ho,
            true,
        )[i] == sort_spec(pipeline_groups(size_outs, ho, false)[i]),
        0 <= i < pipeline_groups(size_outs, ho, false).len() ==> sorted_le(
            pipeline_groups(size_outs, ho, true)[i],
        ),
        0 <= i < pipeline_groups(size_outs, ho, false).len() ==> forall|y: String|
            pipeline_groups(size_outs, ho, true)[i].contains(y) <==> pipeline_groups(
                size_outs,
                ho,
                false,
            )[i].contains(y),
{
    let sgs = groups_of(retained(size_outs), 1);
    lemma_flatten_sort_pointwise(sgs, ho, i);
    if 0 <= i < pipeline_groups(size_outs, ho, false).len() {
        lemma_sort_spec_sorted(pipeline_groups(size_outs, ho, false)[i]);
        assert forall|y: String|
            pipeline_groups(size_outs, ho, true)[i].contains(y) <==> pipeline_groups(
                size_outs,
                ho,
                false,
            )[i].contains(y) by {
            lemma_sort_spec_contains(pipeline_groups(size_outs, ho, false)[i], y);
        }
    }
}

/// One oracle's outcomes for a group's members do not depend on the
/// members' order, multiplicities included.
proof fn lemma_oracle_outcomes_permutation(
    g1: Seq<String>,
    g2: Seq<String>,
    ho: spec_fn(String) -> Outcome<Digest>,
)
    requires
        g1.to_multiset() == g2.to_multiset(),
    ensures
        oracle_outcomes(g1, ho).to_multiset() == oracle_outcomes(g2, ho).to_multiset(),
    decreases g1.len(),
{
    g1.to_multiset_ensures();
    g2.to_multiset_ensures();
    if g1.len() == 0 {
        assert(g2.len() == 0);
        assert(oracle_outcomes(g1, ho) =~= oracle_outcomes(g2, ho));
    } else {
        let e = g1.last();
        assert(g1.contains(e));
        assert(g2.to_multiset().count(e) > 0);
        assert(g2.contains(e));
        let i = choose|i: int| 0 <= i < g2.len() && g2[i] == e;
        assert(g1.drop_last() =~= g1.remove(g1.len() - 1));
        assert(g1.drop_last().to_multiset() =~= g2.remove(i).to_multiset());
        lemma_oracle_outcomes_permutation(g1.drop_last(), g2.remove(i), ho);
        let o1 = oracle_outcomes(g1, ho);
        let o2 = oracle_outcomes(g2, ho);
        assert(oracle_outcomes(g1.drop_last(), ho) =~= o1.drop_last());
        assert forall|n: int|
            0 <= n < g2.remove(i).len() implies oracle_outcomes(g2.remove(i), ho)[n] == o2.remove(
            i,
        )[n] by {
            if n < i {
                assert(g2.remove(i)[n] == g2[n]);
                assert(o2.remove(i)[n] == o2[n]);
            } else {
                assert(g2.remove(i)[n] == g2[n + 1]);
                assert(o2.remove(i)[n] == o2[n + 1]);
            }
        }
        assert(oracle_outcomes(g2.remove(i), ho) =~= o2.remove(i));
        o2.to_multiset_ensures();
        o1.drop_last().to_multiset_ensures();
        assert(o1.drop_last().push((ho(e), e)) =~= o1);
        assert(o2[i] == (ho(e), e));
        assert(o2.contains(o2[i]));
        assert(o2.to_multiset().count((ho(e), e)) > 0);
        assert(o1.to_multiset() =~= o2.to_multiset());
    }
}

/// Idempotence under re-enumeration: a second run over an unmodified
/// tree may walk the candidates in another order, yet every group the
/// first run reports has, in the second run's report, a group with
/// exactly the same members.
pub proof fn lemma_pipeline_reenumeration(
    size_outs1: Seq<(Outcome<u64>, String)>,
    size_outs2: Seq<(Outcome<u64>, String)>,
    ho: spec_fn(String) -> Outcome<Digest>,
    sort_vec: bool,
    i: int,
)
    requires
        size_outs1.to_multiset() == size_outs2.to_multiset(),
        0 <= i < pipeline_groups(size_outs1, ho, sort_vec).len(),
    ensures
        exists|j: int|
            #![auto]
            0 <= j < pipeline_groups(size_outs2, ho, sort_vec).len() && pipeline_groups(
                size_outs2,
                ho,
                sort_vec,
            )[j].to_multiset() == pipeline_groups(size_outs1, ho, sort_vec)[i].to_multiset(),
{
    let pairs1 = retained(size_outs1);
    let pairs2 = retained(size_outs2);
    lemma_retained_permutation(size_outs1, size_outs2);
    let sgs1 = groups_of(pairs1, 1);
    let sgs2 = groups_of(pairs2, 1);
    lemma_flatten_member(sgs1, ho, sort_vec, i);
    let (w, l) = choose|w: int, l: int|
        #![auto]
        0 <= w < sgs1.len() && 0 <= l < hash_stage_groups(
            oracle_outcomes(sgs1[w], ho),
            sort_vec,
        ).len() && flatten_stage2(sgs1, ho, sort_vec)[i] == hash_stage_groups(
            oracle_outcomes(sgs1[w], ho),
            sort_vec,
        )[l];
    lemma_grouping_sound(pairs1, 1, w);
    let k1 = reported_keys(pairs1, 1)[w];
    let g = sgs1[w];
    lemma_group_of_permutation(pairs1, pairs2, k1);
    let gp = group_of(pairs2, k1);
    g.to_multiset_ensures();
    gp.to_multiset_ensures();
    assert(gp.len() == g.len());
    lemma_grouping_complete(pairs2, 1, k1);
    let w2 = choose|w2: int| 0 <= w2 < groups_of(pairs2, 1).len() && groups_of(pairs2, 1)[w2] == gp;
    let houts1 = oracle_outcomes(g, ho);
    let houts2 = oracle_outcomes(gp, ho);
    lemma_oracle_outcomes_permutation(g, gp, ho);
    lemma_retained_permutation(houts1, houts2);
    assert(0 <= l < groups_of(retained(houts1), 1).len());
    lemma_grouping_permutation(retained(houts1), retained(houts2), 1, l);
    let l2 = choose|l2: int|
        #![auto]
        0 <= l2 < groups_of(retained(houts2), 1).len() && groups_of(retained(houts2), 1)[l2]
            .to_multiset() == groups_of(retained(houts1), 1)[l].to_multiset();
    let gl1 = groups_of(retained(houts1), 1)[l];
    let gl2 = groups_of(retained(houts2), 1)[l2];
    assert(hash_stage_groups(houts1, sort_vec)[l] == finished_group(gl1, sort_vec));
    assert(hash_stage_groups(houts2, sort_vec)[l2] == finished_group(gl2, sort_vec));
    if sort_vec {
        lemma_sort_spec_permutes(gl1);
        lemma_sort_spec_permutes(gl2);
    }
    assert(finished_group(gl2, sort_vec).to_multiset() == finished_group(gl1, sort_vec)
        .to_multiset());
    lemma_flatten_covers(sgs2, ho, sort_vec, w2, l2);
    let j = choose|j: int|
        #![auto]
        0 <= j < flatten_stage2(sgs2, ho, sort_vec).len() && flatten_stage2(sgs2, ho, sort_vec)[j]
            == hash_stage_groups(oracle_outcomes(sgs2[w2], ho), sort_vec)[l2];
    assert(pipeline_groups(size_outs2, ho, sort_vec)[j].to_multiset() == pipeline_groups(
        size_outs1,
        ho,
        sort_vec,
    )[i].to_multiset());
}

/// Size-then-hash pipeline correctness, one direction: any two
/// candidates reported in one group were retained with one and the same
/// size key, and their hash outcomes carry digests of equal value — two
/// candidates whose digests differ are never reported together.
pub proof fn lemma_pipeline_same_group(
    size_outs: Seq<(Outcome<u64>, String)>,
    ho: spec_fn(String) -> Outcome<Digest>,
    sort_vec: bool,
    i: int,
    m1: String,
    m2: String,
)
    requires
        0 <= i < pipeline_groups(size_outs, ho, sort_vec).len(),
        pipeline_groups(size_outs, ho, sort_vec)[i].contains(m1),
        pipeline_groups(size_outs, ho, sort_vec)[i].contains(m2),
    ensures
        exists|s: u64|
            #![auto]
            retained(size_outs).contains((s, m1)) && retained(size_outs).contains((s, m2)),
        exists|d1: Digest, d2: Digest|
            #![auto]
            ho(m1) == Outcome::Found(d1) && ho(m2) == Outcome::Found(d2) && d1@ == d2@,
{
    let sgs = groups_of(retained(size_outs), 1);
    lemma_flatten_member(sgs, ho, sort_vec, i);
    let (w, l) = choose|w: int, l: int|
        #![auto]
        0 <= w < sgs.len() && 0 <= l < hash_stage_groups(oracle_outcomes(sgs[w], ho), sort_vec).len()
            && flatten_stage2(sgs, ho, sort_vec)[i] == hash_stage_groups(
            oracle_outcomes(sgs[w], ho),
            sort_vec,
        )[l];
    let g = sgs[w];
    let houts = oracle_outcomes(g, ho);
    let hgroups = groups_of(retained(houts), 1);
    assert(hash_stage_groups(houts, sort_vec)[l] == finished_group(hgroups[l], sort_vec));
    let g2 = hgroups[l];
    assert(g2.contains(m1) && g2.contains(m2)) by {
        if sort_vec {
            lemma_sort_spec_contains(g2, m1);
            lemma_sort_spec_contains(g2, m2);
        }
    }
    lemma_grouping_sound(retained(houts), 1, l);
    let kd = reported_keys(retained(houts), 1)[l];
    let n1 = choose|n: int| 0 <= n < retained(houts).len() && retained(houts)[n] == (kd, m1);
    let n2 = choose|n: int| 0 <= n < retained(houts).len() && retained(houts)[n] == (kd, m2);
    lemma_retained_members(houts, n1);
    let (nn1, d1) = choose|nn: int, k: Digest|
        #![auto]
        0 <= nn < houts.len() && houts[nn] == (Outcome::Found(k), retained(houts)[n1].1) && k@
            == retained(houts)[n1].0;
    lemma_retained_members(houts, n2);
    let (nn2, d2) = choose|nn: int, k: Digest|
        #![auto]
        0 <= nn < houts.len() && houts[nn] == (Outcome::Found(k), retained(houts)[n2].1) && k@
            == retained(houts)[n2].0;
    assert(houts[nn1] == (ho(g[nn1]), g[nn1]));
    assert(houts[nn2] == (ho(g[nn2]), g[nn2]));
    assert(g[nn1] == m1 && ho(m1) == Outcome::Found(d1) && d1@ == kd);
    assert(g[nn2] == m2 && ho(m2) == Outcome::Found(d2) && d2@ == kd);
    assert(g.contains(m1) && g.contains(m2));
    lemma_grouping_sound(retained(size_outs), 1, w);
    let s = reported_keys(retained(size_outs), 1)[w];
    let v1 = choose|n: int|
        0 <= n < retained(size_outs).len() && retained(size_outs)[n] == (s, m1);
    let v2 = choose|n: int|
        0 <= n < retained(size_outs).len() && retained(size_outs)[n] == (s, m2);
    assert(retained(size_outs).contains((s, m1)));
    assert(retained(size_outs).contains((s, m2)));
}

/// Size-then-hash pipeline correctness, the other direction: two
/// candidates retained with one size key, whose hash outcomes carry
/// digests of one value, are reported together in one group — provided
/// their size class and, within it, their digest class each hold more
/// than one member.
pub proof fn lemma_pipeline_together(
    size_outs: Seq<(Outcome<u64>, String)>,
    ho: spec_fn(String) -> Outcome<Digest>,
    sort_vec: bool,
    s: u64,
    m1: String,
    m2: String,
    d1: Digest,
    d2: Digest,
)
    requires
        retained(size_outs).contains((s, m1)),
        retained(size_outs).contains((s, m2)),
        group_of(retained(size_outs), s).len() > 1,
        ho(m1) == Outcome::Found(d1),
        ho(m2) == Outcome::Found(d2),
        d1@ == d2@,
        group_of(retained(oracle_outcomes(group_of(retained(size_outs), s), ho)), d1@).len() > 1,
    ensures
        exists|i: int|
            #![auto]
            0 <= i < pipeline_groups(size_outs, ho, sort_vec).len() && pipeline_groups(
                size_outs,
                ho,
                sort_vec,
            )[i].contains(m1) && pipeline_groups(size_outs, ho, sort_vec)[i].contains(m2),
{
    let pairs1 = retained(size_outs);
    let g = group_of(pairs1, s);
    let sgs = groups_of(pairs1, 1);
    lemma_grouping_complete(pairs1, 1, s);
    let w = choose|w: int| 0 <= w < groups_of(pairs1, 1).len() && groups_of(pairs1, 1)[w] == g;
    let n1 = choose|n: int| 0 <= n < pairs1.len() && pairs1[n] == (s, m1);
    let n2 = choose|n: int| 0 <= n < pairs1.len() && pairs1[n] == (s, m2);
    lemma_group_covers(pairs1, s, n1);
    lemma_group_covers(pairs1, s, n2);
    assert(g.contains(m1) && g.contains(m2));
    let houts = oracle_outcomes(g, ho);
    let pairs2 = retained(houts);
    let a1 = choose|a: int| 0 <= a < g.len() && g[a] == m1;
    let a2 = choose|a: int| 0 <= a < g.len() && g[a] == m2;
    assert(houts[a1] == (ho(m1), m1));
    assert(houts[a2] == (ho(m2), m2));
    lemma_retained_covers(houts, a1, d1);
    lemma_retained_covers(houts, a2, d2);
    assert(pairs2.contains((d1@, m1)));
    assert(pairs2.contains((d1@, m2)));
    lemma_grouping_complete(pairs2, 1, d1@);
    let g2 = group_of(pairs2, d1@);
    let l = choose|l: int|
        0 <= l < groups_of(pairs2, 1).len() && groups_of(pairs2, 1)[l] == g2;
    let b1 = choose|b: int| 0 <= b < pairs2.len() && pairs2[b] == (d1@, m1);
    let b2 = choose|b: int| 0 <= b < pairs2.len() && pairs2[b] == (d1@, m2);
    lemma_group_covers(pairs2, d1@, b1);
    lemma_group_covers(pairs2, d1@, b2);
    assert(g2.contains(m1) && g2.contains(m2));
    assert(hash_stage_groups(houts, sort_vec)[l] == finished_group(
        groups_of(pairs2, 1)[l],
        sort_vec,
    ));
    if sort_vec {
        lemma_sort_spec_contains(g2, m1);
        lemma_sort_spec_contains(g2, m2);
    }
    lemma_flatten_covers(sgs, ho, sort_vec, w, l);
    let i = choose|i: int|
        #![auto]
        0 <= i < flatten_stage2(sgs, ho, sort_vec).len() && flatten_stage2(sgs, ho, sort_vec)[i]
            == hash_stage_groups(oracle_outcomes(sgs[w], ho), sort_vec)[l];
    assert(pipeline_groups(size_outs, ho, sort_vec)[i].contains(m1));
    assert(pipeline_groups(size_outs, ho, sort_vec)[i].contains(m2));
}

/// Group for group, the sorted run reports the sorted members of the
/// unsorted run.
proof fn lemma_flatten_sort_pointwise(
    sgs: Seq<Seq<String>>,
    ho: spec_fn(String) -> Outcome<Digest>,
    i: int,
)
    ensures
        flatten_stage2(sgs, ho, true).len() == flatten_stage2(sgs, ho, false).len(),
        0 <= i < flatten_stage2(sgs, ho, false).len() ==> flatten_stage2(sgs, ho, true)[i]
            == sort_spec(flatten_stage2(sgs, ho, false)[i]),
    decreases sgs.len(),
{
    if sgs.len() > 0 {
        let head_t = hash_stage_groups(oracle_outcomes(sgs[0], ho), true);
        let head_f = hash_stage_groups(oracle_outcomes(sgs[0], ho), false);
        assert(head_t.len() == head_f.len());
        lemma_flatten_sort_pointwise(sgs.drop_first(), ho, i - head_f.len());
        if 0 <= i < flatten_stage2(sgs, ho, false).len() {
            if i < head_f.len() {
                assert(flatten_stage2(sgs, ho, true)[i] == head_t[i]);
                assert(flatten_stage2(sgs, ho, false)[i] == head_f[i]);
                assert(head_t[i] == sort_spec(head_f[i]));
            } else {
                assert(flatten_stage2(sgs, ho, true)[i] == flatten_stage2(
                    sgs.drop_first(),
                    ho,
                    true,
                )[i - head_t.len()]);
                assert(flatten_stage2(sgs, ho, false)[i] == flatten_stage2(
                    sgs.drop_first(),
                    ho,
                    false,
                )[i - head_f.len()]);
            }
        }
    }
}

} // verus!
