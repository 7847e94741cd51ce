use vstd::prelude::*;

use crate::renderer::WgpuRenderer;

verus! {

/// A bind group of a pipeline layout and the resource set that the render
/// resource assignments give it, if they give it one.
#[derive(Clone, Copy, Debug, PartialEq, Eq, Structural)]
pub struct BindGroupRequest {
    pub bind_group: u128,
    pub resource_set: Option<u128>,
}

/// The bind groups that exist after visiting `reqs` in order: each request
/// with a resource set leaves a bind group for its (bind group, set) pair.
pub open spec fn bind_groups_after(existing: Set<(u128, u128)>, reqs: Seq<BindGroupRequest>) -> Set<
    (u128, u128),
>
    decreases reqs.len(),
{
    if reqs.len() == 0 {
        existing
    } else {
        let prev = bind_groups_after(existing, reqs.drop_last());
        match reqs.last().resource_set {
            Some(s) => prev.insert((reqs.last().bind_group, s)),
            None => prev,
        }
    }
}

/// The positions of the requests whose bind group is created: a request with
/// a resource set whose pair exists neither before nor from an earlier request.
pub open spec fn bind_groups_to_create(existing: Set<(u128, u128)>, reqs: Seq<BindGroupRequest>) -> Seq<
    usize,
>
    decreases reqs.len(),
{
    if reqs.len() == 0 {
        Seq::empty()
    } else {
        let prev = bind_groups_to_create(existing, reqs.drop_last());
        match reqs.last().resource_set {
            None => prev,
            Some(s) => if bind_groups_after(existing, reqs.drop_last()).contains(
                (reqs.last().bind_group, s),
            ) {
                prev
            } else {
                prev.push((reqs.len() - 1) as usize)
            },
        }
    }
}

impl WgpuRenderer {
    /// Visits the bind groups of a pipeline layout in order and returns the
    /// positions of those whose bind group must be created; the pairs created are
    /// added to the renderer's bind groups.
    pub fn setup_bind_groups(&mut self, reqs: &Vec<BindGroupRequest>) -> (created: Vec<usize>)
        ensures
            created@ == bind_groups_to_create(old(self).bind_groups@, reqs@),
            final(self).bind_groups@ == bind_groups_after(old(self).bind_groups@, reqs@),
            final(self).intialized == old(self).intialized,
            final(self).encoder_open == old(self).encoder_open,
            final(self).render_pipelines == old(self).render_pipelines,
            final(self).bind_group_layouts == old(self).bind_group_layouts,
            final(self).shader_modules == old(self).shader_modules,
    {
        let ghost start = self.bind_groups@;
        let mut created: Vec<usize> = Vec::new();
        let mut i: usize = 0;
        while i < reqs.len()
            invariant
                0 <= i <= reqs.len(),
                created@ == bind_groups_to_create(start, reqs@.take(i as int)),
                self.bind_groups@ == bind_groups_after(start, reqs@.take(i as int)),
                self.intialized == old(self).intialized,
                self.encoder_open == old(self).encoder_open,
                self.render_pipelines == old(self).render_pipelines,
                self.bind_group_layouts == old(self).bind_group_layouts,
                self.shader_modules == old(self).shader_modules,
            decreases reqs.len() - i,
        {
            proof {
                assert(reqs@.take(i as int + 1).drop_last() =~= reqs@.take(i as int));
                assert(reqs@.take(i as int + 1).last() == reqs@[i as int]);
            }
            let req = reqs[i];
            match req.resource_set {
                None => {},
                Some(s) => {
                    if !self.bind_groups.contains(req.bind_group, s) {
                        created.push(i);
                        self.bind_groups.insert(req.bind_group, s);
                    }
                },
            }
            i = i + 1;
        }
        proof {
            assert(reqs@.take(reqs@.len() as int) =~= reqs@);
        }
        created
    }
}

/// Every pair that existed still exists, and every request with a resource
/// set has its bind group afterwards.
pub proof fn law_bind_groups_cover_requests(existing: Set<(u128, u128)>, reqs: Seq<BindGroupRequest>)
    ensures
        existing.subset_of(bind_groups_after(existing, reqs)),
        forall|i: int|
            0 <= i < reqs.len() && (#[trigger] reqs[i]).resource_set is Some ==> bind_groups_after(
                existing,
                reqs,
            ).contains((reqs[i].bind_group, reqs[i].resource_set->0)),
    decreases reqs.len(),
{
    if reqs.len() > 0 {
        let p = reqs.drop_last();
        law_bind_groups_cover_requests(existing, p);
        assert forall|i: int|
            0 <= i < reqs.len() && (#[trigger] reqs[i]).resource_set is Some implies bind_groups_after(
                existing,
                reqs,
            ).contains((reqs[i].bind_group, reqs[i].resource_set->0)) by {
            if i < reqs.len() - 1 {
                assert(p[i] == reqs[i]);
            }
        }
    }
}

/// After the bind groups of a layout are set up, a (bind group, resource
/// set) pair exists exactly when it existed before or some request asked for it.
pub proof fn law_bind_groups_after_setup(
    existing: Set<(u128, u128)>,
    reqs: Seq<BindGroupRequest>,
    bg: u128,
    set: u128,
)
    ensures
        bind_groups_after(existing, reqs).contains((bg, set)) <==> (existing.contains((bg, set))
            || exists|j: int|
            0 <= j < reqs.len() && (#[trigger] reqs[j]).bind_group == bg && reqs[j].resource_set
                == Some(set)),
    decreases reqs.len(),
{
    if reqs.len() > 0 {
        let p = reqs.drop_last();
        law_bind_groups_after_setup(existing, p, bg, set);
        let last = reqs[reqs.len() - 1];
        assert(reqs.last() == last);
        if exists|j: int|
            0 <= j < p.len() && (#[trigger] p[j]).bind_group == bg && p[j].resource_set == Some(set) {
            let j = choose|j: int|
                0 <= j < p.len() && (#[trigger] p[j]).bind_group == bg && p[j].resource_set == Some(
                    set,
                );
            assert(reqs[j] == p[j]);
        }
        if exists|j: int|
            0 <= j < reqs.len() && (#[trigger] reqs[j]).bind_group == bg && reqs[j].resource_set
                == Some(set) {
            let j = choose|j: int|
                0 <= j < reqs.len() && (#[trigger] reqs[j]).bind_group == bg && reqs[j].resource_set
                    == Some(set);
            if j < reqs.len() - 1 {
                assert(p[j] == reqs[j]);
            }
        }
    }
}

/// Every request whose (bind group, resource set) pair neither existed
/// before nor was asked for by an earlier request has its bind group created:
/// its position is among those returned. (A list of requests is at most
/// `usize::MAX` long.)
pub proof fn law_missing_bind_groups_are_created(
    existing: Set<(u128, u128)>,
    reqs: Seq<BindGroupRequest>,
    i: int,
    set: u128,
)
    requires
        reqs.len() <= usize::MAX,
        0 <= i < reqs.len(),
        reqs[i].resource_set == Some(set),
        !existing.contains((reqs[i].bind_group, set)),
        forall|j: int|
            0 <= j < i ==> !((#[trigger] reqs[j]).bind_group == reqs[i].bind_group
                && reqs[j].resource_set == Some(set)),
    ensures
        bind_groups_to_create(existing, reqs).contains(i as usize),
    decreases reqs.len(),
{
    let p = reqs.drop_last();
    let prev = bind_groups_to_create(existing, p);
    let cur = bind_groups_to_create(existing, reqs);
    let last = reqs[reqs.len() - 1];
    assert(reqs.last() == last);
    if i == reqs.len() - 1 {
        law_bind_groups_after_setup(existing, p, last.bind_group, set);
        if exists|j: int|
            0 <= j < p.len() && (#[trigger] p[j]).bind_group == last.bind_group
                && p[j].resource_set == Some(set) {
            let j = choose|j: int|
                0 <= j < p.len() && (#[trigger] p[j]).bind_group == last.bind_group
                    && p[j].resource_set == Some(set);
            assert(reqs[j] == p[j]);
        }
        assert(cur == prev.push((reqs.len() - 1) as usize));
        assert(cur[prev.len() as int] == i as usize);
    } else {
        assert(p[i] == reqs[i]);
        assert forall|j: int| 0 <= j < i implies !((#[trigger] p[j]).bind_group == p[i].bind_group
            && p[j].resource_set == Some(set)) by {
            assert(p[j] == reqs[j]);
        }
        law_missing_bind_groups_are_created(existing, p, i, set);
        let k = choose|k: int| 0 <= k < prev.len() && prev[k] == i as usize;
        match last.resource_set {
            Some(s) => {
                if !bind_groups_after(existing, p).contains((last.bind_group, s)) {
                    assert(cur == prev.push((reqs.len() - 1) as usize));
                    assert(cur[k] == prev[k]);
                } else {
                    assert(cur == prev);
                }
            },
            None => {
                assert(cur == prev);
            },
        }
        assert(cur[k] == i as usize);
    }
}

/// When every requested pair already exists, nothing is created and nothing changes.
proof fn lemma_nothing_missing(existing: Set<(u128, u128)>, reqs: Seq<BindGroupRequest>)
    requires
        forall|i: int|
            0 <= i < reqs.len() && (#[trigger] reqs[i]).resource_set is Some ==> existing.contains(
                (reqs[i].bind_group, reqs[i].resource_set->0),
            ),
    ensures
        bind_groups_to_create(existing, reqs) == Seq::<usize>::empty(),
        bind_groups_after(existing, reqs) == existing,
    decreases reqs.len(),
{
    if reqs.len() > 0 {
        let p = reqs.drop_last();
        assert forall|i: int|
            0 <= i < p.len() && (#[trigger] p[i]).resource_set is Some implies existing.contains(
                (p[i].bind_group, p[i].resource_set->0),
            ) by {
            assert(p[i] == reqs[i]);
        }
        lemma_nothing_missing(existing, p);
        let last = reqs[reqs.len() - 1];
        if last.resource_set is Some {
            assert(existing.contains((last.bind_group, last.resource_set->0)));
            assert(existing.insert((last.bind_group, last.resource_set->0)) =~= existing);
        }
    }
}

/// Setting up the bind groups of a layout a second time creates nothing and
/// changes nothing.
pub proof fn law_bind_group_setup_idempotent(
    existing: Set<(u128, u128)>,
    reqs: Seq<BindGroupRequest>,
)
    ensures
        bind_groups_to_create(bind_groups_after(existing, reqs), reqs) == Seq::<usize>::empty(),
        bind_groups_after(bind_groups_after(existing, reqs), reqs) == bind_groups_after(
            existing,
            reqs,
        ),
{
    law_bind_groups_cover_requests(existing, reqs);
    lemma_nothing_missing(bind_groups_after(existing, reqs), reqs);
}

/// A bind group is created only for a pair that did not exist and that no
/// earlier request of the layout had; positions come in increasing order, so
/// none is created twice. (A list of requests is at most `usize::MAX` long.)
pub proof fn law_created_bind_groups_were_missing(
    existing: Set<(u128, u128)>,
    reqs: Seq<BindGroupRequest>,
)
    requires
        reqs.len() <= usize::MAX,
    ensures
        forall|k: int|
            0 <= k < bind_groups_to_create(existing, reqs).len() ==> {
                let i = #[trigger] bind_groups_to_create(existing, reqs)[k] as int;
                &&& 0 <= i < reqs.len()
                &&& reqs[i].resource_set is Some
                &&& !bind_groups_after(existing, reqs.take(i)).contains(
                    (reqs[i].bind_group, reqs[i].resource_set->0),
                )
            },
        forall|a: int, b: int|
            0 <= a < b < bind_groups_to_create(existing, reqs).len() ==> bind_groups_to_create(
                existing,
                reqs,
            )[a] < bind_groups_to_create(existing, reqs)[b],
    decreases reqs.len(),
{
    if reqs.len() > 0 {
        let p = reqs.drop_last();
        law_created_bind_groups_were_missing(existing, p);
        let prev = bind_groups_to_create(existing, p);
        let cur = bind_groups_to_create(existing, reqs);
        let last = reqs[reqs.len() - 1];
        assert(reqs.last() == last);
        assert(reqs.take(reqs.len() - 1) =~= p);
        let pushed = match last.resource_set {
            None => false,
            Some(s) => !bind_groups_after(existing, p).contains((last.bind_group, s)),
        };
        if pushed {
            assert(cur == prev.push((reqs.len() - 1) as usize));
        } else {
            assert(cur == prev);
        }
        assert forall|k: int| 0 <= k < cur.len() implies {
            let i = #[trigger] cur[k] as int;
            &&& 0 <= i < reqs.len()
            &&& reqs[i].resource_set is Some
            &&& !bind_groups_after(existing, reqs.take(i)).contains(
                (reqs[i].bind_group, reqs[i].resource_set->0),
            )
        } by {
            if k < prev.len() {
                let i = prev[k] as int;
                assert(cur[k] == prev[k]);
                assert(p[i] == reqs[i]);
                assert(p.take(i) =~= reqs.take(i));
            }
        }
        assert forall|a: int, b: int| 0 <= a < b < cur.len() implies cur[a] < cur[b] by {
            if b < prev.len() {
                assert(cur[a] == prev[a] && cur[b] == prev[b]);
            } else {
                assert(cur[a] == prev[a]);
                assert((prev[a] as int) < p.len());
            }
        }
    }
}

} // verus!
