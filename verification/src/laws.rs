use vstd::prelude::*;

use crate::attachment::{
    AttachmentContextView, ColorAttachmentDescriptor, DepthStencilAttachmentDescriptor,
    PassDescriptor, RenderPassPlan, TextureViewSource, color_error, color_plan_spec,
    depth_plan_spec, index_of_name, pass_error, pass_plan_matches, resolve_spec,
    swap_chain_attachment_name, unique_names,
};
use crate::frame::{
    FrameCommand, FrameGraph, compiled_ready, compiled_spec, draw_target_position, draw_targets_of,
    draws_ready, draws_spec, frame_commands, frame_ready, pass_body_spec, pass_ready, passes_spec,
    pipelines_ready, pipelines_spec,
};
use crate::lookup::first_entry;
use crate::windows::resize_order;

verus! {

/// A texture queued under a name and created for a render resource is what
/// the name denotes afterwards: once the name is assigned to the resource and
/// the resource has its texture, any name other than the swap chain's
/// resolves to that texture, whatever the swap chain outputs are.
pub proof fn law_assigned_texture_resolves(
    ctx: AttachmentContextView,
    name: Seq<char>,
    resource: u128,
)
    requires
        name != swap_chain_attachment_name(),
    ensures
        resolve_spec(
            AttachmentContextView {
                assignments: ctx.assignments.insert(name, resource),
                textures: ctx.textures.insert(resource),
                ..ctx
            },
            name,
        ) == Ok::<TextureViewSource, crate::attachment::AttachmentError>(
            TextureViewSource::Texture(resource),
        ),
{
}

/// The names known after the queued textures are created in order, each for
/// a new render resource and assigned under its name.
pub open spec fn after_queued_textures(
    ctx: AttachmentContextView,
    queued: Seq<(Seq<char>, u128)>,
) -> AttachmentContextView
    decreases queued.len(),
{
    if queued.len() == 0 {
        ctx
    } else {
        let prev = after_queued_textures(ctx, queued.drop_last());
        AttachmentContextView {
            assignments: prev.assignments.insert(queued.last().0, queued.last().1),
            textures: prev.textures.insert(queued.last().1),
            ..prev
        }
    }
}

proof fn lemma_queued_last_assignment(
    ctx: AttachmentContextView,
    queued: Seq<(Seq<char>, u128)>,
    k: int,
)
    requires
        0 <= k < queued.len(),
        forall|m: int| k < m < queued.len() ==> (#[trigger] queued[m]).0 != queued[k].0,
    ensures
        after_queued_textures(ctx, queued).assignments.dom().contains(queued[k].0),
        after_queued_textures(ctx, queued).assignments[queued[k].0] == queued[k].1,
        after_queued_textures(ctx, queued).textures.contains(queued[k].1),
    decreases queued.len(),
{
    let p = queued.drop_last();
    if k < queued.len() - 1 {
        assert forall|m: int| k < m < p.len() implies (#[trigger] p[m]).0 != p[k].0 by {
            assert(p[m] == queued[m]);
        }
        lemma_queued_last_assignment(ctx, p, k);
        assert(p[k] == queued[k]);
        assert(queued.last() == queued[queued.len() - 1]);
    }
}

/// Each queued texture is what its name denotes once the queue is drained:
/// a name other than the swap chain's resolves to the texture created for
/// its latest entry in the queue, whatever the swap chain outputs are.
pub proof fn law_queued_textures_resolve(
    ctx: AttachmentContextView,
    queued: Seq<(Seq<char>, u128)>,
    k: int,
)
    requires
        0 <= k < queued.len(),
        queued[k].0 != swap_chain_attachment_name(),
        forall|m: int| k < m < queued.len() ==> (#[trigger] queued[m]).0 != queued[k].0,
    ensures
        resolve_spec(after_queued_textures(ctx, queued), queued[k].0) == Ok::<
            TextureViewSource,
            crate::attachment::AttachmentError,
        >(TextureViewSource::Texture(queued[k].1)),
{
    lemma_queued_last_assignment(ctx, queued, k);
}

/// The swap chain name denotes the output of the primary window's swap
/// chain whenever one was acquired, whatever is assigned to that name.
pub proof fn law_swap_chain_resolves_to_primary(ctx: AttachmentContextView, primary: Seq<char>, i: usize)
    requires
        unique_names(ctx.swap_chain_outputs),
        ctx.primary_swap_chain == Some(primary),
        (i as int) < ctx.swap_chain_outputs.len(),
        ctx.swap_chain_outputs[i as int] == primary,
    ensures
        resolve_spec(ctx, swap_chain_attachment_name()) == Ok::<
            TextureViewSource,
            crate::attachment::AttachmentError,
        >(TextureViewSource::SwapChainOutput(i)),
{
    let k = index_of_name(ctx.swap_chain_outputs, primary);
    assert(ctx.swap_chain_outputs.contains(primary));
    assert((k as int) < ctx.swap_chain_outputs.len() && ctx.swap_chain_outputs[k as int] == primary);
    if k < i {
        assert(ctx.swap_chain_outputs[k as int] != ctx.swap_chain_outputs[i as int]);
    } else if k > i {
        assert(ctx.swap_chain_outputs[i as int] != ctx.swap_chain_outputs[k as int]);
    }
}

/// An assignment takes precedence over a swap chain output of the same name.
pub proof fn law_assignment_shadows_swap_chain_output(ctx: AttachmentContextView, name: Seq<char>)
    requires
        name != swap_chain_attachment_name(),
        ctx.assignments.dom().contains(name),
        ctx.textures.contains(ctx.assignments[name]),
    ensures
        resolve_spec(ctx, name) == Ok::<TextureViewSource, crate::attachment::AttachmentError>(
            TextureViewSource::Texture(ctx.assignments[name]),
        ),
{
}

/// The window of the latest resize event is handled first.
pub proof fn law_latest_resize_first(events: Seq<u128>)
    requires
        events.len() > 0,
    ensures
        resize_order(events, events.len() as int).len() > 0,
        resize_order(events, events.len() as int)[0] == events.last(),
{
    lemma_resize_order_prefix(events, events.len() as int);
}

proof fn lemma_resize_order_prefix(events: Seq<u128>, n: int)
    requires
        1 <= n <= events.len(),
    ensures
        resize_order(events, n).len() > 0,
        resize_order(events, n)[0] == events.last(),
    decreases n,
{
    if n > 1 {
        lemma_resize_order_prefix(events, n - 1);
    } else {
        assert(resize_order(events, 0) =~= Seq::<u128>::empty());
    }
}

/// Position `k` holds the latest event of window `w`.
pub open spec fn latest_event_at(events: Seq<u128>, k: int, w: u128) -> bool {
    &&& 0 <= k < events.len()
    &&& events[k] == w
    &&& forall|m: int| k < m < events.len() ==> events[m] != w
}

/// The position of the latest event of window `w` (meaningful when it has one).
pub open spec fn latest_event(events: Seq<u128>, w: u128) -> int {
    choose|k: int| latest_event_at(events, k, w)
}

proof fn lemma_latest_event_unique(events: Seq<u128>, k: int, w: u128)
    requires
        latest_event_at(events, k, w),
    ensures
        latest_event(events, w) == k,
{
    let j = latest_event(events, w);
    assert(latest_event_at(events, j, w));
    if j < k {
        assert(events[k] == w);
    } else if j > k {
        assert(events[j] == w);
    }
}

proof fn lemma_resize_order_by_latest(events: Seq<u128>, n: int)
    requires
        0 <= n <= events.len(),
    ensures
        forall|v: u128|
            resize_order(events, n).contains(v) <==> exists|m: int|
                events.len() - n <= m < events.len() && #[trigger] events[m] == v,
        forall|a: int|
            0 <= a < resize_order(events, n).len() ==> latest_event_at(
                events,
                latest_event(events, #[trigger] resize_order(events, n)[a]),
                resize_order(events, n)[a],
            ) && events.len() - n <= latest_event(events, resize_order(events, n)[a]),
        forall|a: int, b: int|
            0 <= a < b < resize_order(events, n).len() ==> latest_event(
                events,
                #[trigger] resize_order(events, n)[a],
            ) > latest_event(events, #[trigger] resize_order(events, n)[b]),
    decreases n,
{
    if n > 0 {
        lemma_resize_order_by_latest(events, n - 1);
        let prev = resize_order(events, n - 1);
        let cur = resize_order(events, n);
        let idx = events.len() - n;
        let w = events[idx];
        assert forall|v: u128|
            cur.contains(v) <==> exists|m: int|
                events.len() - n <= m < events.len() && #[trigger] events[m] == v by {
            if cur.contains(v) {
                let i = choose|i: int| 0 <= i < cur.len() && cur[i] == v;
                if prev.contains(w) {
                    assert(prev[i] == v);
                    assert(prev.contains(v));
                } else if i < prev.len() {
                    assert(prev[i] == v);
                    assert(prev.contains(v));
                } else {
                    assert(events[idx] == v);
                }
            }
            if exists|m: int| events.len() - n <= m < events.len() && #[trigger] events[m] == v {
                let m = choose|m: int| events.len() - n <= m < events.len() && #[trigger] events[m] == v;
                if m == idx {
                    if prev.contains(w) {
                    } else {
                        assert(cur[prev.len() as int] == v);
                    }
                } else {
                    assert(events[m] == v);
                    assert(prev.contains(v));
                    let i = choose|i: int| 0 <= i < prev.len() && prev[i] == v;
                    assert(cur[i] == v);
                }
            }
        }
        if !prev.contains(w) {
            assert(cur == prev.push(w));
            assert forall|m: int| idx < m < events.len() implies events[m] != w by {
                if events[m] == w {
                    assert(events.len() - (n - 1) <= m < events.len() && events[m] == w);
                    assert(prev.contains(w));
                }
            }
            assert(latest_event_at(events, idx, w));
            lemma_latest_event_unique(events, idx, w);
            assert forall|a: int| 0 <= a < cur.len() implies latest_event_at(
                events,
                latest_event(events, #[trigger] cur[a]),
                cur[a],
            ) && events.len() - n <= latest_event(events, cur[a]) by {
                if a < prev.len() {
                    assert(cur[a] == prev[a]);
                } else {
                    assert(cur[a] == w);
                }
            }
            assert forall|a: int, b: int| 0 <= a < b < cur.len() implies latest_event(
                events,
                #[trigger] cur[a],
            ) > latest_event(events, #[trigger] cur[b]) by {
                assert(cur[a] == prev[a]);
                if b < prev.len() {
                    assert(cur[b] == prev[b]);
                } else {
                    assert(cur[b] == w);
                }
            }
        } else {
            assert(cur == prev);
        }
    }
}

/// Resized windows are handled from the latest event back: every handled
/// window has a latest event, and a window handled earlier had its latest
/// event later than a window handled after it.
pub proof fn law_resize_order_follows_latest_events(events: Seq<u128>)
    ensures
        forall|a: int|
            0 <= a < resize_order(events, events.len() as int).len() ==> latest_event_at(
                events,
                latest_event(events, #[trigger] resize_order(events, events.len() as int)[a]),
                resize_order(events, events.len() as int)[a],
            ),
        forall|a: int, b: int|
            0 <= a < b < resize_order(events, events.len() as int).len() ==> latest_event(
                events,
                #[trigger] resize_order(events, events.len() as int)[a],
            ) > latest_event(events, #[trigger] resize_order(events, events.len() as int)[b]),
{
    lemma_resize_order_by_latest(events, events.len() as int);
}

/// Every draw is issued with its pipeline bound: some earlier command binds
/// that pipeline and only draws come between.
pub open spec fn draws_follow_their_pipeline(cmds: Seq<FrameCommand>) -> bool {
    forall|k: int|
        0 <= k < cmds.len() && (#[trigger] cmds[k]) is Draw ==> exists|j: int|
            0 <= j < k && cmds[j] == FrameCommand::SetPipeline(cmds[k]->pipeline) && forall|m: int|
                j < m < k ==> (#[trigger] cmds[m]) is Draw
}

proof fn lemma_draws_follow_concat(a: Seq<FrameCommand>, b: Seq<FrameCommand>)
    requires
        draws_follow_their_pipeline(a),
        draws_follow_their_pipeline(b),
    ensures
        draws_follow_their_pipeline(a + b),
{
    let c = a + b;
    assert forall|k: int| 0 <= k < c.len() && (#[trigger] c[k]) is Draw implies exists|j: int|
        0 <= j < k && c[j] == FrameCommand::SetPipeline(c[k]->pipeline) && forall|m: int|
            j < m < k ==> (#[trigger] c[m]) is Draw by {
        if k < a.len() {
            assert(a[k] == c[k]);
            let j = choose|j: int|
                0 <= j < k && a[j] == FrameCommand::SetPipeline(a[k]->pipeline) && forall|m: int|
                    j < m < k ==> (#[trigger] a[m]) is Draw;
            assert(c[j] == a[j]);
            assert forall|m: int| j < m < k implies (#[trigger] c[m]) is Draw by {
                assert(c[m] == a[m]);
            }
        } else {
            let kb = k - a.len();
            assert(b[kb] == c[k]);
            let j = choose|j: int|
                0 <= j < kb && b[j] == FrameCommand::SetPipeline(b[kb]->pipeline) && forall|m: int|
                    j < m < kb ==> (#[trigger] b[m]) is Draw;
            assert(c[j + a.len()] == b[j]);
            assert forall|m: int| j + a.len() < m < k implies (#[trigger] c[m]) is Draw by {
                assert(c[m] == b[m - a.len()]);
            }
        }
    }
}

proof fn lemma_draws_all_draw(g: FrameGraph, pipeline: u128, names: Seq<String>)
    ensures
        forall|k: int|
            0 <= k < draws_spec(g, pipeline, names).len() ==> (#[trigger] draws_spec(
                g,
                pipeline,
                names,
            )[k]) is Draw && draws_spec(g, pipeline, names)[k]->pipeline == pipeline,
    decreases names.len(),
{
    if names.len() > 0 {
        lemma_draws_all_draw(g, pipeline, names.drop_last());
    }
}

proof fn lemma_bound_block(g: FrameGraph, pipeline: u128, names: Seq<String>)
    ensures
        draws_follow_their_pipeline(
            seq![FrameCommand::SetPipeline(pipeline)] + draws_spec(g, pipeline, names),
        ),
{
    lemma_draws_all_draw(g, pipeline, names);
    let s = seq![FrameCommand::SetPipeline(pipeline)] + draws_spec(g, pipeline, names);
    assert forall|k: int| 0 <= k < s.len() && (#[trigger] s[k]) is Draw implies exists|j: int|
        0 <= j < k && s[j] == FrameCommand::SetPipeline(s[k]->pipeline) && forall|m: int|
            j < m < k ==> (#[trigger] s[m]) is Draw by {
        assert(k > 0);
        assert(s[k] == draws_spec(g, pipeline, names)[k - 1]);
        assert(s[0] == FrameCommand::SetPipeline(pipeline));
        assert forall|m: int| 0 < m < k implies (#[trigger] s[m]) is Draw by {
            assert(s[m] == draws_spec(g, pipeline, names)[m - 1]);
        }
    }
}

proof fn lemma_compiled_follow(g: FrameGraph, cs: Seq<u128>)
    ensures
        draws_follow_their_pipeline(compiled_spec(g, cs)),
    decreases cs.len(),
{
    if cs.len() > 0 {
        lemma_compiled_follow(g, cs.drop_last());
        let c = cs.last();
        let names = crate::frame::draws_targets_of_last(g, cs);
        lemma_bound_block(g, c, names);
        lemma_draws_follow_concat(
            compiled_spec(g, cs.drop_last()),
            seq![FrameCommand::SetPipeline(c)] + draws_spec(g, c, names),
        );
        assert(compiled_spec(g, cs) =~= compiled_spec(g, cs.drop_last()) + (seq![
            FrameCommand::SetPipeline(c),
        ] + draws_spec(g, c, names)));
    }
}

proof fn lemma_pipelines_follow(g: FrameGraph, ps: Seq<u128>)
    ensures
        draws_follow_their_pipeline(pipelines_spec(g, ps)),
    decreases ps.len(),
{
    if ps.len() > 0 {
        lemma_pipelines_follow(g, ps.drop_last());
        let tail = match first_entry(g.compiled_pipelines@, ps.last()) {
            Some(cs) => compiled_spec(g, cs@),
            None => Seq::empty(),
        };
        match first_entry(g.compiled_pipelines@, ps.last()) {
            Some(cs) => lemma_compiled_follow(g, cs@),
            None => {},
        }
        lemma_draws_follow_concat(pipelines_spec(g, ps.drop_last()), tail);
    }
}

proof fn lemma_passes_follow(g: FrameGraph, n: int)
    ensures
        draws_follow_their_pipeline(passes_spec(g, n)),
    decreases n,
{
    if n > 0 {
        lemma_passes_follow(g, n - 1);
        let body = pass_body_spec(g, n - 1);
        match crate::lookup::first_named(g.pass_pipelines@, g.passes@[n - 1]@) {
            Some(ps) => lemma_pipelines_follow(g, ps@),
            None => {},
        }
        let begin = seq![FrameCommand::BeginPass((n - 1) as usize)];
        assert(draws_follow_their_pipeline(begin));
        lemma_draws_follow_concat(passes_spec(g, n - 1), begin);
        lemma_draws_follow_concat(passes_spec(g, n - 1) + begin, body);
    }
}

proof fn lemma_passes_start(g: FrameGraph, n: int)
    requires
        n >= 1,
    ensures
        passes_spec(g, n).len() > 0,
        passes_spec(g, n)[0] == FrameCommand::BeginPass(0),
    decreases n,
{
    if n > 1 {
        lemma_passes_start(g, n - 1);
    } else {
        assert(passes_spec(g, 0) =~= Seq::<FrameCommand>::empty());
    }
}

/// A frame that has passes starts by beginning the first pass, and every draw
/// of the frame is issued with its pipeline bound: some earlier command binds
/// that pipeline and only draws come between.
pub proof fn law_frame_draws_follow_pipeline(g: FrameGraph)
    ensures
        draws_follow_their_pipeline(frame_commands(g)),
        g.passes@.len() > 0 ==> frame_commands(g).len() > 0 && frame_commands(g)[0]
            == FrameCommand::BeginPass(0),
{
    lemma_passes_follow(g, g.passes@.len() as int);
    if g.passes@.len() > 0 {
        lemma_passes_start(g, g.passes@.len() as int);
    }
}

/// The positions of the passes begun by a list of commands, in order.
pub open spec fn passes_begun(cmds: Seq<FrameCommand>) -> Seq<usize>
    decreases cmds.len(),
{
    if cmds.len() == 0 {
        Seq::empty()
    } else {
        match cmds.last() {
            FrameCommand::BeginPass(i) => passes_begun(cmds.drop_last()).push(i),
            _ => passes_begun(cmds.drop_last()),
        }
    }
}

proof fn lemma_passes_begun_concat(a: Seq<FrameCommand>, b: Seq<FrameCommand>)
    ensures
        passes_begun(a + b) == passes_begun(a) + passes_begun(b),
    decreases b.len(),
{
    if b.len() == 0 {
        assert(a + b =~= a);
        assert(passes_begun(a) + passes_begun(b) =~= passes_begun(a));
    } else {
        lemma_passes_begun_concat(a, b.drop_last());
        assert((a + b).drop_last() =~= a + b.drop_last());
        assert((a + b).last() == b.last());
        match b.last() {
            FrameCommand::BeginPass(i) => {
                assert(passes_begun(a) + passes_begun(b.drop_last()).push(i) =~= (passes_begun(a)
                    + passes_begun(b.drop_last())).push(i));
            },
            _ => {},
        }
    }
}

/// A list of commands that begins no pass.
pub open spec fn begins_no_pass(cmds: Seq<FrameCommand>) -> bool {
    forall|k: int| 0 <= k < cmds.len() ==> !((#[trigger] cmds[k]) is BeginPass)
}

proof fn lemma_no_pass_begun(cmds: Seq<FrameCommand>)
    requires
        begins_no_pass(cmds),
    ensures
        passes_begun(cmds) == Seq::<usize>::empty(),
    decreases cmds.len(),
{
    if cmds.len() > 0 {
        let p = cmds.drop_last();
        assert forall|k: int| 0 <= k < p.len() implies !((#[trigger] p[k]) is BeginPass) by {
            assert(p[k] == cmds[k]);
        }
        lemma_no_pass_begun(p);
        assert(!(cmds[cmds.len() - 1] is BeginPass));
    }
}

proof fn lemma_begins_no_pass_concat(a: Seq<FrameCommand>, b: Seq<FrameCommand>)
    requires
        begins_no_pass(a),
        begins_no_pass(b),
    ensures
        begins_no_pass(a + b),
{
    assert forall|k: int| 0 <= k < (a + b).len() implies !((#[trigger] (a + b)[k]) is BeginPass) by {
        if k < a.len() {
            assert((a + b)[k] == a[k]);
        } else {
            assert((a + b)[k] == b[k - a.len()]);
        }
    }
}

proof fn lemma_pipelines_begin_no_pass(g: FrameGraph, ps: Seq<u128>)
    ensures
        begins_no_pass(pipelines_spec(g, ps)),
    decreases ps.len(),
{
    if ps.len() > 0 {
        lemma_pipelines_begin_no_pass(g, ps.drop_last());
        match first_entry(g.compiled_pipelines@, ps.last()) {
            Some(cs) => {
                lemma_compiled_begin_no_pass(g, cs@);
                lemma_begins_no_pass_concat(pipelines_spec(g, ps.drop_last()), compiled_spec(g, cs@));
            },
            None => {
                assert(pipelines_spec(g, ps) =~= pipelines_spec(g, ps.drop_last()));
            },
        }
    }
}

proof fn lemma_compiled_begin_no_pass(g: FrameGraph, cs: Seq<u128>)
    ensures
        begins_no_pass(compiled_spec(g, cs)),
    decreases cs.len(),
{
    if cs.len() > 0 {
        lemma_compiled_begin_no_pass(g, cs.drop_last());
        let c = cs.last();
        let names = crate::frame::draws_targets_of_last(g, cs);
        lemma_draws_all_draw(g, c, names);
        let block = seq![FrameCommand::SetPipeline(c)] + draws_spec(g, c, names);
        assert forall|k: int| 0 <= k < block.len() implies !((#[trigger] block[k]) is BeginPass) by {
            if k > 0 {
                assert(block[k] == draws_spec(g, c, names)[k - 1]);
            }
        }
        lemma_begins_no_pass_concat(compiled_spec(g, cs.drop_last()), block);
        assert(compiled_spec(g, cs) =~= compiled_spec(g, cs.drop_last()) + block);
    }
}

proof fn lemma_passes_begun_in_order(g: FrameGraph, n: int)
    requires
        0 <= n <= g.passes@.len(),
    ensures
        passes_begun(passes_spec(g, n)) =~= Seq::new(n as nat, |i: int| i as usize),
    decreases n,
{
    if n > 0 {
        lemma_passes_begun_in_order(g, n - 1);
        let begin = seq![FrameCommand::BeginPass((n - 1) as usize)];
        let body = pass_body_spec(g, n - 1);
        match crate::lookup::first_named(g.pass_pipelines@, g.passes@[n - 1]@) {
            Some(ps) => lemma_pipelines_begin_no_pass(g, ps@),
            None => {},
        }
        lemma_no_pass_begun(body);
        lemma_passes_begun_concat(passes_spec(g, n - 1), begin);
        lemma_passes_begun_concat(passes_spec(g, n - 1) + begin, body);
        assert(passes_begun(begin) =~= seq![(n - 1) as usize]) by {
            assert(begin.len() == 1);
            assert(begin.last() == FrameCommand::BeginPass((n - 1) as usize));
            assert(begin.drop_last() =~= Seq::<FrameCommand>::empty());
            assert(passes_begun(begin.drop_last()) =~= Seq::<usize>::empty());
        }
        assert(passes_spec(g, n) == passes_spec(g, n - 1) + begin + body);
        assert(Seq::new((n - 1) as nat, |i: int| i as usize) + seq![(n - 1) as usize]
            + Seq::<usize>::empty() =~= Seq::new(n as nat, |i: int| i as usize));
    } else {
        assert(passes_spec(g, n) =~= Seq::<FrameCommand>::empty());
    }
}

/// Each pass of the graph is begun exactly once, in the graph's order, and
/// nothing else begins a pass.
pub proof fn law_frame_begins_each_pass_once_in_order(g: FrameGraph)
    ensures
        passes_begun(frame_commands(g)) =~= Seq::new(g.passes@.len(), |i: int| i as usize),
{
    lemma_passes_begun_in_order(g, g.passes@.len() as int);
}

/// The commands of the pipelines of a pass follow the order in which the
/// pass lists them: the commands for `a + b` are those for `a` followed by
/// those for `b`, and the commands for one pipeline are those of the
/// pipelines compiled from it (nothing for a pipeline never compiled).
pub proof fn law_pipelines_drawn_in_listed_order(g: FrameGraph, a: Seq<u128>, b: Seq<u128>, p: u128)
    ensures
        pipelines_spec(g, a + b) == pipelines_spec(g, a) + pipelines_spec(g, b),
        pipelines_spec(g, seq![p]) == match first_entry(g.compiled_pipelines@, p) {
            Some(cs) => compiled_spec(g, cs@),
            None => Seq::<FrameCommand>::empty(),
        },
    decreases b.len(),
{
    if b.len() == 0 {
        assert(a + b =~= a);
        assert(pipelines_spec(g, a) + pipelines_spec(g, b) =~= pipelines_spec(g, a));
    } else {
        law_pipelines_drawn_in_listed_order(g, a, b.drop_last(), p);
        assert((a + b).drop_last() =~= a + b.drop_last());
        assert((a + b).last() == b.last());
        let tail = match first_entry(g.compiled_pipelines@, b.last()) {
            Some(cs) => compiled_spec(g, cs@),
            None => Seq::<FrameCommand>::empty(),
        };
        assert(pipelines_spec(g, a) + pipelines_spec(g, b.drop_last()) + tail =~= pipelines_spec(
            g,
            a,
        ) + (pipelines_spec(g, b.drop_last()) + tail));
    }
    assert(seq![p].drop_last() =~= Seq::<u128>::empty());
    assert(pipelines_spec(g, Seq::<u128>::empty()) =~= Seq::<FrameCommand>::empty());
    assert(seq![p].last() == p);
}

/// The pipelines compiled from one pipeline are bound in their order: the
/// commands for `a + b` are those for `a` followed by those for `b`, and one
/// compiled pipeline is bound and then each of its draw targets draws.
pub proof fn law_compiled_pipelines_bound_in_order(g: FrameGraph, a: Seq<u128>, b: Seq<u128>, c: u128)
    ensures
        compiled_spec(g, a + b) == compiled_spec(g, a) + compiled_spec(g, b),
        compiled_spec(g, seq![c]) == seq![FrameCommand::SetPipeline(c)] + draws_spec(
            g,
            c,
            draw_targets_of(g, c),
        ),
    decreases b.len(),
{
    if b.len() == 0 {
        assert(a + b =~= a);
        assert(compiled_spec(g, a) + compiled_spec(g, b) =~= compiled_spec(g, a));
    } else {
        law_compiled_pipelines_bound_in_order(g, a, b.drop_last(), c);
        assert((a + b).drop_last() =~= a + b.drop_last());
        assert((a + b).last() == b.last());
        let block = seq![FrameCommand::SetPipeline(b.last())] + draws_spec(
            g,
            b.last(),
            draw_targets_of(g, b.last()),
        );
        assert(compiled_spec(g, a + b) =~= compiled_spec(g, a + b.drop_last()) + block);
        assert(compiled_spec(g, b) =~= compiled_spec(g, b.drop_last()) + block);
        assert(compiled_spec(g, a) + compiled_spec(g, b.drop_last()) + block =~= compiled_spec(g, a)
            + (compiled_spec(g, b.drop_last()) + block));
    }
    assert(seq![c].drop_last() =~= Seq::<u128>::empty());
    assert(compiled_spec(g, Seq::<u128>::empty()) =~= Seq::<FrameCommand>::empty());
    assert(seq![c].last() == c);
    assert(compiled_spec(g, seq![c]) =~= seq![FrameCommand::SetPipeline(c)] + draws_spec(
        g,
        c,
        draw_targets_of(g, c),
    ));
}

/// A compiled pipeline draws once per draw target name, in the order of the
/// names, each time with that pipeline and the draw target of that name.
pub proof fn law_draws_follow_draw_target_names(g: FrameGraph, pipeline: u128, names: Seq<String>)
    ensures
        draws_spec(g, pipeline, names).len() == names.len(),
        forall|j: int|
            0 <= j < names.len() ==> #[trigger] draws_spec(g, pipeline, names)[j] == (
            FrameCommand::Draw { draw_target: draw_target_position(g, names[j]@), pipeline }),
    decreases names.len(),
{
    if names.len() > 0 {
        let p = names.drop_last();
        law_draws_follow_draw_target_names(g, pipeline, p);
        assert forall|j: int| 0 <= j < names.len() implies #[trigger] draws_spec(g, pipeline, names)[j]
            == (FrameCommand::Draw { draw_target: draw_target_position(g, names[j]@), pipeline }) by {
            if j < names.len() - 1 {
                assert(p[j] == names[j]);
                assert(draws_spec(g, pipeline, names)[j] == draws_spec(g, pipeline, p)[j]);
            }
        }
    }
}

/// A color attachment's plan keeps the descriptor's load and store ops, and
/// when the attachment resolves, its texture view and resolve target are
/// what their names resolve to.
pub proof fn law_color_plan_keeps_ops(ctx: AttachmentContextView, c: ColorAttachmentDescriptor)
    ensures
        color_plan_spec(ctx, c).load_op == c.load_op,
        color_plan_spec(ctx, c).store_op == c.store_op,
        color_error(ctx, c) is None ==> resolve_spec(ctx, c.attachment@) == Ok::<
            TextureViewSource,
            crate::attachment::AttachmentError,
        >(color_plan_spec(ctx, c).attachment),
        color_error(ctx, c) is None ==> match c.resolve_target {
            None => color_plan_spec(ctx, c).resolve_target is None,
            Some(t) => color_plan_spec(ctx, c).resolve_target matches Some(v) && resolve_spec(ctx, t@)
                == Ok::<TextureViewSource, crate::attachment::AttachmentError>(v),
        },
{
}

/// A depth-stencil attachment's plan keeps the descriptor's ops and clear
/// stencil value, and when the attachment resolves, its texture view is what
/// the name resolves to.
pub proof fn law_depth_plan_keeps_ops(ctx: AttachmentContextView, d: DepthStencilAttachmentDescriptor)
    ensures
        depth_plan_spec(ctx, d).depth_load_op == d.depth_load_op,
        depth_plan_spec(ctx, d).depth_store_op == d.depth_store_op,
        depth_plan_spec(ctx, d).stencil_load_op == d.stencil_load_op,
        depth_plan_spec(ctx, d).stencil_store_op == d.stencil_store_op,
        depth_plan_spec(ctx, d).clear_stencil == d.clear_stencil,
        resolve_spec(ctx, d.attachment@) is Ok ==> resolve_spec(ctx, d.attachment@) == Ok::<
            TextureViewSource,
            crate::attachment::AttachmentError,
        >(depth_plan_spec(ctx, d).attachment),
{
}

/// A render pass plan has one color attachment per descriptor, in order,
/// each keeping its descriptor's ops and using the texture view its name
/// resolves to; the depth-stencil attachment likewise.
pub proof fn law_render_pass_plan_keeps_attachments(
    ctx: AttachmentContextView,
    pass: PassDescriptor,
    plan: RenderPassPlan,
)
    requires
        pass_error(ctx, pass) is None,
        pass_plan_matches(ctx, pass, plan),
    ensures
        plan.color_attachments@.len() == pass.color_attachments@.len(),
        forall|i: int|
            0 <= i < pass.color_attachments@.len() ==> {
                let c = #[trigger] pass.color_attachments@[i];
                &&& plan.color_attachments@[i].load_op == c.load_op
                &&& plan.color_attachments@[i].store_op == c.store_op
                &&& resolve_spec(ctx, c.attachment@) == Ok::<
                    TextureViewSource,
                    crate::attachment::AttachmentError,
                >(plan.color_attachments@[i].attachment)
            },
        match pass.depth_stencil_attachment {
            None => plan.depth_stencil_attachment is None,
            Some(d) => plan.depth_stencil_attachment matches Some(dp) && dp.depth_load_op
                == d.depth_load_op && dp.depth_store_op == d.depth_store_op && dp.stencil_load_op
                == d.stencil_load_op && dp.stencil_store_op == d.stencil_store_op && dp.clear_stencil
                == d.clear_stencil && resolve_spec(ctx, d.attachment@) == Ok::<
                TextureViewSource,
                crate::attachment::AttachmentError,
            >(dp.attachment),
        },
{
    assert forall|i: int| 0 <= i < pass.color_attachments@.len() implies {
        let c = #[trigger] pass.color_attachments@[i];
        &&& plan.color_attachments@[i].load_op == c.load_op
        &&& plan.color_attachments@[i].store_op == c.store_op
        &&& resolve_spec(ctx, c.attachment@) == Ok::<
            TextureViewSource,
            crate::attachment::AttachmentError,
        >(plan.color_attachments@[i].attachment)
    } by {
        let c = pass.color_attachments@[i];
        lemma_colors_no_error(ctx, pass.color_attachments@, i);
        law_color_plan_keeps_ops(ctx, c);
        assert(plan.color_attachments@[i] == color_plan_spec(ctx, c));
    }
}

/// When no color attachment of a list has an error, none of them has one.
proof fn lemma_colors_no_error(
    ctx: AttachmentContextView,
    cs: Seq<ColorAttachmentDescriptor>,
    i: int,
)
    requires
        0 <= i < cs.len(),
        crate::attachment::colors_error(ctx, cs) is None,
    ensures
        color_error(ctx, cs[i]) is None,
    decreases cs.len(),
{
    if i < cs.len() - 1 {
        assert(cs.drop_last()[i] == cs[i]);
        lemma_colors_no_error(ctx, cs.drop_last(), i);
    }
}

/// A name other than the swap chain's that is assigned to nothing denotes
/// the swap chain output of that name, by its position among the outputs.
pub proof fn law_unassigned_name_falls_back_to_output(
    ctx: AttachmentContextView,
    name: Seq<char>,
    i: usize,
)
    requires
        name != swap_chain_attachment_name(),
        !ctx.assignments.dom().contains(name),
        unique_names(ctx.swap_chain_outputs),
        (i as int) < ctx.swap_chain_outputs.len(),
        ctx.swap_chain_outputs[i as int] == name,
    ensures
        resolve_spec(ctx, name) == Ok::<TextureViewSource, crate::attachment::AttachmentError>(
            TextureViewSource::SwapChainOutput(i),
        ),
{
    let k = index_of_name(ctx.swap_chain_outputs, name);
    assert(ctx.swap_chain_outputs.contains(name));
    assert((k as int) < ctx.swap_chain_outputs.len() && ctx.swap_chain_outputs[k as int] == name);
    if k < i {
        assert(ctx.swap_chain_outputs[k as int] != ctx.swap_chain_outputs[i as int]);
    } else if k > i {
        assert(ctx.swap_chain_outputs[i as int] != ctx.swap_chain_outputs[k as int]);
    }
}

/// Why a name denotes no texture view: the swap chain is named without a
/// primary window, or without an output of the primary window; an assigned
/// resource has no texture; or the name is neither assigned nor an output.
pub proof fn law_resolve_errors(ctx: AttachmentContextView, name: Seq<char>)
    ensures
        name == swap_chain_attachment_name() && ctx.primary_swap_chain is None ==> resolve_spec(
            ctx,
            name,
        ) == Err::<TextureViewSource, crate::attachment::AttachmentError>(
            crate::attachment::AttachmentError::NoPrimarySwapChain,
        ),
        name == swap_chain_attachment_name() && (ctx.primary_swap_chain matches Some(p)
            && !ctx.swap_chain_outputs.contains(p)) ==> resolve_spec(ctx, name) == Err::<
            TextureViewSource,
            crate::attachment::AttachmentError,
        >(crate::attachment::AttachmentError::MissingSwapChainOutput),
        name != swap_chain_attachment_name() && ctx.assignments.dom().contains(name)
            && !ctx.textures.contains(ctx.assignments[name]) ==> resolve_spec(ctx, name) == Err::<
            TextureViewSource,
            crate::attachment::AttachmentError,
        >(crate::attachment::AttachmentError::MissingTexture(ctx.assignments[name])),
        name != swap_chain_attachment_name() && !ctx.assignments.dom().contains(name)
            && !ctx.swap_chain_outputs.contains(name) ==> resolve_spec(ctx, name) == Err::<
            TextureViewSource,
            crate::attachment::AttachmentError,
        >(crate::attachment::AttachmentError::UnknownAttachment),
{
}

proof fn lemma_colors_none(ctx: AttachmentContextView, cs: Seq<ColorAttachmentDescriptor>)
    requires
        forall|j: int| 0 <= j < cs.len() ==> color_error(ctx, #[trigger] cs[j]) is None,
    ensures
        crate::attachment::colors_error(ctx, cs) is None,
    decreases cs.len(),
{
    if cs.len() > 0 {
        let p = cs.drop_last();
        assert forall|j: int| 0 <= j < p.len() implies color_error(ctx, #[trigger] p[j]) is None by {
            assert(p[j] == cs[j]);
        }
        lemma_colors_none(ctx, p);
        assert(cs.last() == cs[cs.len() - 1]);
    }
}

proof fn lemma_colors_error_first(ctx: AttachmentContextView, cs: Seq<ColorAttachmentDescriptor>, i: int)
    requires
        0 <= i < cs.len(),
        color_error(ctx, cs[i]) is Some,
        forall|j: int| 0 <= j < i ==> color_error(ctx, #[trigger] cs[j]) is None,
    ensures
        crate::attachment::colors_error(ctx, cs) == color_error(ctx, cs[i]),
    decreases cs.len(),
{
    let p = cs.drop_last();
    if i == cs.len() - 1 {
        assert forall|j: int| 0 <= j < p.len() implies color_error(ctx, #[trigger] p[j]) is None by {
            assert(p[j] == cs[j]);
        }
        lemma_colors_none(ctx, p);
        assert(cs.last() == cs[i]);
    } else {
        assert(p[i] == cs[i]);
        assert forall|j: int| 0 <= j < i implies color_error(ctx, #[trigger] p[j]) is None by {
            assert(p[j] == cs[j]);
        }
        lemma_colors_error_first(ctx, p, i);
    }
}

/// A render pass fails with the error of its first failing attachment: the
/// first color attachment (in order) whose texture or resolve target does not
/// resolve, else the depth-stencil attachment when it does not resolve; it
/// fails with none when every attachment resolves.
pub proof fn law_pass_error_is_first_failure(ctx: AttachmentContextView, pass: PassDescriptor, i: int)
    ensures
        0 <= i < pass.color_attachments@.len() && color_error(ctx, pass.color_attachments@[i]) is Some
            && (forall|j: int|
            0 <= j < i ==> color_error(ctx, #[trigger] pass.color_attachments@[j]) is None)
            ==> pass_error(ctx, pass) == color_error(ctx, pass.color_attachments@[i]),
        (forall|j: int|
            0 <= j < pass.color_attachments@.len() ==> color_error(
                ctx,
                #[trigger] pass.color_attachments@[j],
            ) is None) ==> pass_error(ctx, pass) == match pass.depth_stencil_attachment {
            None => None,
            Some(d) => match resolve_spec(ctx, d.attachment@) {
                Err(e) => Some(e),
                Ok(_) => None::<crate::attachment::AttachmentError>,
            },
        },
{
    let cs = pass.color_attachments@;
    if 0 <= i < cs.len() && color_error(ctx, cs[i]) is Some && (forall|j: int|
        0 <= j < i ==> color_error(ctx, #[trigger] cs[j]) is None) {
        lemma_colors_error_first(ctx, cs, i);
    }
    if forall|j: int| 0 <= j < cs.len() ==> color_error(ctx, #[trigger] cs[j]) is None {
        lemma_colors_none(ctx, cs);
    }
}

/// The commands that begin the passes and draw their pipelines, pass by
/// pass: the pass at position `i` begins, then its pipelines draw.
pub open spec fn pass_blocks(g: FrameGraph, n: int) -> Seq<Seq<FrameCommand>> {
    Seq::new(n as nat, |i: int| seq![FrameCommand::BeginPass(i as usize)] + pass_body_spec(g, i))
}

proof fn lemma_passes_are_blocks(g: FrameGraph, n: int)
    requires
        0 <= n,
    ensures
        passes_spec(g, n) == pass_blocks(g, n).flatten(),
    decreases n,
{
    if n == 0 {
        assert(pass_blocks(g, 0) =~= Seq::<Seq<FrameCommand>>::empty());
        assert(passes_spec(g, 0) =~= Seq::<FrameCommand>::empty());
    } else {
        lemma_passes_are_blocks(g, n - 1);
        let block = seq![FrameCommand::BeginPass((n - 1) as usize)] + pass_body_spec(g, n - 1);
        assert(pass_blocks(g, n) =~= pass_blocks(g, n - 1).push(block));
        pass_blocks(g, n - 1).lemma_flatten_push(block);
        assert(passes_spec(g, n) =~= passes_spec(g, n - 1) + block);
    }
}

/// A frame draws its passes one after the other, in the graph's order: it is
/// the concatenation, over the passes, of the beginning of the pass followed
/// by the commands of that pass's pipelines, so nothing of a pass is drawn
/// before it begins or after the next one begins.
pub proof fn law_frame_is_passes_in_order(g: FrameGraph)
    ensures
        frame_commands(g) == pass_blocks(g, g.passes@.len() as int).flatten(),
{
    lemma_passes_are_blocks(g, g.passes@.len() as int);
}

/// Every command binds a pipeline that has a render pipeline, and every draw
/// uses a draw target the graph holds.
pub open spec fn commands_use_what_exists(
    g: FrameGraph,
    render_pipelines: Set<u128>,
    cmds: Seq<FrameCommand>,
) -> bool {
    forall|k: int|
        0 <= k < cmds.len() ==> match #[trigger] cmds[k] {
            FrameCommand::SetPipeline(c) => render_pipelines.contains(c),
            FrameCommand::Draw { draw_target, .. } => (draw_target as int) < g.draw_targets@.len(),
            FrameCommand::BeginPass(_) => true,
        }
}

proof fn lemma_use_concat(
    g: FrameGraph,
    rp: Set<u128>,
    a: Seq<FrameCommand>,
    b: Seq<FrameCommand>,
)
    requires
        commands_use_what_exists(g, rp, a),
        commands_use_what_exists(g, rp, b),
    ensures
        commands_use_what_exists(g, rp, a + b),
{
    assert forall|k: int| 0 <= k < (a + b).len() implies match #[trigger] (a + b)[k] {
        FrameCommand::SetPipeline(c) => rp.contains(c),
        FrameCommand::Draw { draw_target, .. } => (draw_target as int) < g.draw_targets@.len(),
        FrameCommand::BeginPass(_) => true,
    } by {
        if k < a.len() {
            assert((a + b)[k] == a[k]);
        } else {
            assert((a + b)[k] == b[k - a.len()]);
        }
    }
}

proof fn lemma_draws_use(g: FrameGraph, rp: Set<u128>, pipeline: u128, names: Seq<String>)
    requires
        draws_ready(g, names),
    ensures
        commands_use_what_exists(g, rp, draws_spec(g, pipeline, names)),
{
    law_draws_follow_draw_target_names(g, pipeline, names);
    assert(g.draw_targets@.len() == g.draw_targets.len());
    let d = draws_spec(g, pipeline, names);
    assert forall|k: int| 0 <= k < d.len() implies match #[trigger] d[k] {
        FrameCommand::SetPipeline(c) => rp.contains(c),
        FrameCommand::Draw { draw_target, .. } => (draw_target as int) < g.draw_targets@.len(),
        FrameCommand::BeginPass(_) => true,
    } by {
        assert(crate::lookup::first_position(g.draw_targets@, names[k]@) is Some);
        crate::lookup::law_first_position_is_first_match(g.draw_targets@, names[k]@);
    }
}

proof fn lemma_compiled_use(g: FrameGraph, rp: Set<u128>, cs: Seq<u128>)
    requires
        compiled_ready(g, rp, cs),
    ensures
        commands_use_what_exists(g, rp, compiled_spec(g, cs)),
    decreases cs.len(),
{
    if cs.len() > 0 {
        let p = cs.drop_last();
        assert forall|j: int| 0 <= j < p.len() implies crate::frame::pipeline_ready(
            g,
            rp,
            #[trigger] p[j],
        ) by {
            assert(p[j] == cs[j]);
        }
        lemma_compiled_use(g, rp, p);
        let c = cs.last();
        assert(crate::frame::pipeline_ready(g, rp, cs[cs.len() - 1]));
        lemma_draws_use(g, rp, c, draw_targets_of(g, c));
        let block = seq![FrameCommand::SetPipeline(c)];
        assert(commands_use_what_exists(g, rp, block));
        lemma_use_concat(g, rp, compiled_spec(g, p), block);
        lemma_use_concat(g, rp, compiled_spec(g, p) + block, draws_spec(g, c, draw_targets_of(g, c)));
    }
}

proof fn lemma_pipelines_use(g: FrameGraph, rp: Set<u128>, ps: Seq<u128>)
    requires
        pipelines_ready(g, rp, ps),
    ensures
        commands_use_what_exists(g, rp, pipelines_spec(g, ps)),
    decreases ps.len(),
{
    if ps.len() > 0 {
        let p = ps.drop_last();
        assert forall|j: int| 0 <= j < p.len() implies match first_entry(
            g.compiled_pipelines@,
            #[trigger] p[j],
        ) {
            Some(cs) => compiled_ready(g, rp, cs@),
            None => true,
        } by {
            assert(p[j] == ps[j]);
        }
        lemma_pipelines_use(g, rp, p);
        assert(ps.last() == ps[ps.len() - 1]);
        match first_entry(g.compiled_pipelines@, ps.last()) {
            Some(cs) => {
                lemma_compiled_use(g, rp, cs@);
                lemma_use_concat(g, rp, pipelines_spec(g, p), compiled_spec(g, cs@));
            },
            None => {
                assert(pipelines_spec(g, ps) =~= pipelines_spec(g, p));
            },
        }
    }
}

proof fn lemma_passes_use(g: FrameGraph, rp: Set<u128>, n: int)
    requires
        0 <= n <= g.passes@.len(),
        frame_ready(g, rp),
    ensures
        commands_use_what_exists(g, rp, passes_spec(g, n)),
    decreases n,
{
    if n > 0 {
        lemma_passes_use(g, rp, n - 1);
        assert(pass_ready(g, rp, n - 1));
        match crate::lookup::first_named(g.pass_pipelines@, g.passes@[n - 1]@) {
            Some(ps) => lemma_pipelines_use(g, rp, ps@),
            None => {},
        }
        let begin = seq![FrameCommand::BeginPass((n - 1) as usize)];
        assert(commands_use_what_exists(g, rp, begin));
        lemma_use_concat(g, rp, passes_spec(g, n - 1), begin);
        lemma_use_concat(g, rp, passes_spec(g, n - 1) + begin, pass_body_spec(g, n - 1));
    } else {
        assert(passes_spec(g, n) =~= Seq::<FrameCommand>::empty());
    }
}

/// A frame that is ready to draw binds only pipelines that have a render
/// pipeline and draws only with draw targets the graph holds.
pub proof fn law_ready_frame_uses_what_exists(g: FrameGraph, render_pipelines: Set<u128>)
    requires
        frame_ready(g, render_pipelines),
    ensures
        commands_use_what_exists(g, render_pipelines, frame_commands(g)),
{
    lemma_passes_use(g, render_pipelines, g.passes@.len() as int);
}

/// A color attachment fails with the error of its texture when that does
/// not resolve, else with that of its resolve target when there is one and
/// it does not resolve; it fails with none when both resolve.
pub proof fn law_color_error_texture_first(ctx: AttachmentContextView, c: ColorAttachmentDescriptor)
    ensures
        resolve_spec(ctx, c.attachment@) matches Err(e) ==> color_error(ctx, c) == Some(e),
        resolve_spec(ctx, c.attachment@) is Ok ==> color_error(ctx, c) == match c.resolve_target {
            None => None,
            Some(t) => match resolve_spec(ctx, t@) {
                Err(e) => Some(e),
                Ok(_) => None::<crate::attachment::AttachmentError>,
            },
        },
{
}

} // verus!
