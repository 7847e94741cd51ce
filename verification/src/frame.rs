use vstd::prelude::*;

use crate::keys::KeySet;
use crate::renderer::WgpuRenderer;
use crate::lookup::{find_entry, find_named, find_position, first_entry, first_named, first_position};

verus! {

/// What the drawing part of a frame reads from the render graph and the asset
/// storages.
pub struct FrameGraph {
    /// The names of the render passes, in the order they are drawn.
    pub passes: Vec<String>,
    /// For a pass name, the pipelines drawn in that pass.
    pub pass_pipelines: Vec<(String, Vec<u128>)>,
    /// For a pipeline, the specialized pipelines compiled from it.
    pub compiled_pipelines: Vec<(u128, Vec<u128>)>,
    /// For a compiled pipeline, the names of the draw targets its descriptor lists.
    pub pipeline_draw_targets: Vec<(u128, Vec<String>)>,
    /// The names of the draw targets the render graph holds.
    pub draw_targets: Vec<String>,
}

/// One step of drawing a frame.
#[derive(Clone, Copy, Debug, PartialEq, Eq, Structural)]
pub enum FrameCommand {
    /// Begin the render pass at this position of `FrameGraph::passes`.
    BeginPass(usize),
    /// Bind the render pipeline compiled for this handle.
    SetPipeline(u128),
    /// Let the draw target at this position of `FrameGraph::draw_targets`
    /// draw with this compiled pipeline.
    Draw { draw_target: usize, pipeline: u128 },
}

/// The position of a draw target, by name.
pub open spec fn draw_target_position(g: FrameGraph, name: Seq<char>) -> usize {
    match first_position(g.draw_targets@, name) {
        Some(i) => i,
        None => 0,
    }
}

/// The names of the draw targets of a compiled pipeline.
pub open spec fn draw_targets_of(g: FrameGraph, pipeline: u128) -> Seq<String> {
    match first_entry(g.pipeline_draw_targets@, pipeline) {
        Some(v) => v@,
        None => Seq::empty(),
    }
}

/// The draws of one compiled pipeline, one per draw target name, in order.
pub open spec fn draws_spec(g: FrameGraph, pipeline: u128, names: Seq<String>) -> Seq<FrameCommand>
    decreases names.len(),
{
    if names.len() == 0 {
        Seq::empty()
    } else {
        draws_spec(g, pipeline, names.drop_last()).push(
            FrameCommand::Draw {
                draw_target: draw_target_position(g, names.last()@),
                pipeline,
            },
        )
    }
}

/// For each compiled pipeline in order: bind it, then let its draw targets draw.
pub open spec fn compiled_spec(g: FrameGraph, cs: Seq<u128>) -> Seq<FrameCommand>
    decreases cs.len(),
{
    if cs.len() == 0 {
        Seq::empty()
    } else {
        compiled_spec(g, cs.drop_last()) + seq![FrameCommand::SetPipeline(cs.last())] + draws_spec(
            g,
            cs.last(),
            draws_targets_of_last(g, cs),
        )
    }
}

/// The draw target names of the last compiled pipeline of `cs`.
pub open spec fn draws_targets_of_last(g: FrameGraph, cs: Seq<u128>) -> Seq<String> {
    draw_targets_of(g, cs.last())
}

/// The commands of the pipelines of a pass, in order; a pipeline that has not
/// been compiled draws nothing.
pub open spec fn pipelines_spec(g: FrameGraph, ps: Seq<u128>) -> Seq<FrameCommand>
    decreases ps.len(),
{
    if ps.len() == 0 {
        Seq::empty()
    } else {
        pipelines_spec(g, ps.drop_last()) + match first_entry(g.compiled_pipelines@, ps.last()) {
            Some(cs) => compiled_spec(g, cs@),
            None => Seq::empty(),
        }
    }
}

/// The commands of the first `n` passes: each begins, then its pipelines draw.
pub open spec fn passes_spec(g: FrameGraph, n: int) -> Seq<FrameCommand>
    decreases n,
{
    if n <= 0 {
        Seq::empty()
    } else {
        passes_spec(g, n - 1) + seq![FrameCommand::BeginPass((n - 1) as usize)] + pass_body_spec(
            g,
            n - 1,
        )
    }
}

/// The commands of the pipelines of the pass at position `i`.
pub open spec fn pass_body_spec(g: FrameGraph, i: int) -> Seq<FrameCommand> {
    match first_named(g.pass_pipelines@, g.passes@[i]@) {
        Some(ps) => pipelines_spec(g, ps@),
        None => Seq::empty(),
    }
}

/// Every name is the name of a draw target of the graph.
pub open spec fn draws_ready(g: FrameGraph, names: Seq<String>) -> bool {
    forall|j: int| 0 <= j < names.len() ==> first_position(g.draw_targets@, #[trigger] names[j]@) is Some
}

/// A compiled pipeline has a render pipeline, a descriptor, and its draw targets exist.
pub open spec fn pipeline_ready(g: FrameGraph, render_pipelines: Set<u128>, c: u128) -> bool {
    &&& render_pipelines.contains(c)
    &&& first_entry(g.pipeline_draw_targets@, c) is Some
    &&& draws_ready(g, draw_targets_of(g, c))
}

/// Every compiled pipeline of `cs` is ready.
pub open spec fn compiled_ready(g: FrameGraph, render_pipelines: Set<u128>, cs: Seq<u128>) -> bool {
    forall|j: int| 0 <= j < cs.len() ==> pipeline_ready(g, render_pipelines, #[trigger] cs[j])
}

/// Every compiled pipeline of every pipeline of `ps` is ready.
pub open spec fn pipelines_ready(g: FrameGraph, render_pipelines: Set<u128>, ps: Seq<u128>) -> bool {
    forall|j: int|
        0 <= j < ps.len() ==> match first_entry(g.compiled_pipelines@, #[trigger] ps[j]) {
            Some(cs) => compiled_ready(g, render_pipelines, cs@),
            None => true,
        }
}

/// Every pipeline reached while drawing the pass at position `i` is ready.
pub open spec fn pass_ready(g: FrameGraph, render_pipelines: Set<u128>, i: int) -> bool {
    match first_named(g.pass_pipelines@, g.passes@[i]@) {
        Some(ps) => pipelines_ready(g, render_pipelines, ps@),
        None => true,
    }
}

/// Drawing the frame finds, for every compiled pipeline it reaches, its
/// render pipeline, its descriptor and each draw target the descriptor names.
pub open spec fn frame_ready(g: FrameGraph, render_pipelines: Set<u128>) -> bool {
    forall|i: int| 0 <= i < g.passes@.len() ==> #[trigger] pass_ready(g, render_pipelines, i)
}

/// All the commands of a frame.
pub open spec fn frame_commands(g: FrameGraph) -> Seq<FrameCommand> {
    passes_spec(g, g.passes@.len() as int)
}

fn push_draws(g: &FrameGraph, pipeline: u128, names: &Vec<String>, out: &mut Vec<FrameCommand>) -> (ok: bool)
    ensures
        ok == draws_ready(*g, names@),
        ok ==> final(out)@ == old(out)@ + draws_spec(*g, pipeline, names@),
{
    let ghost start = out@;
    let mut i: usize = 0;
    while i < names.len()
        invariant
            0 <= i <= names.len(),
            draws_ready(*g, names@.take(i as int)),
            out@ == start + draws_spec(*g, pipeline, names@.take(i as int)),
        decreases names.len() - i,
    {
        let ghost prefix = names@.take(i as int + 1);
        proof {
            assert(prefix.drop_last() =~= names@.take(i as int));
            assert(prefix.last() == names@[i as int]);
        }
        match find_position(&g.draw_targets, &names[i]) {
            None => {
                proof {
                    assert(!draws_ready(*g, names@) ) by {
                        assert(names@[i as int]@ == names[i as int]@);
                    }
                }
                return false;
            },
            Some(t) => {
                out.push(FrameCommand::Draw { draw_target: t, pipeline });
                proof {
                    assert(out@ =~= start + draws_spec(*g, pipeline, prefix));
                    assert forall|j: int| 0 <= j < prefix.len() implies first_position(
                        g.draw_targets@,
                        #[trigger] prefix[j]@,
                    ) is Some by {
                        if j < i {
                            assert(prefix[j] == names@.take(i as int)[j]);
                        }
                    }
                }
            },
        }
        i = i + 1;
    }
    proof {
        assert(names@.take(names@.len() as int) =~= names@);
    }
    true
}

fn push_compiled(
    g: &FrameGraph,
    render_pipelines: &KeySet,
    cs: &Vec<u128>,
    out: &mut Vec<FrameCommand>,
) -> (ok: bool)
    ensures
        ok == compiled_ready(*g, render_pipelines@, cs@),
        ok ==> final(out)@ == old(out)@ + compiled_spec(*g, cs@),
{
    let ghost start = out@;
    let mut i: usize = 0;
    while i < cs.len()
        invariant
            0 <= i <= cs.len(),
            compiled_ready(*g, render_pipelines@, cs@.take(i as int)),
            out@ == start + compiled_spec(*g, cs@.take(i as int)),
        decreases cs.len() - i,
    {
        let ghost prefix = cs@.take(i as int + 1);
        let ghost before = out@;
        proof {
            assert(prefix.drop_last() =~= cs@.take(i as int));
            assert(prefix.last() == cs@[i as int]);
        }
        let c = cs[i];
        if !render_pipelines.contains(c) {
            proof {
                assert(!pipeline_ready(*g, render_pipelines@, cs@[i as int]));
            }
            return false;
        }
        match find_entry(&g.pipeline_draw_targets, c) {
            None => {
                proof {
                    assert(!pipeline_ready(*g, render_pipelines@, cs@[i as int]));
                }
                return false;
            },
            Some(k) => {
                out.push(FrameCommand::SetPipeline(c));
                let ok = push_draws(g, c, &g.pipeline_draw_targets[k].1, out);
                if !ok {
                    proof {
                        assert(!pipeline_ready(*g, render_pipelines@, cs@[i as int]));
                    }
                    return false;
                }
                proof {
                    assert(draw_targets_of(*g, c) == g.pipeline_draw_targets@[k as int].1@);
                    assert(out@ =~= start + compiled_spec(*g, prefix));
                    assert forall|j: int| 0 <= j < prefix.len() implies pipeline_ready(
                        *g,
                        render_pipelines@,
                        #[trigger] prefix[j],
                    ) by {
                        if j < i {
                            assert(prefix[j] == cs@.take(i as int)[j]);
                        }
                    }
                }
            },
        }
        i = i + 1;
    }
    proof {
        assert(cs@.take(cs@.len() as int) =~= cs@);
    }
    true
}

fn push_pipelines(
    g: &FrameGraph,
    render_pipelines: &KeySet,
    ps: &Vec<u128>,
    out: &mut Vec<FrameCommand>,
) -> (ok: bool)
    ensures
        ok == pipelines_ready(*g, render_pipelines@, ps@),
        ok ==> final(out)@ == old(out)@ + pipelines_spec(*g, ps@),
{
    let ghost start = out@;
    let mut i: usize = 0;
    while i < ps.len()
        invariant
            0 <= i <= ps.len(),
            pipelines_ready(*g, render_pipelines@, ps@.take(i as int)),
            out@ == start + pipelines_spec(*g, ps@.take(i as int)),
        decreases ps.len() - i,
    {
        let ghost prefix = ps@.take(i as int + 1);
        proof {
            assert(prefix.drop_last() =~= ps@.take(i as int));
            assert(prefix.last() == ps@[i as int]);
        }
        match find_entry(&g.compiled_pipelines, ps[i]) {
            None => {
                proof {
                    assert(out@ =~= start + pipelines_spec(*g, prefix));
                }
            },
            Some(k) => {
                let ok = push_compiled(g, render_pipelines, &g.compiled_pipelines[k].1, out);
                if !ok {
                    proof {
                        let cs = g.compiled_pipelines@[k as int].1;
                        assert(first_entry(g.compiled_pipelines@, ps@[i as int]) == Some(cs));
                        assert(!pipelines_ready(*g, render_pipelines@, ps@)) by {
                            assert(0 <= i < ps@.len());
                        }
                    }
                    return false;
                }
                proof {
                    assert(out@ =~= start + pipelines_spec(*g, prefix));
                }
            },
        }
        proof {
            assert forall|j: int| 0 <= j < prefix.len() implies match first_entry(
                g.compiled_pipelines@,
                #[trigger] prefix[j],
            ) {
                Some(cs) => compiled_ready(*g, render_pipelines@, cs@),
                None => true,
            } by {
                if j < i {
                    assert(prefix[j] == ps@.take(i as int)[j]);
                }
            }
        }
        i = i + 1;
    }
    proof {
        assert(ps@.take(ps@.len() as int) =~= ps@);
    }
    true
}

/// The commands that draw a frame, or `None` when drawing it would meet a
/// compiled pipeline without a render pipeline or a descriptor, or a draw
/// target name the graph does not hold.
fn plan_frame(g: &FrameGraph, render_pipelines: &KeySet) -> (r: Option<Vec<FrameCommand>>)
    ensures
        r is Some <==> frame_ready(*g, render_pipelines@),
        r matches Some(cmds) ==> cmds@ == frame_commands(*g),
{
    let mut out: Vec<FrameCommand> = Vec::new();
    let mut i: usize = 0;
    while i < g.passes.len()
        invariant
            0 <= i <= g.passes.len(),
            forall|j: int| 0 <= j < i ==> #[trigger] pass_ready(*g, render_pipelines@, j),
            out@ == passes_spec(*g, i as int),
        decreases g.passes.len() - i,
    {
        out.push(FrameCommand::BeginPass(i));
        match find_named(&g.pass_pipelines, &g.passes[i]) {
            None => {
                proof {
                    assert(out@ =~= passes_spec(*g, i as int + 1));
                }
            },
            Some(k) => {
                let ok = push_pipelines(g, render_pipelines, &g.pass_pipelines[k].1, &mut out);
                if !ok {
                    proof {
                        assert(!pass_ready(*g, render_pipelines@, i as int));
                    }
                    return None;
                }
                proof {
                    assert(out@ =~= passes_spec(*g, i as int + 1));
                }
            },
        }
        i = i + 1;
    }
    Some(out)
}

impl WgpuRenderer {
    /// Whether the frame can be drawn: every compiled pipeline reached has a
    /// render pipeline and a descriptor, and every draw target it names exists.
    pub fn passes_ready(&self, graph: &FrameGraph) -> (r: bool)
        ensures
            r == frame_ready(*graph, self.render_pipelines@),
    {
        plan_frame(graph, &self.render_pipelines).is_some()
    }

    /// The commands that draw a frame: for each pass in order, begin it, then
    /// for each of its pipelines and each pipeline compiled from it, bind the
    /// compiled pipeline and let each draw target of its descriptor draw.
    pub fn render_passes(&self, graph: &FrameGraph) -> (commands: Vec<FrameCommand>)
        requires
            frame_ready(*graph, self.render_pipelines@),
        ensures
            commands@ == frame_commands(*graph),
    {
        match plan_frame(graph, &self.render_pipelines) {
            Some(commands) => commands,
            None => {
                proof {
                    assert(false);
                }
                Vec::new()
            },
        }
    }
}

} // verus!
