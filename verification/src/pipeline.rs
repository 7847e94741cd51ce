use vstd::prelude::*;

use crate::keys::KeySet;
use crate::renderer::WgpuRenderer;

verus! {

/// A bind group of a pipeline layout: its id and the binding slots of its bindings.
#[derive(Debug)]
pub struct BindGroupLayoutDescriptor {
    pub id: u128,
    pub bindings: Vec<u32>,
}

/// One entry of a bind group layout to create: the binding slot and the bits
/// of the `wgpu::ShaderStage` set from which it is visible (the binding's type
/// is converted beside it, position for position).
#[derive(Clone, Copy, Debug, PartialEq, Eq, Structural)]
pub struct LayoutEntryPlan {
    pub binding: u32,
    pub visibility: u32,
}

/// A bind group layout to create: the position of its bind group in the
/// pipeline layout, its id, and its entries in the order of the bindings.
#[derive(Debug)]
pub struct BindGroupLayoutPlan {
    pub position: usize,
    pub id: u128,
    pub entries: Vec<LayoutEntryPlan>,
}

/// The shader modules of a pipeline: a vertex shader and an optional fragment shader.
#[derive(Clone, Copy, Debug, PartialEq, Eq, Structural)]
pub struct PipelineShaders {
    pub vertex: u128,
    pub fragment: Option<u128>,
}

/// What creating a render pipeline takes: the bind group layouts to create
/// first, the bind group layout ids of its pipeline layout in order, the
/// shader modules to create first, the vertex and fragment modules, and the
/// entry point of both stages.
#[derive(Debug)]
pub struct RenderPipelinePlan {
    pub bind_group_layouts: Vec<BindGroupLayoutPlan>,
    pub pipeline_layout: Vec<u128>,
    pub shader_modules: Vec<u128>,
    pub vertex_module: u128,
    pub fragment_module: Option<u128>,
    pub entry_point: String,
}

/// The entry point of every shader stage.
pub open spec fn shader_entry_point() -> Seq<char> {
    "main"@
}

/// Bindings are visible from the vertex and the fragment stage: the bits of
/// `wgpu::ShaderStage::VERTEX` (1) and `wgpu::ShaderStage::FRAGMENT` (2).
pub open spec fn vertex_and_fragment() -> u32 {
    3
}

/// The set `wgpu::ShaderStage::VERTEX | wgpu::ShaderStage::FRAGMENT`, by its
/// bits. wgpu-types defines `VERTEX` as 1 and `FRAGMENT` as 2 in its
/// `ShaderStage` bitflags, so the union is 3; the contract claims no more.
#[verifier::external_body]
fn binding_visibility() -> (bits: u32)
    ensures
        bits == vertex_and_fragment(),
{
    (wgpu::ShaderStage::VERTEX | wgpu::ShaderStage::FRAGMENT).bits()
}

/// The entries of a bind group layout, one per binding slot, in order.
pub open spec fn entries_match(entries: Seq<LayoutEntryPlan>, bindings: Seq<u32>) -> bool {
    &&& entries.len() == bindings.len()
    &&& forall|k: int|
        0 <= k < bindings.len() ==> #[trigger] entries[k] == (LayoutEntryPlan {
            binding: bindings[k],
            visibility: vertex_and_fragment(),
        })
}

/// The bind group layouts known after visiting `bgs` in order.
pub open spec fn layouts_after(existing: Set<u128>, bgs: Seq<BindGroupLayoutDescriptor>) -> Set<u128>
    decreases bgs.len(),
{
    if bgs.len() == 0 {
        existing
    } else {
        layouts_after(existing, bgs.drop_last()).insert(bgs.last().id)
    }
}

/// The positions of the bind groups whose layout is created: those whose id
/// is neither known before nor created for an earlier bind group.
pub open spec fn layouts_to_create(existing: Set<u128>, bgs: Seq<BindGroupLayoutDescriptor>) -> Seq<
    usize,
>
    decreases bgs.len(),
{
    if bgs.len() == 0 {
        Seq::empty()
    } else {
        let prev = layouts_to_create(existing, bgs.drop_last());
        if layouts_after(existing, bgs.drop_last()).contains(bgs.last().id) {
            prev
        } else {
            prev.push((bgs.len() - 1) as usize)
        }
    }
}

/// The layout plans describe, in order, the bind groups at `positions`.
pub open spec fn layout_plans_match(
    plans: Seq<BindGroupLayoutPlan>,
    bgs: Seq<BindGroupLayoutDescriptor>,
    positions: Seq<usize>,
) -> bool {
    &&& plans.len() == positions.len()
    &&& forall|k: int|
        0 <= k < plans.len() ==> {
            &&& (#[trigger] plans[k]).position == positions[k]
            &&& (positions[k] as int) < bgs.len()
            &&& plans[k].id == bgs[positions[k] as int].id
            &&& entries_match(plans[k].entries@, bgs[positions[k] as int].bindings@)
        }
}

/// The ids of the bind groups of a layout, in order.
pub open spec fn layout_ids(bgs: Seq<BindGroupLayoutDescriptor>) -> Seq<u128> {
    bgs.map_values(|b: BindGroupLayoutDescriptor| b.id)
}

/// The shader modules to create: the vertex shader's if it has none, then the
/// fragment shader's if there is one and it has none (counting the vertex
/// module just created).
pub open spec fn shader_modules_to_create(existing: Set<u128>, shaders: PipelineShaders) -> Seq<u128> {
    let vertex_new: Seq<u128> = if existing.contains(shaders.vertex) {
        Seq::empty()
    } else {
        seq![shaders.vertex]
    };
    vertex_new + match shaders.fragment {
        Some(f) => if existing.insert(shaders.vertex).contains(f) {
            Seq::<u128>::empty()
        } else {
            seq![f]
        },
        None => Seq::<u128>::empty(),
    }
}

/// The shader modules known after a pipeline's shaders are set up.
pub open spec fn shader_modules_after(existing: Set<u128>, shaders: PipelineShaders) -> Set<u128> {
    match shaders.fragment {
        Some(f) => existing.insert(shaders.vertex).insert(f),
        None => existing.insert(shaders.vertex),
    }
}

/// The layout entries of a bind group: one per binding slot, visible from the
/// vertex and the fragment stage.
fn layout_entries(bindings: &Vec<u32>) -> (entries: Vec<LayoutEntryPlan>)
    ensures
        entries_match(entries@, bindings@),
{
    let visibility = binding_visibility();
    let mut entries: Vec<LayoutEntryPlan> = Vec::new();
    let mut i: usize = 0;
    while i < bindings.len()
        invariant
            0 <= i <= bindings.len(),
            visibility == vertex_and_fragment(),
            entries@.len() == i,
            forall|k: int|
                0 <= k < i ==> #[trigger] entries@[k] == (LayoutEntryPlan {
                    binding: bindings@[k],
                    visibility: vertex_and_fragment(),
                }),
        decreases bindings.len() - i,
    {
        entries.push(LayoutEntryPlan { binding: bindings[i], visibility });
        i = i + 1;
    }
    entries
}

/// Plans the bind group layouts of a pipeline layout that do not exist yet
/// and records them in `layouts`.
fn plan_bind_group_layouts(layouts: &mut KeySet, bgs: &Vec<BindGroupLayoutDescriptor>) -> (plans:
    Vec<BindGroupLayoutPlan>)
    ensures
        layout_plans_match(plans@, bgs@, layouts_to_create(old(layouts)@, bgs@)),
        final(layouts)@ == layouts_after(old(layouts)@, bgs@),
{
    let ghost start = layouts@;
    let mut plans: Vec<BindGroupLayoutPlan> = Vec::new();
    let mut i: usize = 0;
    while i < bgs.len()
        invariant
            0 <= i <= bgs.len(),
            layout_plans_match(plans@, bgs@, layouts_to_create(start, bgs@.take(i as int))),
            forall|k: int|
                0 <= k < layouts_to_create(start, bgs@.take(i as int)).len() ==> (
                #[trigger] layouts_to_create(start, bgs@.take(i as int))[k] as int) < i,
            layouts@ == layouts_after(start, bgs@.take(i as int)),
        decreases bgs.len() - i,
    {
        let ghost prefix = bgs@.take(i as int + 1);
        let ghost prev_positions = layouts_to_create(start, bgs@.take(i as int));
        let ghost prev_plans = plans@;
        proof {
            assert(prefix.drop_last() =~= bgs@.take(i as int));
            assert(prefix.last() == bgs@[i as int]);
        }
        let id = bgs[i].id;
        if !layouts.contains(id) {
            let entries = layout_entries(&bgs[i].bindings);
            plans.push(BindGroupLayoutPlan { position: i, id, entries });
            layouts.insert(id);
            proof {
                let positions = layouts_to_create(start, prefix);
                assert(positions == prev_positions.push(i));
                assert forall|k: int| 0 <= k < plans@.len() implies {
                    &&& (#[trigger] plans@[k]).position == positions[k]
                    &&& (positions[k] as int) < bgs@.len()
                    &&& plans@[k].id == bgs@[positions[k] as int].id
                    &&& entries_match(plans@[k].entries@, bgs@[positions[k] as int].bindings@)
                } by {
                    if k < prev_plans.len() {
                        assert(plans@[k] == prev_plans[k]);
                        assert(positions[k] == prev_positions[k]);
                    }
                }
            }
        } else {
            proof {
                assert(layouts_to_create(start, prefix) == prev_positions);
                assert(layouts_after(start, prefix) =~= layouts@);
            }
        }
        i = i + 1;
    }
    proof {
        assert(bgs@.take(bgs@.len() as int) =~= bgs@);
    }
    plans
}

/// The ids of the bind groups of a layout, in order.
fn bind_group_ids(bgs: &Vec<BindGroupLayoutDescriptor>) -> (ids: Vec<u128>)
    ensures
        ids@ == layout_ids(bgs@),
{
    let mut ids: Vec<u128> = Vec::new();
    let mut i: usize = 0;
    while i < bgs.len()
        invariant
            0 <= i <= bgs.len(),
            ids@ == layout_ids(bgs@.take(i as int)),
        decreases bgs.len() - i,
    {
        ids.push(bgs[i].id);
        proof {
            assert(layout_ids(bgs@.take(i as int + 1)) =~= layout_ids(bgs@.take(i as int)).push(
                bgs@[i as int].id,
            ));
        }
        i = i + 1;
    }
    proof {
        assert(bgs@.take(bgs@.len() as int) =~= bgs@);
    }
    ids
}

/// Plans the shader modules of a pipeline that do not exist yet and records
/// them in `modules`.
fn plan_shader_modules(modules: &mut KeySet, shaders: PipelineShaders) -> (created: Vec<u128>)
    ensures
        created@ == shader_modules_to_create(old(modules)@, shaders),
        final(modules)@ == shader_modules_after(old(modules)@, shaders),
{
    let ghost start = modules@;
    let mut created: Vec<u128> = Vec::new();
    if !modules.contains(shaders.vertex) {
        created.push(shaders.vertex);
        modules.insert(shaders.vertex);
    }
    proof {
        assert(modules@ =~= start.insert(shaders.vertex));
    }
    let ghost vertex_new = created@;
    if let Some(f) = shaders.fragment {
        if !modules.contains(f) {
            created.push(f);
            modules.insert(f);
        }
        proof {
            assert(modules@ =~= start.insert(shaders.vertex).insert(f));
        }
    }
    proof {
        assert(created@ =~= shader_modules_to_create(start, shaders));
    }
    created
}

impl WgpuRenderer {
    /// Plans the creation of the render pipeline for `pipeline_handle`, from
    /// the bind groups of its layout and its shaders, and records what the
    /// plan creates. A handle that already has a render pipeline is left
    /// alone (`None`).
    pub fn setup_render_pipeline(
        &mut self,
        pipeline_handle: u128,
        bind_groups: &Vec<BindGroupLayoutDescriptor>,
        shaders: PipelineShaders,
    ) -> (plan: Option<RenderPipelinePlan>)
        ensures
            old(self).render_pipelines@.contains(pipeline_handle) ==> {
                &&& plan is None
                &&& final(self).render_pipelines == old(self).render_pipelines
                &&& final(self).bind_group_layouts == old(self).bind_group_layouts
                &&& final(self).shader_modules == old(self).shader_modules
            },
            !old(self).render_pipelines@.contains(pipeline_handle) ==> {
                &&& plan matches Some(p) && {
                    &&& layout_plans_match(
                        p.bind_group_layouts@,
                        bind_groups@,
                        layouts_to_create(old(self).bind_group_layouts@, bind_groups@),
                    )
                    &&& p.pipeline_layout@ == layout_ids(bind_groups@)
                    &&& p.shader_modules@ == shader_modules_to_create(
                        old(self).shader_modules@,
                        shaders,
                    )
                    &&& p.vertex_module == shaders.vertex
                    &&& p.fragment_module == shaders.fragment
                    &&& p.entry_point@ == shader_entry_point()
                }
                &&& final(self).render_pipelines@ == old(self).render_pipelines@.insert(
                    pipeline_handle,
                )
                &&& final(self).bind_group_layouts@ == layouts_after(
                    old(self).bind_group_layouts@,
                    bind_groups@,
                )
                &&& final(self).shader_modules@ == shader_modules_after(
                    old(self).shader_modules@,
                    shaders,
                )
            },
            final(self).intialized == old(self).intialized,
            final(self).encoder_open == old(self).encoder_open,
            final(self).bind_groups == old(self).bind_groups,
    {
        if self.render_pipelines.contains(pipeline_handle) {
            return None;
        }
        let layouts = plan_bind_group_layouts(&mut self.bind_group_layouts, bind_groups);
        let pipeline_layout = bind_group_ids(bind_groups);
        let modules = plan_shader_modules(&mut self.shader_modules, shaders);
        self.render_pipelines.insert(pipeline_handle);
        Some(
            RenderPipelinePlan {
                bind_group_layouts: layouts,
                pipeline_layout,
                shader_modules: modules,
                vertex_module: shaders.vertex,
                fragment_module: shaders.fragment,
                entry_point: "main".to_owned(),
            },
        )
    }
}

/// Each planned bind group layout lists the bindings of the bind group it is
/// planned for: one entry per binding of the bind group at the plan's
/// position, with that binding's slot, in order, visible from the vertex and
/// the fragment stage.
pub proof fn law_layout_plans_list_their_bindings(
    plans: Seq<BindGroupLayoutPlan>,
    bgs: Seq<BindGroupLayoutDescriptor>,
    positions: Seq<usize>,
)
    requires
        layout_plans_match(plans, bgs, positions),
    ensures
        forall|k: int|
            0 <= k < plans.len() ==> {
                let bg = bgs[(#[trigger] plans[k]).position as int];
                &&& (plans[k].position as int) < bgs.len()
                &&& plans[k].id == bg.id
                &&& plans[k].entries@.len() == bg.bindings@.len()
                &&& forall|j: int|
                    0 <= j < bg.bindings@.len() ==> (#[trigger] plans[k].entries@[j]).binding
                        == bg.bindings@[j] && plans[k].entries@[j].visibility == 3
            },
{
    assert forall|k: int| 0 <= k < plans.len() implies {
        let bg = bgs[(#[trigger] plans[k]).position as int];
        &&& (plans[k].position as int) < bgs.len()
        &&& plans[k].id == bg.id
        &&& plans[k].entries@.len() == bg.bindings@.len()
        &&& forall|j: int|
            0 <= j < bg.bindings@.len() ==> (#[trigger] plans[k].entries@[j]).binding
                == bg.bindings@[j] && plans[k].entries@[j].visibility == 3
    } by {
        let bg = bgs[plans[k].position as int];
        assert(plans[k].position == positions[k]);
        assert(entries_match(plans[k].entries@, bg.bindings@));
        assert forall|j: int| 0 <= j < bg.bindings@.len() implies (
        #[trigger] plans[k].entries@[j]).binding == bg.bindings@[j]
            && plans[k].entries@[j].visibility == 3 by {
            assert(plans[k].entries@[j] == (LayoutEntryPlan {
                binding: bg.bindings@[j],
                visibility: vertex_and_fragment(),
            }));
        }
    }
}

/// After a pipeline's bind group layouts are set up, a layout id is known
/// exactly when it was known before or some bind group of the layout has it.
pub proof fn law_layouts_after_setup(existing: Set<u128>, bgs: Seq<BindGroupLayoutDescriptor>, id: u128)
    ensures
        layouts_after(existing, bgs).contains(id) <==> (existing.contains(id) || exists|j: int|
            0 <= j < bgs.len() && (#[trigger] bgs[j]).id == id),
    decreases bgs.len(),
{
    if bgs.len() > 0 {
        let p = bgs.drop_last();
        law_layouts_after_setup(existing, p, id);
        assert(bgs.last() == bgs[bgs.len() - 1]);
        if exists|j: int| 0 <= j < p.len() && (#[trigger] p[j]).id == id {
            let j = choose|j: int| 0 <= j < p.len() && (#[trigger] p[j]).id == id;
            assert(bgs[j] == p[j]);
        }
        if exists|j: int| 0 <= j < bgs.len() && (#[trigger] bgs[j]).id == id {
            let j = choose|j: int| 0 <= j < bgs.len() && (#[trigger] bgs[j]).id == id;
            if j < bgs.len() - 1 {
                assert(p[j] == bgs[j]);
            }
        }
    }
}

/// Every bind group whose id was neither known before nor had by an earlier
/// bind group of the layout gets its layout planned: its position is among
/// those returned. (A list of bind groups is at most `usize::MAX` long.)
pub proof fn law_missing_layouts_are_created(
    existing: Set<u128>,
    bgs: Seq<BindGroupLayoutDescriptor>,
    i: int,
)
    requires
        bgs.len() <= usize::MAX,
        0 <= i < bgs.len(),
        !existing.contains(bgs[i].id),
        forall|j: int| 0 <= j < i ==> (#[trigger] bgs[j]).id != bgs[i].id,
    ensures
        layouts_to_create(existing, bgs).contains(i as usize),
    decreases bgs.len(),
{
    let p = bgs.drop_last();
    let prev = layouts_to_create(existing, p);
    let cur = layouts_to_create(existing, bgs);
    assert(bgs.last() == bgs[bgs.len() - 1]);
    if i == bgs.len() - 1 {
        law_layouts_after_setup(existing, p, bgs[i].id);
        if exists|j: int| 0 <= j < p.len() && (#[trigger] p[j]).id == bgs[i].id {
            let j = choose|j: int| 0 <= j < p.len() && (#[trigger] p[j]).id == bgs[i].id;
            assert(bgs[j] == p[j]);
        }
        assert(cur == prev.push((bgs.len() - 1) as usize));
        assert(cur[prev.len() as int] == i as usize);
    } else {
        assert(p[i] == bgs[i]);
        assert forall|j: int| 0 <= j < i implies (#[trigger] p[j]).id != p[i].id by {
            assert(p[j] == bgs[j]);
        }
        law_missing_layouts_are_created(existing, p, i);
        let k = choose|k: int| 0 <= k < prev.len() && prev[k] == i as usize;
        if layouts_after(existing, p).contains(bgs.last().id) {
            assert(cur == prev);
        } else {
            assert(cur == prev.push((bgs.len() - 1) as usize));
            assert(cur[k] == prev[k]);
        }
        assert(cur[k] == i as usize);
    }
}

/// The shader modules created are exactly the pipeline's shaders that had
/// no module: the vertex shader's when it had none, then the fragment
/// shader's when there is one, it had none and it differs from the vertex
/// shader; nothing else.
pub proof fn law_missing_shader_modules_are_created(existing: Set<u128>, shaders: PipelineShaders)
    ensures
        shader_modules_to_create(existing, shaders).contains(shaders.vertex) <==> !existing.contains(
            shaders.vertex,
        ),
        forall|f: u128|
            shaders.fragment == Some(f) ==> (shader_modules_to_create(existing, shaders).contains(f)
                <==> !existing.contains(f)),
        forall|m: u128|
            #[trigger] shader_modules_to_create(existing, shaders).contains(m) ==> !existing.contains(m)
                && (m == shaders.vertex || shaders.fragment == Some(m)),
        no_module_twice(shader_modules_to_create(existing, shaders)),
        forall|m: u128|
            #[trigger] shader_modules_after(existing, shaders).contains(m) <==> (existing.contains(m)
                || m == shaders.vertex || shaders.fragment == Some(m)),
        !existing.contains(shaders.vertex) ==> shader_modules_to_create(existing, shaders)[0]
            == shaders.vertex,
{
    let created = shader_modules_to_create(existing, shaders);
    let vertex_new: Seq<u128> = if existing.contains(shaders.vertex) {
        Seq::empty()
    } else {
        seq![shaders.vertex]
    };
    let frag_new: Seq<u128> = match shaders.fragment {
        Some(f) => if existing.insert(shaders.vertex).contains(f) {
            Seq::<u128>::empty()
        } else {
            seq![f]
        },
        None => Seq::<u128>::empty(),
    };
    assert(created == vertex_new + frag_new);
    assert forall|m: u128| created.contains(m) <==> (vertex_new.contains(m) || frag_new.contains(m)) by {
        if created.contains(m) {
            let k = choose|k: int| 0 <= k < created.len() && created[k] == m;
            if k < vertex_new.len() {
                assert(vertex_new[k] == m);
            } else {
                assert(frag_new[k - vertex_new.len()] == m);
            }
        }
        if vertex_new.contains(m) {
            let k = choose|k: int| 0 <= k < vertex_new.len() && vertex_new[k] == m;
            assert(created[k] == m);
        }
        if frag_new.contains(m) {
            let k = choose|k: int| 0 <= k < frag_new.len() && frag_new[k] == m;
            assert(created[k + vertex_new.len()] == m);
        }
    }
    assert forall|m: u128| vertex_new.contains(m) implies m == shaders.vertex && !existing.contains(
        m,
    ) by {
        let k = choose|k: int| 0 <= k < vertex_new.len() && vertex_new[k] == m;
    }
    assert forall|m: u128| frag_new.contains(m) implies shaders.fragment == Some(m)
        && !existing.insert(shaders.vertex).contains(m) by {
        let k = choose|k: int| 0 <= k < frag_new.len() && frag_new[k] == m;
    }
    if !existing.contains(shaders.vertex) {
        assert(vertex_new[0] == shaders.vertex);
        assert(vertex_new.contains(shaders.vertex));
    }
    match shaders.fragment {
        Some(f) => {
            if !existing.insert(shaders.vertex).contains(f) {
                assert(frag_new[0] == f);
                assert(frag_new.contains(f));
            }
        },
        None => {},
    }
}

/// The pipeline layout lists the layout ids of the pipeline's bind groups,
/// one per bind group, in order.
pub proof fn law_pipeline_layout_lists_bind_groups(bgs: Seq<BindGroupLayoutDescriptor>)
    ensures
        layout_ids(bgs).len() == bgs.len(),
        forall|k: int| 0 <= k < bgs.len() ==> #[trigger] layout_ids(bgs)[k] == bgs[k].id,
{
}

/// No shader module occurs twice.
pub open spec fn no_module_twice(s: Seq<u128>) -> bool {
    forall|a: int, b: int| 0 <= a < b < s.len() ==> s[a] != s[b]
}

/// Every shader module known before is still known and every shader of the
/// pipeline has its module afterwards; setting the same shaders up again
/// creates no module and changes nothing.
pub proof fn law_shader_module_setup_idempotent(existing: Set<u128>, shaders: PipelineShaders)
    ensures
        existing.subset_of(shader_modules_after(existing, shaders)),
        shader_modules_after(existing, shaders).contains(shaders.vertex),
        shaders.fragment matches Some(f) ==> shader_modules_after(existing, shaders).contains(f),
        shader_modules_to_create(shader_modules_after(existing, shaders), shaders)
            == Seq::<u128>::empty(),
        shader_modules_after(shader_modules_after(existing, shaders), shaders)
            == shader_modules_after(existing, shaders),
{
    let after = shader_modules_after(existing, shaders);
    assert(after.insert(shaders.vertex) =~= after);
    match shaders.fragment {
        Some(f) => {
            assert(after.insert(shaders.vertex).insert(f) =~= after);
        },
        None => {},
    }
    assert(shader_modules_to_create(after, shaders) =~= Seq::<u128>::empty());
}

/// Every bind group layout known before is still known, and every bind group
/// of the layout has its layout afterwards.
pub proof fn law_layouts_cover_bind_groups(existing: Set<u128>, bgs: Seq<BindGroupLayoutDescriptor>)
    ensures
        existing.subset_of(layouts_after(existing, bgs)),
        forall|i: int| 0 <= i < bgs.len() ==> layouts_after(existing, bgs).contains(#[trigger] bgs[i].id),
    decreases bgs.len(),
{
    if bgs.len() > 0 {
        let p = bgs.drop_last();
        law_layouts_cover_bind_groups(existing, p);
        assert forall|i: int| 0 <= i < bgs.len() implies layouts_after(existing, bgs).contains(
            #[trigger] bgs[i].id,
        ) by {
            if i < bgs.len() - 1 {
                assert(p[i] == bgs[i]);
            }
        }
    }
}

proof fn lemma_no_layout_missing(existing: Set<u128>, bgs: Seq<BindGroupLayoutDescriptor>)
    requires
        forall|i: int| 0 <= i < bgs.len() ==> existing.contains(#[trigger] bgs[i].id),
    ensures
        layouts_to_create(existing, bgs) == Seq::<usize>::empty(),
        layouts_after(existing, bgs) == existing,
    decreases bgs.len(),
{
    if bgs.len() > 0 {
        let p = bgs.drop_last();
        assert forall|i: int| 0 <= i < p.len() implies existing.contains(#[trigger] p[i].id) by {
            assert(p[i] == bgs[i]);
        }
        lemma_no_layout_missing(existing, p);
        assert(existing.contains(bgs[bgs.len() - 1].id));
        assert(existing.insert(bgs.last().id) =~= existing);
    }
}

/// Planning the layouts of the same bind groups again creates nothing and
/// changes nothing.
pub proof fn law_layout_setup_idempotent(existing: Set<u128>, bgs: Seq<BindGroupLayoutDescriptor>)
    ensures
        layouts_to_create(layouts_after(existing, bgs), bgs) == Seq::<usize>::empty(),
        layouts_after(layouts_after(existing, bgs), bgs) == layouts_after(existing, bgs),
{
    law_layouts_cover_bind_groups(existing, bgs);
    lemma_no_layout_missing(layouts_after(existing, bgs), bgs);
}

/// A layout is created only for an id not known before and not created for
/// an earlier bind group; positions come in increasing order, so no id is
/// created twice. (A list of bind groups is at most `usize::MAX` long.)
pub proof fn law_created_layouts_were_missing(existing: Set<u128>, bgs: Seq<BindGroupLayoutDescriptor>)
    requires
        bgs.len() <= usize::MAX,
    ensures
        forall|k: int|
            0 <= k < layouts_to_create(existing, bgs).len() ==> {
                let i = #[trigger] layouts_to_create(existing, bgs)[k] as int;
                &&& 0 <= i < bgs.len()
                &&& !layouts_after(existing, bgs.take(i)).contains(bgs[i].id)
            },
        forall|a: int, b: int|
            0 <= a < b < layouts_to_create(existing, bgs).len() ==> layouts_to_create(existing, bgs)[a]
                < layouts_to_create(existing, bgs)[b],
    decreases bgs.len(),
{
    if bgs.len() > 0 {
        let p = bgs.drop_last();
        law_created_layouts_were_missing(existing, p);
        let prev = layouts_to_create(existing, p);
        let cur = layouts_to_create(existing, bgs);
        assert(bgs.last() == bgs[bgs.len() - 1]);
        assert(bgs.take(bgs.len() - 1) =~= p);
        if layouts_after(existing, p).contains(bgs.last().id) {
            assert(cur == prev);
        } else {
            assert(cur == prev.push((bgs.len() - 1) as usize));
        }
        assert forall|k: int| 0 <= k < cur.len() implies {
            let i = #[trigger] cur[k] as int;
            &&& 0 <= i < bgs.len()
            &&& !layouts_after(existing, bgs.take(i)).contains(bgs[i].id)
        } by {
            if k < prev.len() {
                let i = prev[k] as int;
                assert(cur[k] == prev[k]);
                assert(p[i] == bgs[i]);
                assert(p.take(i) =~= bgs.take(i));
            }
        }
        assert forall|a: int, b: int| 0 <= a < b < cur.len() implies cur[a] < cur[b] by {
            if b < prev.len() {
                assert(cur[a] == prev[a] && cur[b] == prev[b]);
            } else {
                assert(cur[a] == prev[a]);
                assert((prev[a] as int) < p.len());
            }
        }
    }
}

} // verus!
