use vstd::prelude::*;

use crate::keys::KeySet;

verus! {

/// What a pass does with an attachment's contents when it begins.
#[derive(Clone, Copy, Debug, PartialEq, Eq, Structural)]
pub enum LoadOp {
    Clear,
    Load,
}

/// What a pass does with an attachment's contents when it ends.
#[derive(Clone, Copy, Debug, PartialEq, Eq, Structural)]
pub enum StoreOp {
    Clear,
    Store,
}

/// A color attachment of a render pass, naming its texture and resolve target.
/// (The clear color travels beside it, untouched by the decisions made here.)
#[derive(Debug)]
pub struct ColorAttachmentDescriptor {
    pub attachment: String,
    pub resolve_target: Option<String>,
    pub load_op: LoadOp,
    pub store_op: StoreOp,
}

/// The depth-stencil attachment of a render pass.
/// (The clear depth travels beside it, untouched by the decisions made here.)
#[derive(Debug)]
pub struct DepthStencilAttachmentDescriptor {
    pub attachment: String,
    pub depth_load_op: LoadOp,
    pub depth_store_op: StoreOp,
    pub stencil_load_op: LoadOp,
    pub stencil_store_op: StoreOp,
    pub clear_stencil: u32,
}

/// The attachments of one render pass.
#[derive(Debug)]
pub struct PassDescriptor {
    pub color_attachments: Vec<ColorAttachmentDescriptor>,
    pub depth_stencil_attachment: Option<DepthStencilAttachmentDescriptor>,
}

/// Where the texture view of an attachment comes from: the frame acquired from
/// a window's swap chain (by its position among the acquired outputs), or the
/// texture stored for a render resource.
#[derive(Clone, Copy, Debug, PartialEq, Eq, Structural)]
pub enum TextureViewSource {
    SwapChainOutput(usize),
    Texture(u128),
}

/// Why an attachment name denotes no texture view.
#[derive(Clone, Copy, Debug, PartialEq, Eq, Structural)]
pub enum AttachmentError {
    /// The swap chain was named but there is no primary window.
    NoPrimarySwapChain,
    /// The primary window's swap chain produced no output this frame.
    MissingSwapChainOutput,
    /// The name is assigned to a render resource that has no texture.
    MissingTexture(u128),
    /// The name is neither assigned nor the name of an acquired swap chain output.
    UnknownAttachment,
}

/// A color attachment with its texture views resolved.
#[derive(Clone, Copy, Debug, PartialEq, Eq, Structural)]
pub struct ColorAttachmentPlan {
    pub attachment: TextureViewSource,
    pub resolve_target: Option<TextureViewSource>,
    pub load_op: LoadOp,
    pub store_op: StoreOp,
}

/// A depth-stencil attachment with its texture view resolved.
#[derive(Clone, Copy, Debug, PartialEq, Eq, Structural)]
pub struct DepthStencilAttachmentPlan {
    pub attachment: TextureViewSource,
    pub depth_load_op: LoadOp,
    pub depth_store_op: StoreOp,
    pub stencil_load_op: LoadOp,
    pub stencil_store_op: StoreOp,
    pub clear_stencil: u32,
}

/// A render pass with every attachment resolved, in the descriptor's order.
#[derive(Debug)]
pub struct RenderPassPlan {
    pub color_attachments: Vec<ColorAttachmentPlan>,
    pub depth_stencil_attachment: Option<DepthStencilAttachmentPlan>,
}

/// The name by which a pass refers to the primary window's swap chain.
pub open spec fn swap_chain_attachment_name() -> Seq<char> {
    "SwapChain"@
}

/// The name by which a pass refers to the primary window's swap chain.
pub fn swap_chain_attachment() -> (name: String)
    ensures
        name@ == swap_chain_attachment_name(),
{
    "SwapChain".to_owned()
}

/// What the resolution of attachment names reads: the primary swap chain's
/// name, the names of the swap chain outputs acquired this frame, the global
/// assignment of names to render resources, and the resources that have a texture.
pub struct AttachmentContextView {
    pub primary_swap_chain: Option<Seq<char>>,
    pub swap_chain_outputs: Seq<Seq<char>>,
    pub assignments: Map<Seq<char>, u128>,
    pub textures: Set<u128>,
}

/// The names in a sequence of strings.
pub open spec fn names_of(v: Seq<String>) -> Seq<Seq<char>> {
    v.map_values(|s: String| s@)
}

/// No name occurs twice.
pub open spec fn unique_names(names: Seq<Seq<char>>) -> bool {
    forall|i: int, j: int| 0 <= i < j < names.len() ==> names[i] != names[j]
}

/// The position of `name` among `names` (meaningful when it occurs exactly once).
pub open spec fn index_of_name(names: Seq<Seq<char>>, name: Seq<char>) -> usize {
    choose|i: usize| (i as int) < names.len() && names[i as int] == name
}

/// The texture view that `name` denotes, or why it denotes none.
/// The swap chain name denotes the primary window's output; any other name
/// denotes the texture of the resource assigned to it, and only an unassigned
/// name falls back to the swap chain output of that name.
pub open spec fn resolve_spec(ctx: AttachmentContextView, name: Seq<char>) -> Result<
    TextureViewSource,
    AttachmentError,
> {
    if name == swap_chain_attachment_name() {
        match ctx.primary_swap_chain {
            None => Err(AttachmentError::NoPrimarySwapChain),
            Some(p) => if ctx.swap_chain_outputs.contains(p) {
                Ok(TextureViewSource::SwapChainOutput(index_of_name(ctx.swap_chain_outputs, p)))
            } else {
                Err(AttachmentError::MissingSwapChainOutput)
            },
        }
    } else if ctx.assignments.dom().contains(name) {
        let r = ctx.assignments[name];
        if ctx.textures.contains(r) {
            Ok(TextureViewSource::Texture(r))
        } else {
            Err(AttachmentError::MissingTexture(r))
        }
    } else if ctx.swap_chain_outputs.contains(name) {
        Ok(TextureViewSource::SwapChainOutput(index_of_name(ctx.swap_chain_outputs, name)))
    } else {
        Err(AttachmentError::UnknownAttachment)
    }
}

/// The first error met while resolving a color attachment (its texture, then
/// its resolve target), if any.
pub open spec fn color_error(ctx: AttachmentContextView, c: ColorAttachmentDescriptor) -> Option<
    AttachmentError,
> {
    match resolve_spec(ctx, c.attachment@) {
        Err(e) => Some(e),
        Ok(_) => match c.resolve_target {
            None => None,
            Some(t) => match resolve_spec(ctx, t@) {
                Err(e) => Some(e),
                Ok(_) => None,
            },
        },
    }
}

/// The first error met while resolving the color attachments in order.
pub open spec fn colors_error(ctx: AttachmentContextView, cs: Seq<ColorAttachmentDescriptor>) -> Option<
    AttachmentError,
>
    decreases cs.len(),
{
    if cs.len() == 0 {
        None
    } else {
        match colors_error(ctx, cs.drop_last()) {
            Some(e) => Some(e),
            None => color_error(ctx, cs.last()),
        }
    }
}

/// The first error met while resolving a pass: its color attachments in
/// order, then its depth-stencil attachment.
pub open spec fn pass_error(ctx: AttachmentContextView, pass: PassDescriptor) -> Option<
    AttachmentError,
> {
    match colors_error(ctx, pass.color_attachments@) {
        Some(e) => Some(e),
        None => match pass.depth_stencil_attachment {
            None => None,
            Some(d) => match resolve_spec(ctx, d.attachment@) {
                Err(e) => Some(e),
                Ok(_) => None,
            },
        },
    }
}

/// The view source of a name that resolves.
pub open spec fn resolved(ctx: AttachmentContextView, name: Seq<char>) -> TextureViewSource {
    match resolve_spec(ctx, name) {
        Ok(s) => s,
        Err(_) => TextureViewSource::Texture(0),
    }
}

/// The plan of a color attachment whose names resolve.
pub open spec fn color_plan_spec(
    ctx: AttachmentContextView,
    c: ColorAttachmentDescriptor,
) -> ColorAttachmentPlan {
    ColorAttachmentPlan {
        attachment: resolved(ctx, c.attachment@),
        resolve_target: match c.resolve_target {
            None => None,
            Some(t) => Some(resolved(ctx, t@)),
        },
        load_op: c.load_op,
        store_op: c.store_op,
    }
}

/// The plan of a depth-stencil attachment whose name resolves.
pub open spec fn depth_plan_spec(
    ctx: AttachmentContextView,
    d: DepthStencilAttachmentDescriptor,
) -> DepthStencilAttachmentPlan {
    DepthStencilAttachmentPlan {
        attachment: resolved(ctx, d.attachment@),
        depth_load_op: d.depth_load_op,
        depth_store_op: d.depth_store_op,
        stencil_load_op: d.stencil_load_op,
        stencil_store_op: d.stencil_store_op,
        clear_stencil: d.clear_stencil,
    }
}

/// `plan` resolves every attachment of `pass`, in order.
pub open spec fn pass_plan_matches(
    ctx: AttachmentContextView,
    pass: PassDescriptor,
    plan: RenderPassPlan,
) -> bool {
    &&& plan.color_attachments@.len() == pass.color_attachments@.len()
    &&& forall|i: int|
        0 <= i < pass.color_attachments@.len() ==> #[trigger] plan.color_attachments@[i]
            == color_plan_spec(ctx, pass.color_attachments@[i])
    &&& match pass.depth_stencil_attachment {
        None => plan.depth_stencil_attachment is None,
        Some(d) => plan.depth_stencil_attachment == Some(depth_plan_spec(ctx, d)),
    }
}

/// In a list of unique names, `index_of_name` is the position of the name.
proof fn lemma_index_of_unique(names: Seq<Seq<char>>, name: Seq<char>, i: usize)
    requires
        unique_names(names),
        (i as int) < names.len(),
        names[i as int] == name,
    ensures
        index_of_name(names, name) == i,
{
    let k = index_of_name(names, name);
    assert((k as int) < names.len() && names[k as int] == name);
    if k < i {
        assert(names[k as int] != names[i as int]);
    } else if k > i {
        assert(names[i as int] != names[k as int]);
    }
}

/// Once an error is met among the first `k` color attachments, it is the
/// first error among the first `m >= k`.
proof fn lemma_colors_error_persists(
    ctx: AttachmentContextView,
    cs: Seq<ColorAttachmentDescriptor>,
    k: int,
    m: int,
)
    requires
        0 <= k <= m <= cs.len(),
        colors_error(ctx, cs.take(k)) is Some,
    ensures
        colors_error(ctx, cs.take(m)) == colors_error(ctx, cs.take(k)),
    decreases m - k,
{
    if m > k {
        lemma_colors_error_persists(ctx, cs, k, m - 1);
        assert(cs.take(m).drop_last() =~= cs.take(m - 1));
    }
}

/// The assignment of names to resources held by a list of (name, resource)
/// pairs; a later pair overrides an earlier one of the same name.
spec fn assignment_map(s: Seq<(String, u128)>) -> Map<Seq<char>, u128>
    decreases s.len(),
{
    if s.len() == 0 {
        Map::empty()
    } else {
        assignment_map(s.drop_last()).insert(s.last().0@, s.last().1)
    }
}

spec fn unique_assignment_names(s: Seq<(String, u128)>) -> bool {
    forall|i: int, j: int| 0 <= i < j < s.len() ==> s[i].0@ != s[j].0@
}

proof fn lemma_assignment_map(s: Seq<(String, u128)>)
    requires
        unique_assignment_names(s),
    ensures
        forall|k: Seq<char>|
            assignment_map(s).dom().contains(k) <==> exists|i: int|
                0 <= i < s.len() && #[trigger] s[i].0@ == k,
        forall|i: int| 0 <= i < s.len() ==> assignment_map(s)[#[trigger] s[i].0@] == s[i].1,
    decreases s.len(),
{
    if s.len() > 0 {
        let p = s.drop_last();
        assert(unique_assignment_names(p));
        lemma_assignment_map(p);
        assert forall|k: Seq<char>|
            assignment_map(s).dom().contains(k) <==> exists|i: int|
                0 <= i < s.len() && #[trigger] s[i].0@ == k by {
            if assignment_map(s).dom().contains(k) {
                if k == s.last().0@ {
                    assert(s[s.len() - 1].0@ == k);
                } else {
                    assert(assignment_map(p).dom().contains(k));
                    let i = choose|i: int| 0 <= i < p.len() && #[trigger] p[i].0@ == k;
                    assert(p[i] == s[i]);
                    assert(s[i].0@ == k);
                }
            }
            if exists|i: int| 0 <= i < s.len() && #[trigger] s[i].0@ == k {
                let i = choose|i: int| 0 <= i < s.len() && #[trigger] s[i].0@ == k;
                if i < s.len() - 1 {
                    assert(p[i] == s[i]);
                    assert(p[i].0@ == k);
                }
            }
        }
        assert forall|i: int| 0 <= i < s.len() implies assignment_map(s)[#[trigger] s[i].0@]
            == s[i].1 by {
            if i < s.len() - 1 {
                assert(p[i] == s[i]);
                assert(s[i].0@ != s[s.len() - 1].0@);
            }
        }
    }
}

/// The attachment names known to a frame: which window is primary, which swap
/// chain outputs were acquired, how names are assigned to render resources and
/// which resources have a texture.
pub struct AttachmentContext {
    primary_swap_chain: Option<String>,
    swap_chain_outputs: Vec<String>,
    assignments: Vec<(String, u128)>,
    textures: KeySet,
}

impl View for AttachmentContext {
    type V = AttachmentContextView;

    closed spec fn view(&self) -> AttachmentContextView {
        AttachmentContextView {
            primary_swap_chain: match self.primary_swap_chain {
                None => None,
                Some(p) => Some(p@),
            },
            swap_chain_outputs: names_of(self.swap_chain_outputs@),
            assignments: assignment_map(self.assignments@),
            textures: self.textures@,
        }
    }
}

impl AttachmentContext {
    /// Well-formedness: output names and assigned names are unique, as the
    /// keys of a map are.
    pub closed spec fn wf(&self) -> bool {
        &&& unique_names(names_of(self.swap_chain_outputs@))
        &&& unique_assignment_names(self.assignments@)
    }

    /// A context with the given primary swap chain and nothing else.
    pub fn new(primary_swap_chain: Option<String>) -> (ctx: Self)
        ensures
            ctx.wf(),
            ctx@.primary_swap_chain == match primary_swap_chain {
                None => None,
                Some(p) => Some(p@),
            },
            ctx@.swap_chain_outputs == Seq::<Seq<char>>::empty(),
            ctx@.assignments == Map::<Seq<char>, u128>::empty(),
            ctx@.textures == Set::<u128>::empty(),
    {
        let ctx = AttachmentContext {
            primary_swap_chain,
            swap_chain_outputs: Vec::new(),
            assignments: Vec::new(),
            textures: KeySet::new(),
        };
        assert(names_of(ctx.swap_chain_outputs@) =~= Seq::<Seq<char>>::empty());
        ctx
    }

    /// The position of the output named `name`, if one was acquired.
    fn find_output(&self, name: &String) -> (r: Option<usize>)
        requires
            self.wf(),
        ensures
            match r {
                None => !self@.swap_chain_outputs.contains(name@),
                Some(i) => i == index_of_name(self@.swap_chain_outputs, name@) && (i as int)
                    < self@.swap_chain_outputs.len() && self@.swap_chain_outputs[i as int]
                    == name@,
            },
    {
        let ghost names = names_of(self.swap_chain_outputs@);
        let mut i: usize = 0;
        while i < self.swap_chain_outputs.len()
            invariant
                0 <= i <= self.swap_chain_outputs.len(),
                names == names_of(self.swap_chain_outputs@),
                names.len() == self.swap_chain_outputs@.len(),
                unique_names(names),
                forall|j: int| 0 <= j < i ==> names[j] != name@,
            decreases self.swap_chain_outputs.len() - i,
        {
            if self.swap_chain_outputs[i] == *name {
                proof {
                    assert(names[i as int] == name@);
                    lemma_index_of_unique(names, name@, i);
                }
                return Some(i);
            }
            i = i + 1;
        }
        proof {
            if names.contains(name@) {
                let j = choose|j: int| 0 <= j < names.len() && names[j] == name@;
                assert(names[j] != name@);
            }
        }
        None
    }

    /// Records that the swap chain of the window named `name` produced an output
    /// this frame; a name already recorded is kept once.
    pub fn add_swap_chain_output(&mut self, name: String)
        requires
            old(self).wf(),
        ensures
            final(self).wf(),
            final(self)@.primary_swap_chain == old(self)@.primary_swap_chain,
            final(self)@.assignments == old(self)@.assignments,
            final(self)@.textures == old(self)@.textures,
            if old(self)@.swap_chain_outputs.contains(name@) {
                final(self)@.swap_chain_outputs == old(self)@.swap_chain_outputs
            } else {
                final(self)@.swap_chain_outputs == old(self)@.swap_chain_outputs.push(name@)
            },
    {
        let found = self.find_output(&name);
        if found.is_none() {
            let ghost before = self.swap_chain_outputs@;
            self.swap_chain_outputs.push(name);
            proof {
                assert(names_of(self.swap_chain_outputs@) =~= names_of(before).push(
                    self.swap_chain_outputs@.last()@,
                ));
                let ns = names_of(self.swap_chain_outputs@);
                assert forall|i: int, j: int| 0 <= i < j < ns.len() implies ns[i] != ns[j] by {
                    if j == ns.len() - 1 {
                        assert(names_of(before)[i] == ns[i]);
                    } else {
                        assert(names_of(before)[i] == ns[i]);
                        assert(names_of(before)[j] == ns[j]);
                    }
                }
            }
        }
    }

    /// Records that render resource `resource` has a texture.
    pub fn add_texture(&mut self, resource: u128)
        requires
            old(self).wf(),
        ensures
            final(self).wf(),
            final(self)@.primary_swap_chain == old(self)@.primary_swap_chain,
            final(self)@.swap_chain_outputs == old(self)@.swap_chain_outputs,
            final(self)@.assignments == old(self)@.assignments,
            final(self)@.textures == old(self)@.textures.insert(resource),
    {
        self.textures.insert(resource);
    }

    /// The position of the assignment of `name`, if any.
    fn find_assignment(&self, name: &String) -> (r: Option<usize>)
        ensures
            match r {
                None => forall|j: int|
                    0 <= j < self.assignments@.len() ==> #[trigger] self.assignments@[j].0@
                        != name@,
                Some(i) => (i as int) < self.assignments@.len() && self.assignments@[i as int].0@
                    == name@,
            },
    {
        let mut i: usize = 0;
        while i < self.assignments.len()
            invariant
                0 <= i <= self.assignments.len(),
                forall|j: int| 0 <= j < i ==> #[trigger] self.assignments@[j].0@ != name@,
            decreases self.assignments.len() - i,
        {
            if self.assignments[i].0 == *name {
                return Some(i);
            }
            i = i + 1;
        }
        None
    }

    /// The resource assigned to `name`, if any.
    pub fn assigned_resource(&self, name: &String) -> (r: Option<u128>)
        requires
            self.wf(),
        ensures
            match r {
                None => !self@.assignments.dom().contains(name@),
                Some(res) => self@.assignments.dom().contains(name@) && self@.assignments[name@]
                    == res,
            },
    {
        proof {
            lemma_assignment_map(self.assignments@);
        }
        match self.find_assignment(name) {
            Some(i) => {
                proof {
                    let s = self.assignments@;
                    assert(s[i as int].0@ == name@);
                    assert(assignment_map(s)[s[i as int].0@] == s[i as int].1);
                }
                Some(self.assignments[i].1)
            },
            None => {
                proof {
                    let s = self.assignments@;
                    if assignment_map(s).dom().contains(name@) {
                        let j = choose|j: int| 0 <= j < s.len() && #[trigger] s[j].0@ == name@;
                        assert(s[j].0@ != name@);
                    }
                }
                None
            },
        }
    }

    /// Assigns `name` to render resource `resource`, replacing any earlier
    /// assignment of that name.
    pub fn assign(&mut self, name: String, resource: u128)
        requires
            old(self).wf(),
        ensures
            final(self).wf(),
            final(self)@.primary_swap_chain == old(self)@.primary_swap_chain,
            final(self)@.swap_chain_outputs == old(self)@.swap_chain_outputs,
            final(self)@.textures == old(self)@.textures,
            final(self)@.assignments == old(self)@.assignments.insert(name@, resource),
    {
        let ghost before = self.assignments@;
        let ghost key = name@;
        proof {
            lemma_assignment_map(before);
        }
        let pos = self.find_assignment(&name);
        let found = pos.is_some();
        let i: usize = match pos {
            Some(i) => i,
            None => 0,
        };
        if found {
            self.assignments[i] = (name, resource);
        } else {
            self.assignments.push((name, resource));
        }
        proof {
            let after = self.assignments@;
            assert(after.len() == before.len() || after.len() == before.len() + 1);
            assert forall|a: int, b: int| 0 <= a < b < after.len() implies after[a].0@
                != after[b].0@ by {
                if found {
                    if a == i as int {
                        assert(before[b].0@ != before[a].0@);
                    } else if b == i as int {
                        assert(before[a].0@ != before[b].0@);
                    } else {
                        assert(after[a] == before[a] && after[b] == before[b]);
                    }
                } else {
                    if b == before.len() {
                        assert(after[a] == before[a]);
                    } else {
                        assert(after[a] == before[a] && after[b] == before[b]);
                    }
                }
            }
            assert(unique_assignment_names(after));
            lemma_assignment_map(after);
            let m0 = assignment_map(before);
            let m1 = assignment_map(after);
            assert forall|k: Seq<char>| #[trigger] m1.dom().contains(k) <==> m0.insert(
                key,
                resource,
            ).dom().contains(k) by {
                if m1.dom().contains(k) {
                    let j = choose|j: int| 0 <= j < after.len() && #[trigger] after[j].0@ == k;
                    if k != key {
                        assert(after[j] == before[j]);
                    }
                }
                if m0.dom().contains(k) && k != key {
                    let j = choose|j: int| 0 <= j < before.len() && #[trigger] before[j].0@ == k;
                    assert(after[j] == before[j]);
                    assert(after[j].0@ == k);
                }
                if k == key {
                    if found {
                        assert(after[i as int].0@ == k);
                    } else {
                        assert(after[before.len() as int].0@ == k);
                    }
                }
            }
            assert forall|k: Seq<char>| #[trigger] m1.dom().contains(k) implies m1[k] == m0.insert(
                key,
                resource,
            )[k] by {
                let j = choose|j: int| 0 <= j < after.len() && #[trigger] after[j].0@ == k;
                if k == key {
                    if found {
                        assert(after[i as int].0@ == k);
                        assert(m1[after[i as int].0@] == after[i as int].1);
                    } else {
                        assert(after[before.len() as int].0@ == k);
                        assert(m1[after[before.len() as int].0@] == after[before.len() as int].1);
                    }
                } else {
                    assert(after[j] == before[j]);
                    assert(m0[before[j].0@] == before[j].1);
                }
            }
            assert(m1 =~= m0.insert(key, resource));
        }
    }

    /// The texture view that `name` denotes, or why it denotes none.
    pub fn resolve(&self, name: &String) -> (r: Result<TextureViewSource, AttachmentError>)
        requires
            self.wf(),
        ensures
            r == resolve_spec(self@, name@),
    {
        let swap_chain = swap_chain_attachment();
        if *name == swap_chain {
            match &self.primary_swap_chain {
                None => Err(AttachmentError::NoPrimarySwapChain),
                Some(p) => match self.find_output(p) {
                    Some(i) => Ok(TextureViewSource::SwapChainOutput(i)),
                    None => Err(AttachmentError::MissingSwapChainOutput),
                },
            }
        } else {
            match self.assigned_resource(name) {
                Some(resource) => {
                    if self.textures.contains(resource) {
                        Ok(TextureViewSource::Texture(resource))
                    } else {
                        Err(AttachmentError::MissingTexture(resource))
                    }
                },
                None => match self.find_output(name) {
                    Some(i) => Ok(TextureViewSource::SwapChainOutput(i)),
                    None => Err(AttachmentError::UnknownAttachment),
                },
            }
        }
    }

    /// The plan of a color attachment, or the first error met resolving its
    /// texture and then its resolve target.
    pub fn color_attachment(&self, c: &ColorAttachmentDescriptor) -> (r: Result<
        ColorAttachmentPlan,
        AttachmentError,
    >)
        requires
            self.wf(),
        ensures
            match color_error(self@, *c) {
                Some(e) => r == Err::<ColorAttachmentPlan, AttachmentError>(e),
                None => r == Ok::<ColorAttachmentPlan, AttachmentError>(
                    color_plan_spec(self@, *c),
                ),
            },
    {
        let attachment = match self.resolve(&c.attachment) {
            Ok(s) => s,
            Err(e) => {
                return Err(e);
            },
        };
        let resolve_target = match &c.resolve_target {
            None => None,
            Some(t) => match self.resolve(t) {
                Ok(s) => Some(s),
                Err(e) => {
                    return Err(e);
                },
            },
        };
        Ok(ColorAttachmentPlan { attachment, resolve_target, load_op: c.load_op, store_op: c.store_op })
    }

    /// The plan of a depth-stencil attachment, or why its texture does not resolve.
    pub fn depth_stencil_attachment(&self, d: &DepthStencilAttachmentDescriptor) -> (r: Result<
        DepthStencilAttachmentPlan,
        AttachmentError,
    >)
        requires
            self.wf(),
        ensures
            match resolve_spec(self@, d.attachment@) {
                Err(e) => r == Err::<DepthStencilAttachmentPlan, AttachmentError>(e),
                Ok(_) => r == Ok::<DepthStencilAttachmentPlan, AttachmentError>(
                    depth_plan_spec(self@, *d),
                ),
            },
    {
        match self.resolve(&d.attachment) {
            Err(e) => Err(e),
            Ok(attachment) => Ok(
                DepthStencilAttachmentPlan {
                    attachment,
                    depth_load_op: d.depth_load_op,
                    depth_store_op: d.depth_store_op,
                    stencil_load_op: d.stencil_load_op,
                    stencil_store_op: d.stencil_store_op,
                    clear_stencil: d.clear_stencil,
                },
            ),
        }
    }

    /// The plan of a render pass, or the first error met resolving its
    /// attachments: color attachments in order, then the depth-stencil one.
    pub fn render_pass(&self, pass: &PassDescriptor) -> (r: Result<RenderPassPlan, AttachmentError>)
        requires
            self.wf(),
        ensures
            match pass_error(self@, *pass) {
                Some(e) => r matches Err(e2) && e2 == e,
                None => r matches Ok(plan) && pass_plan_matches(self@, *pass, plan),
            },
    {
        let cs = &pass.color_attachments;
        let mut plans: Vec<ColorAttachmentPlan> = Vec::new();
        let mut i: usize = 0;
        while i < cs.len()
            invariant
                self.wf(),
                cs@ == pass.color_attachments@,
                0 <= i <= cs.len(),
                plans@.len() == i,
                colors_error(self@, cs@.take(i as int)) is None,
                forall|j: int| 0 <= j < i ==> #[trigger] plans@[j] == color_plan_spec(self@, cs@[j]),
            decreases cs.len() - i,
        {
            let ghost prefix = cs@.take(i as int + 1);
            proof {
                assert(prefix.drop_last() =~= cs@.take(i as int));
                assert(prefix.last() == cs@[i as int]);
            }
            match self.color_attachment(&cs[i]) {
                Err(e) => {
                    proof {
                        assert(color_error(self@, cs@[i as int]) == Some(e));
                        assert(colors_error(self@, prefix) == Some(e));
                        lemma_colors_error_persists(self@, cs@, i as int + 1, cs@.len() as int);
                        assert(cs@.take(cs@.len() as int) =~= cs@);
                    }
                    return Err(e);
                },
                Ok(plan) => {
                    plans.push(plan);
                },
            }
            i = i + 1;
        }
        proof {
            assert(cs@.take(cs@.len() as int) =~= cs@);
        }
        let depth = match &pass.depth_stencil_attachment {
            None => None,
            Some(d) => match self.depth_stencil_attachment(d) {
                Ok(p) => Some(p),
                Err(e) => {
                    return Err(e);
                },
            },
        };
        Ok(RenderPassPlan { color_attachments: plans, depth_stencil_attachment: depth })
    }
}

} // verus!
