use vstd::prelude::*;

use crate::attachment::{
    AttachmentContext, ColorAttachmentDescriptor, ColorAttachmentPlan,
    DepthStencilAttachmentDescriptor, DepthStencilAttachmentPlan, PassDescriptor, RenderPassPlan,
    TextureViewSource, color_error, color_plan_spec, depth_plan_spec, pass_error, pass_plan_matches,
    resolve_spec,
};
use crate::keys::{KeySet, PairSet};

verus! {

/// What the renderer knows of its own GPU state: whether its resource
/// providers were initialized, whether a command encoder is open for the
/// frame, and which render pipelines, bind group layouts, shader modules and
/// bind groups exist.
pub struct WgpuRenderer {
    pub intialized: bool,
    pub encoder_open: bool,
    pub render_pipelines: KeySet,
    pub bind_group_layouts: KeySet,
    pub shader_modules: KeySet,
    pub bind_groups: PairSet,
}

/// How a texture is created: filled from bytes through the frame's command
/// encoder, or empty.
#[derive(Clone, Copy, Debug, PartialEq, Eq, Structural)]
pub enum TextureCreation {
    WithData,
    Empty,
}

impl WgpuRenderer {
    /// A renderer that has initialized nothing, has no encoder open and has
    /// created nothing yet.
    pub fn new() -> (r: Self)
        ensures
            !r.intialized,
            !r.encoder_open,
            r.render_pipelines@ == Set::<u128>::empty(),
            r.bind_group_layouts@ == Set::<u128>::empty(),
            r.shader_modules@ == Set::<u128>::empty(),
            r.bind_groups@ == Set::<(u128, u128)>::empty(),
    {
        WgpuRenderer {
            intialized: false,
            encoder_open: false,
            render_pipelines: KeySet::new(),
            bind_group_layouts: KeySet::new(),
            shader_modules: KeySet::new(),
            bind_groups: PairSet::new(),
        }
    }

    /// Begins an update: says whether the resource providers must be
    /// initialized now, which is so on the first update only.
    pub fn start_update(&mut self) -> (initialize: bool)
        ensures
            initialize == !old(self).intialized,
            final(self).intialized,
            final(self).encoder_open == old(self).encoder_open,
            final(self).render_pipelines == old(self).render_pipelines,
            final(self).bind_group_layouts == old(self).bind_group_layouts,
            final(self).shader_modules == old(self).shader_modules,
            final(self).bind_groups == old(self).bind_groups,
    {
        let initialize = !self.intialized;
        self.intialized = true;
        initialize
    }

    /// Records that a command encoder was created for the frame.
    pub fn open_encoder(&mut self)
        ensures
            final(self).encoder_open,
            final(self).intialized == old(self).intialized,
            final(self).render_pipelines == old(self).render_pipelines,
            final(self).bind_group_layouts == old(self).bind_group_layouts,
            final(self).shader_modules == old(self).shader_modules,
            final(self).bind_groups == old(self).bind_groups,
    {
        self.encoder_open = true;
    }

    /// Records that the frame's command encoder was taken to record the
    /// render passes; it must be open.
    pub fn take_encoder(&mut self)
        requires
            old(self).encoder_open,
        ensures
            !final(self).encoder_open,
            final(self).intialized == old(self).intialized,
            final(self).render_pipelines == old(self).render_pipelines,
            final(self).bind_group_layouts == old(self).bind_group_layouts,
            final(self).shader_modules == old(self).shader_modules,
            final(self).bind_groups == old(self).bind_groups,
    {
        self.encoder_open = false;
    }

    /// How a texture is created: with its bytes through the open encoder when
    /// bytes are given (the encoder must then be open), empty otherwise.
    pub fn create_texture(&self, with_data: bool) -> (r: TextureCreation)
        requires
            with_data ==> self.encoder_open,
        ensures
            r == (if with_data {
                TextureCreation::WithData
            } else {
                TextureCreation::Empty
            }),
    {
        if with_data {
            TextureCreation::WithData
        } else {
            TextureCreation::Empty
        }
    }

    /// The texture view that attachment `name` denotes; the name must resolve
    /// (see `AttachmentContext::resolve` for the reasons it may not).
    pub fn get_texture_view(ctx: &AttachmentContext, name: &String) -> (r: TextureViewSource)
        requires
            ctx.wf(),
            resolve_spec(ctx@, name@) is Ok,
        ensures
            resolve_spec(ctx@, name@) == Ok::<TextureViewSource, crate::attachment::AttachmentError>(r),
    {
        match ctx.resolve(name) {
            Ok(r) => r,
            Err(_) => {
                proof {
                    assert(false);
                }
                TextureViewSource::Texture(0)
            },
        }
    }

    /// A color attachment with its texture and resolve target resolved; both
    /// names must resolve.
    pub fn create_wgpu_color_attachment_descriptor(
        ctx: &AttachmentContext,
        color_attachment_descriptor: &ColorAttachmentDescriptor,
    ) -> (r: ColorAttachmentPlan)
        requires
            ctx.wf(),
            color_error(ctx@, *color_attachment_descriptor) is None,
        ensures
            r == color_plan_spec(ctx@, *color_attachment_descriptor),
    {
        match ctx.color_attachment(color_attachment_descriptor) {
            Ok(r) => r,
            Err(_) => {
                proof {
                    assert(false);
                }
                ColorAttachmentPlan {
                    attachment: TextureViewSource::Texture(0),
                    resolve_target: None,
                    load_op: color_attachment_descriptor.load_op,
                    store_op: color_attachment_descriptor.store_op,
                }
            },
        }
    }

    /// A depth-stencil attachment with its texture resolved; its name must resolve.
    pub fn create_wgpu_depth_stencil_attachment_descriptor(
        ctx: &AttachmentContext,
        depth_stencil_attachment_descriptor: &DepthStencilAttachmentDescriptor,
    ) -> (r: DepthStencilAttachmentPlan)
        requires
            ctx.wf(),
            resolve_spec(ctx@, depth_stencil_attachment_descriptor.attachment@) is Ok,
        ensures
            r == depth_plan_spec(ctx@, *depth_stencil_attachment_descriptor),
    {
        let d = depth_stencil_attachment_descriptor;
        match ctx.depth_stencil_attachment(d) {
            Ok(r) => r,
            Err(_) => {
                proof {
                    assert(false);
                }
                DepthStencilAttachmentPlan {
                    attachment: TextureViewSource::Texture(0),
                    depth_load_op: d.depth_load_op,
                    depth_store_op: d.depth_store_op,
                    stencil_load_op: d.stencil_load_op,
                    stencil_store_op: d.stencil_store_op,
                    clear_stencil: d.clear_stencil,
                }
            },
        }
    }

    /// A render pass with every attachment resolved, in the descriptor's
    /// order; every attachment name of the pass must resolve (see
    /// `AttachmentContext::render_pass` for the first one that does not).
    pub fn create_render_pass(ctx: &AttachmentContext, pass_descriptor: &PassDescriptor) -> (r:
        RenderPassPlan)
        requires
            ctx.wf(),
            pass_error(ctx@, *pass_descriptor) is None,
        ensures
            pass_plan_matches(ctx@, *pass_descriptor, r),
    {
        match ctx.render_pass(pass_descriptor) {
            Ok(r) => r,
            Err(_) => {
                proof {
                    assert(false);
                }
                RenderPassPlan { color_attachments: Vec::new(), depth_stencil_attachment: None }
            },
        }
    }
}

} // verus!
