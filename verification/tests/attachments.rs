use bevy_wgpu::{
    AttachmentContext, AttachmentError, ColorAttachmentDescriptor, ColorAttachmentPlan,
    DepthStencilAttachmentDescriptor, DepthStencilAttachmentPlan, LoadOp, PassDescriptor,
    StoreOp, TextureViewSource, WgpuRenderer, swap_chain_attachment,
};

fn s(x: &str) -> String {
    x.to_string()
}

fn context() -> AttachmentContext {
    let mut ctx = AttachmentContext::new(Some(s("window-a")));
    ctx.add_swap_chain_output(s("window-b"));
    ctx.add_swap_chain_output(s("window-a"));
    ctx.assign(s("depth"), 7);
    ctx.add_texture(7);
    ctx.assign(s("broken"), 9);
    ctx
}

fn color(name: &str, resolve: Option<&str>) -> ColorAttachmentDescriptor {
    ColorAttachmentDescriptor {
        attachment: s(name),
        resolve_target: resolve.map(s),
        load_op: LoadOp::Clear,
        store_op: StoreOp::Store,
    }
}

fn depth(name: &str) -> DepthStencilAttachmentDescriptor {
    DepthStencilAttachmentDescriptor {
        attachment: s(name),
        depth_load_op: LoadOp::Clear,
        depth_store_op: StoreOp::Store,
        stencil_load_op: LoadOp::Load,
        stencil_store_op: StoreOp::Clear,
        clear_stencil: 3,
    }
}

#[test]
fn swap_chain_name_is_swap_chain() {
    assert_eq!(swap_chain_attachment(), "SwapChain");
}

#[test]
fn swap_chain_resolves_to_primary_output() {
    let ctx = context();
    let name = s("SwapChain");
    assert_eq!(ctx.resolve(&name), Ok(TextureViewSource::SwapChainOutput(1)));
    assert_eq!(WgpuRenderer::get_texture_view(&ctx, &name), TextureViewSource::SwapChainOutput(1));
}

#[test]
fn swap_chain_ignores_an_assignment_of_its_name() {
    let mut ctx = context();
    ctx.assign(s("SwapChain"), 7);
    assert_eq!(ctx.resolve(&s("SwapChain")), Ok(TextureViewSource::SwapChainOutput(1)));
}

#[test]
fn swap_chain_without_primary_window_is_an_error() {
    let mut ctx = AttachmentContext::new(None);
    ctx.add_swap_chain_output(s("window-a"));
    assert_eq!(ctx.resolve(&s("SwapChain")), Err(AttachmentError::NoPrimarySwapChain));
}

#[test]
fn swap_chain_without_primary_output_is_an_error() {
    let mut ctx = AttachmentContext::new(Some(s("window-a")));
    ctx.add_swap_chain_output(s("window-b"));
    assert_eq!(ctx.resolve(&s("SwapChain")), Err(AttachmentError::MissingSwapChainOutput));
}

#[test]
fn assigned_name_resolves_to_its_texture() {
    let ctx = context();
    assert_eq!(ctx.resolve(&s("depth")), Ok(TextureViewSource::Texture(7)));
}

#[test]
fn assigned_name_without_texture_is_an_error() {
    let ctx = context();
    assert_eq!(ctx.resolve(&s("broken")), Err(AttachmentError::MissingTexture(9)));
}

#[test]
fn unassigned_name_falls_back_to_swap_chain_output() {
    let ctx = context();
    assert_eq!(ctx.resolve(&s("window-b")), Ok(TextureViewSource::SwapChainOutput(0)));
}

#[test]
fn unknown_name_is_an_error() {
    let ctx = context();
    assert_eq!(ctx.resolve(&s("nowhere")), Err(AttachmentError::UnknownAttachment));
}

#[test]
fn assignment_shadows_swap_chain_output() {
    let mut ctx = context();
    ctx.assign(s("window-b"), 7);
    assert_eq!(ctx.resolve(&s("window-b")), Ok(TextureViewSource::Texture(7)));
}

#[test]
fn queued_texture_resolves_after_assignment() {
    let mut ctx = context();
    ctx.assign(s("broken"), 11);
    ctx.add_texture(11);
    assert_eq!(ctx.resolve(&s("broken")), Ok(TextureViewSource::Texture(11)));
    assert_eq!(ctx.assigned_resource(&s("broken")), Some(11));
    assert_eq!(ctx.assigned_resource(&s("missing")), None);
}

#[test]
fn latest_queued_texture_of_a_name_wins() {
    let mut ctx = context();
    for (name, resource) in [(s("shadow"), 20u128), (s("bloom"), 21), (s("shadow"), 22)] {
        ctx.assign(name, resource);
        ctx.add_texture(resource);
    }
    assert_eq!(ctx.resolve(&s("shadow")), Ok(TextureViewSource::Texture(22)));
    assert_eq!(ctx.resolve(&s("bloom")), Ok(TextureViewSource::Texture(21)));
}

#[test]
fn output_names_are_kept_once() {
    let mut ctx = AttachmentContext::new(Some(s("w")));
    ctx.add_swap_chain_output(s("x"));
    ctx.add_swap_chain_output(s("x"));
    ctx.add_swap_chain_output(s("w"));
    assert_eq!(ctx.resolve(&s("SwapChain")), Ok(TextureViewSource::SwapChainOutput(1)));
}

#[test]
fn render_pass_resolves_every_attachment_in_order() {
    let ctx = context();
    let pass = PassDescriptor {
        color_attachments: vec![color("SwapChain", Some("depth")), color("window-b", None)],
        depth_stencil_attachment: Some(depth("depth")),
    };
    assert_eq!(ctx.render_pass(&pass).map(|p| p.color_attachments.len()), Ok(2));
    let plan = WgpuRenderer::create_render_pass(&ctx, &pass);
    assert_eq!(
        plan.color_attachments,
        vec![
            ColorAttachmentPlan {
                attachment: TextureViewSource::SwapChainOutput(1),
                resolve_target: Some(TextureViewSource::Texture(7)),
                load_op: LoadOp::Clear,
                store_op: StoreOp::Store,
            },
            ColorAttachmentPlan {
                attachment: TextureViewSource::SwapChainOutput(0),
                resolve_target: None,
                load_op: LoadOp::Clear,
                store_op: StoreOp::Store,
            },
        ]
    );
    assert_eq!(
        plan.depth_stencil_attachment,
        Some(DepthStencilAttachmentPlan {
            attachment: TextureViewSource::Texture(7),
            depth_load_op: LoadOp::Clear,
            depth_store_op: StoreOp::Store,
            stencil_load_op: LoadOp::Load,
            stencil_store_op: StoreOp::Clear,
            clear_stencil: 3,
        })
    );
}

#[test]
fn render_pass_reports_first_failing_attachment() {
    let ctx = context();
    let pass = PassDescriptor {
        color_attachments: vec![color("SwapChain", Some("broken")), color("nowhere", None)],
        depth_stencil_attachment: Some(depth("nowhere")),
    };
    assert_eq!(ctx.render_pass(&pass).err(), Some(AttachmentError::MissingTexture(9)));
    let pass = PassDescriptor {
        color_attachments: vec![color("SwapChain", None)],
        depth_stencil_attachment: Some(depth("nowhere")),
    };
    assert_eq!(ctx.render_pass(&pass).err(), Some(AttachmentError::UnknownAttachment));
}

#[test]
fn empty_render_pass_has_no_attachments() {
    let ctx = AttachmentContext::new(None);
    let pass = PassDescriptor { color_attachments: vec![], depth_stencil_attachment: None };
    let plan = WgpuRenderer::create_render_pass(&ctx, &pass);
    assert!(plan.color_attachments.is_empty());
    assert_eq!(plan.depth_stencil_attachment, None);
}

#[test]
fn color_and_depth_attachments_resolve_alone() {
    let ctx = context();
    let c = WgpuRenderer::create_wgpu_color_attachment_descriptor(&ctx, &color("depth", None));
    assert_eq!(c.attachment, TextureViewSource::Texture(7));
    let d = WgpuRenderer::create_wgpu_depth_stencil_attachment_descriptor(&ctx, &depth("SwapChain"));
    assert_eq!(d.attachment, TextureViewSource::SwapChainOutput(1));
    assert_eq!(d.clear_stencil, 3);
    assert_eq!(
        ctx.color_attachment(&color("depth", Some("nowhere"))),
        Err(AttachmentError::UnknownAttachment)
    );
    assert_eq!(ctx.depth_stencil_attachment(&depth("broken")).err(), Some(AttachmentError::MissingTexture(9)));
}
