//! Verified decision logic of a wgpu-backed renderer: which texture view an
//! attachment name denotes, which windows need new swap chains, which bind
//! groups, bind group layouts, shader modules and pipelines must be created,
//! and in which order a frame begins passes, binds pipelines and draws.
//! The GPU work itself is done by the caller with the plans computed here.

pub mod attachment;
pub mod bind_groups;
pub mod frame;
pub mod keys;
pub mod laws;
pub mod lookup;
pub mod pipeline;
pub mod renderer;
pub mod windows;

pub use attachment::{
    AttachmentContext, AttachmentContextView, AttachmentError, ColorAttachmentDescriptor,
    ColorAttachmentPlan, DepthStencilAttachmentDescriptor, DepthStencilAttachmentPlan, LoadOp,
    PassDescriptor, RenderPassPlan, StoreOp, TextureViewSource, swap_chain_attachment,
};
pub use bind_groups::BindGroupRequest;
pub use frame::{FrameCommand, FrameGraph};
pub use keys::{KeySet, PairSet};
pub use pipeline::{
    BindGroupLayoutDescriptor, BindGroupLayoutPlan, LayoutEntryPlan, PipelineShaders,
    RenderPipelinePlan,
};
pub use renderer::{TextureCreation, WgpuRenderer};
pub use windows::all_windows_known;
