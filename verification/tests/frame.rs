use bevy_wgpu::{FrameCommand, FrameGraph, TextureCreation, WgpuRenderer};

fn s(x: &str) -> String {
    x.to_string()
}

fn graph() -> FrameGraph {
    FrameGraph {
        passes: vec![s("main"), s("ui"), s("empty")],
        pass_pipelines: vec![(s("main"), vec![1, 2]), (s("ui"), vec![3])],
        compiled_pipelines: vec![(1, vec![11, 12]), (3, vec![31])],
        pipeline_draw_targets: vec![
            (11, vec![s("meshes"), s("assigned")]),
            (12, vec![]),
            (31, vec![s("ui")]),
        ],
        draw_targets: vec![s("assigned"), s("meshes"), s("ui")],
    }
}

fn renderer_with(pipelines: &[u128]) -> WgpuRenderer {
    let mut r = WgpuRenderer::new();
    for p in pipelines {
        r.render_pipelines.insert(*p);
    }
    r
}

#[test]
fn frame_begins_passes_binds_pipelines_and_draws() {
    let r = renderer_with(&[11, 12, 31]);
    let g = graph();
    assert!(r.passes_ready(&g));
    assert_eq!(
        r.render_passes(&g),
        vec![
            FrameCommand::BeginPass(0),
            FrameCommand::SetPipeline(11),
            FrameCommand::Draw { draw_target: 1, pipeline: 11 },
            FrameCommand::Draw { draw_target: 0, pipeline: 11 },
            FrameCommand::SetPipeline(12),
            FrameCommand::BeginPass(1),
            FrameCommand::SetPipeline(31),
            FrameCommand::Draw { draw_target: 2, pipeline: 31 },
            FrameCommand::BeginPass(2),
        ]
    );
}

#[test]
fn every_draw_follows_its_pipeline() {
    let r = renderer_with(&[11, 12, 31]);
    let cmds = r.render_passes(&graph());
    let mut bound = None;
    for c in &cmds {
        match c {
            FrameCommand::BeginPass(_) => bound = None,
            FrameCommand::SetPipeline(p) => bound = Some(*p),
            FrameCommand::Draw { pipeline, .. } => assert_eq!(bound, Some(*pipeline)),
        }
    }
    assert_eq!(cmds[0], FrameCommand::BeginPass(0));
}

#[test]
fn each_pass_begins_once_in_order() {
    let r = renderer_with(&[11, 12, 31]);
    let g = graph();
    let begun: Vec<usize> = r
        .render_passes(&g)
        .iter()
        .filter_map(|c| match c {
            FrameCommand::BeginPass(i) => Some(*i),
            _ => None,
        })
        .collect();
    assert_eq!(begun, vec![0, 1, 2]);
}

#[test]
fn frame_without_render_pipeline_is_not_ready() {
    let r = renderer_with(&[11, 31]);
    assert!(!r.passes_ready(&graph()));
}

#[test]
fn frame_with_unknown_draw_target_is_not_ready() {
    let r = renderer_with(&[11, 12, 31]);
    let mut g = graph();
    g.draw_targets = vec![s("meshes"), s("ui")];
    assert!(!r.passes_ready(&g));
}

#[test]
fn frame_without_pipeline_descriptor_is_not_ready() {
    let r = renderer_with(&[11, 12, 31]);
    let mut g = graph();
    g.pipeline_draw_targets.remove(1);
    assert!(!r.passes_ready(&g));
}

#[test]
fn frame_without_passes_has_no_commands() {
    let r = WgpuRenderer::new();
    let g = FrameGraph {
        passes: vec![],
        pass_pipelines: vec![],
        compiled_pipelines: vec![],
        pipeline_draw_targets: vec![],
        draw_targets: vec![],
    };
    assert!(r.render_passes(&g).is_empty());
}

#[test]
fn providers_are_initialized_on_the_first_update_only() {
    let mut r = WgpuRenderer::new();
    assert!(r.start_update());
    assert!(!r.start_update());
    assert!(r.intialized);
}

#[test]
fn textures_with_bytes_use_the_open_encoder() {
    let mut r = WgpuRenderer::new();
    assert_eq!(r.create_texture(false), TextureCreation::Empty);
    r.open_encoder();
    assert!(r.encoder_open);
    assert_eq!(r.create_texture(true), TextureCreation::WithData);
    r.take_encoder();
    assert!(!r.encoder_open);
}
