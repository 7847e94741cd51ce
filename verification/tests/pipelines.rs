use bevy_wgpu::{
    BindGroupLayoutDescriptor, BindGroupRequest, LayoutEntryPlan, PairSet, PipelineShaders,
    WgpuRenderer,
};

/// The bits of `wgpu::ShaderStage::VERTEX | wgpu::ShaderStage::FRAGMENT`.
const BOTH: u32 = 3;

fn group(id: u128, bindings: &[u32]) -> BindGroupLayoutDescriptor {
    BindGroupLayoutDescriptor { id, bindings: bindings.to_vec() }
}

#[test]
fn first_setup_plans_layouts_modules_and_pipeline() {
    let mut r = WgpuRenderer::new();
    let groups = vec![group(10, &[0, 1]), group(20, &[0])];
    let shaders = PipelineShaders { vertex: 100, fragment: Some(101) };
    let plan = r.setup_render_pipeline(1, &groups, shaders).expect("a new pipeline is planned");
    assert_eq!(plan.bind_group_layouts.len(), 2);
    assert_eq!(plan.bind_group_layouts[0].position, 0);
    assert_eq!(plan.bind_group_layouts[0].id, 10);
    assert_eq!(
        plan.bind_group_layouts[0].entries,
        vec![
            LayoutEntryPlan { binding: 0, visibility: BOTH },
            LayoutEntryPlan { binding: 1, visibility: BOTH },
        ]
    );
    assert_eq!(plan.bind_group_layouts[1].position, 1);
    assert_eq!(plan.pipeline_layout, vec![10, 20]);
    assert_eq!(plan.shader_modules, vec![100, 101]);
    assert_eq!(plan.vertex_module, 100);
    assert_eq!(plan.fragment_module, Some(101));
    assert_eq!(plan.entry_point, "main");
    assert!(r.render_pipelines.contains(1));
    assert!(r.bind_group_layouts.contains(10) && r.bind_group_layouts.contains(20));
    assert!(r.shader_modules.contains(100) && r.shader_modules.contains(101));
}

#[test]
fn second_setup_of_a_pipeline_does_nothing() {
    let mut r = WgpuRenderer::new();
    let groups = vec![group(10, &[0])];
    let shaders = PipelineShaders { vertex: 100, fragment: None };
    assert!(r.setup_render_pipeline(1, &groups, shaders).is_some());
    assert!(r.setup_render_pipeline(1, &groups, shaders).is_none());
}

#[test]
fn existing_layouts_and_modules_are_reused() {
    let mut r = WgpuRenderer::new();
    let shaders = PipelineShaders { vertex: 100, fragment: Some(101) };
    r.setup_render_pipeline(1, &vec![group(10, &[0])], shaders);
    let plan = r
        .setup_render_pipeline(2, &vec![group(10, &[0]), group(30, &[2])], PipelineShaders {
            vertex: 100,
            fragment: Some(102),
        })
        .unwrap();
    assert_eq!(plan.bind_group_layouts.len(), 1);
    assert_eq!(plan.bind_group_layouts[0].position, 1);
    assert_eq!(plan.bind_group_layouts[0].id, 30);
    assert_eq!(plan.pipeline_layout, vec![10, 30]);
    assert_eq!(plan.shader_modules, vec![102]);
}

#[test]
fn repeated_bind_group_in_a_layout_gets_one_layout() {
    let mut r = WgpuRenderer::new();
    let plan = r
        .setup_render_pipeline(1, &vec![group(5, &[0]), group(5, &[0])], PipelineShaders {
            vertex: 7,
            fragment: Some(7),
        })
        .unwrap();
    assert_eq!(plan.bind_group_layouts.len(), 1);
    assert_eq!(plan.pipeline_layout, vec![5, 5]);
    assert_eq!(plan.shader_modules, vec![7]);
}

#[test]
fn bind_groups_are_created_once() {
    let mut r = WgpuRenderer::new();
    let reqs = vec![
        BindGroupRequest { bind_group: 1, resource_set: Some(10) },
        BindGroupRequest { bind_group: 2, resource_set: None },
        BindGroupRequest { bind_group: 1, resource_set: Some(10) },
        BindGroupRequest { bind_group: 1, resource_set: Some(11) },
    ];
    assert_eq!(r.setup_bind_groups(&reqs), vec![0, 3]);
    assert!(r.bind_groups.contains(1, 10) && r.bind_groups.contains(1, 11));
    assert!(!r.bind_groups.contains(2, 10));
    assert!(r.setup_bind_groups(&reqs).is_empty());
}

#[test]
fn pair_set_keeps_each_pair_once() {
    let mut p = PairSet::new();
    p.insert(1, 2);
    p.insert(1, 2);
    assert!(p.contains(1, 2));
    assert!(!p.contains(2, 1));
}

#[test]
fn shaders_set_up_again_create_no_module() {
    let mut r = WgpuRenderer::new();
    let shaders = PipelineShaders { vertex: 100, fragment: Some(101) };
    let first = r.setup_render_pipeline(1, &vec![group(10, &[0])], shaders).unwrap();
    assert_eq!(first.shader_modules, vec![100, 101]);
    let second = r.setup_render_pipeline(2, &vec![group(10, &[0])], shaders).unwrap();
    assert!(second.shader_modules.is_empty());
    assert!(second.bind_group_layouts.is_empty());
    assert!(r.shader_modules.contains(100) && r.shader_modules.contains(101));
}
