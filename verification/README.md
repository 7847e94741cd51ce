# bevy_wgpu

The decisions of a wgpu renderer, verified with Verus.

- `src/` is the verified library. `attachment` resolves attachment names to
  texture views and plans render passes; `windows` decides which windows get
  new swap chains and which swap chain outputs a frame acquires; `bind_groups`
  and `pipeline` plan the bind groups, bind group layouts, shader modules and
  render pipelines to create; `frame` plans the passes, pipeline bindings and
  draws of a frame; `renderer` holds what the renderer knows of its GPU state;
  `laws` proves properties that span these functions.
- `tests/` runs the library on concrete values.
- `app/` is the renderer itself: it talks to wgpu and the engine and carries
  out the plans.
