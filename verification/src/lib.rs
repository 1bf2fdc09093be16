//! A path-tracing renderer's verified core: the pieces of the pipeline
//! that are exact, discrete computations — color-word packing, the sample
//! buffer's bookkeeping, the kd-tree built over integer bounding boxes,
//! mesh index arithmetic, and the renderer's sampling schedule — stated in
//! contracts and proved, while the floating-point sampling around them
//! lives in the application layer.

pub mod buffer;
pub mod color;
pub mod io;
pub mod kdtree;
pub mod renderer;
pub mod scene;
pub mod shape;
pub mod systems;
