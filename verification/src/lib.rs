//! Core of a streaming point-splat renderer: a fixed-capacity point arena with
//! a free-list allocator, an instance registry reconciled against the live set
//! of point-cloud objects each frame, an upload stage that re-allocates and
//! writes changed point data, a batch assembler that emits index-aligned
//! indirect-draw and uniform records grouped by pipeline key, and an
//! order-independent transparency compositor modelled by exact accumulation
//! semantics.

pub mod arena;
pub mod batch;
pub mod compositor;
pub mod frame;
pub mod registry;
pub mod sample;
pub mod sync;
