use point_cloud::compositor::{
    accumulated_colour, accumulated_coverage, accumulation_colour_blend,
    accumulation_coverage_blend, clear_colour, clear_coverage, colour_surface_format,
    coverage_surface_format, resolve_blend, resolve_pixel, resolve_target_format,
    AccumulationSurfaces, BlendFactor, BlendOperation, Contribution, SurfaceFormat, ViewPass,
    BLEND_SCALE,
};

fn contribution(colour: u32, transmittance: u32) -> Contribution {
    Contribution { colour, transmittance }
}

#[test]
fn blend_configuration_is_order_independent_by_construction() {
    // colour accumulates additively: dst += src
    let colour = accumulation_colour_blend();
    assert_eq!(colour.src_factor, BlendFactor::One);
    assert_eq!(colour.dst_factor, BlendFactor::One);
    assert_eq!(colour.operation, BlendOperation::Add);
    // coverage dissolves multiplicatively: dst *= (1 - srcAlpha)
    let coverage = accumulation_coverage_blend();
    assert_eq!(coverage.src_factor, BlendFactor::Zero);
    assert_eq!(coverage.dst_factor, BlendFactor::OneMinusSrcAlpha);
    assert_eq!(coverage.operation, BlendOperation::Add);
    // the resolve pass composites the normalized colour by coverage
    let resolve = resolve_blend();
    assert_eq!(resolve.src_factor, BlendFactor::OneMinusSrcAlpha);
    assert_eq!(resolve.dst_factor, BlendFactor::SrcAlpha);
}

#[test]
fn surface_formats_and_clear_values_are_neutral() {
    assert_eq!(colour_surface_format(), SurfaceFormat::Rgba16Float);
    assert_eq!(coverage_surface_format(), SurfaceFormat::R16Float);
    assert_eq!(resolve_target_format(), SurfaceFormat::Rgba8UnormSrgb);
    assert_eq!(clear_colour(), 0);
    assert_eq!(clear_coverage(), BLEND_SCALE);
}

#[test]
fn accumulation_is_permutation_invariant() {
    // the same set of draws in any order accumulates the same surfaces
    let a = vec![contribution(10, 60000), contribution(25, 30000), contribution(7, 65536)];
    let b = vec![contribution(7, 65536), contribution(10, 60000), contribution(25, 30000)];
    let c = vec![contribution(25, 30000), contribution(7, 65536), contribution(10, 60000)];
    assert_eq!(accumulated_colour(&a), 42);
    assert_eq!(accumulated_colour(&a), accumulated_colour(&b));
    assert_eq!(accumulated_colour(&a), accumulated_colour(&c));
    assert_eq!(accumulated_coverage(&a), accumulated_coverage(&b));
    assert_eq!(accumulated_coverage(&a), accumulated_coverage(&c));
}

#[test]
fn coverage_accumulates_by_exact_product() {
    let entries = vec![contribution(0, 2), contribution(0, 3), contribution(0, 5)];
    assert_eq!(accumulated_coverage(&entries), 30);
    // an opaque draw (transmittance zero) makes the coverage zero wherever
    // it lands in the order
    let opaque_first = vec![contribution(0, 0), contribution(0, 3)];
    let opaque_last = vec![contribution(0, 3), contribution(0, 0)];
    assert_eq!(accumulated_coverage(&opaque_first), 0);
    assert_eq!(accumulated_coverage(&opaque_last), 0);
}

#[test]
fn empty_accumulation_is_neutral() {
    let none: Vec<Contribution> = vec![];
    assert_eq!(accumulated_colour(&none), 0);
    assert_eq!(accumulated_coverage(&none), 1);
}

#[test]
fn resolving_an_empty_view_leaves_the_target_unchanged() {
    // A view with zero visible objects produces the same frame whether the
    // passes are skipped or run on empty input: with the coverage surface
    // still at its clear value, the resolve blend returns the target pixel.
    for dst in [0u32, 1, 12345, 0xFFFF_FFFF] {
        let resolved = resolve_pixel(dst, clear_colour(), clear_coverage());
        assert_eq!(resolved, dst as u64);
    }
}

#[test]
fn resolve_blends_by_coverage() {
    // srcAlpha == 0 (everything covered): the accumulated colour replaces
    // the target entirely
    assert_eq!(resolve_pixel(99, 40, 0), 40);
    // srcAlpha == BLEND_SCALE / 2: an even mix
    assert_eq!(resolve_pixel(100, 40, BLEND_SCALE / 2), 70);
}

#[test]
fn surfaces_are_reused_until_the_resolution_changes() {
    let mut s = AccumulationSurfaces::new(1920, 1080, 4);
    assert_eq!(s.generation, 0);
    s.prepare(1920, 1080, 4);
    assert_eq!(s.generation, 0);
    // a resize recreates both surfaces rather than overwriting them
    s.prepare(1280, 720, 4);
    assert_eq!(s.generation, 1);
    assert_eq!((s.width, s.height), (1280, 720));
    s.prepare(1280, 720, 4);
    assert_eq!(s.generation, 1);
    // a sample-count change also recreates them
    s.prepare(1280, 720, 1);
    assert_eq!(s.generation, 2);
}

#[test]
fn view_pass_snapshots_resolution_and_resolves_once() {
    let surfaces = AccumulationSurfaces::new(800, 600, 1);
    let mut pass = ViewPass::begin(&surfaces);
    assert_eq!((pass.width, pass.height, pass.samples), (800, 600, 1));
    assert!(!pass.resolved);
    assert!(pass.entries.is_empty());
    pass.draw(contribution(3, 60000));
    pass.draw(contribution(9, 50000));
    assert_eq!(pass.entries.len(), 2);
    pass.resolve();
    assert!(pass.resolved);
    assert_eq!(pass.entries.len(), 2);
}

#[test]
fn permuted_passes_accumulate_identical_surfaces() {
    let surfaces = AccumulationSurfaces::new(16, 16, 1);
    let draws = [contribution(5, 60000), contribution(11, 40000), contribution(2, 65000)];
    let mut forward = ViewPass::begin(&surfaces);
    for d in draws.iter() {
        forward.draw(*d);
    }
    let mut backward = ViewPass::begin(&surfaces);
    for d in draws.iter().rev() {
        backward.draw(*d);
    }
    forward.resolve();
    backward.resolve();
    assert_eq!(accumulated_colour(&forward.entries), accumulated_colour(&backward.entries));
    assert_eq!(accumulated_coverage(&forward.entries), accumulated_coverage(&backward.entries));
}
