use rpt::buffer::{Buffer, Filter};
use rpt::renderer::{sample_schedule, RenderSettings};
use rpt::scene::SceneAdd;
use rpt::shape::{cube, sphere, Cube, Sphere};
use rpt::systems::{SimpleCircleSystem, SolidGravitySystem};

#[test]
fn new_buffer_has_one_empty_list_per_pixel() {
    let b: Buffer<u64> = Buffer::new(4, 3, Filter::Box(0));
    for y in 0..3 {
        for x in 0..4 {
            assert!(b.pixel_samples(x, y).is_empty());
        }
    }
}

#[test]
fn add_sample_lands_in_its_pixel_only() {
    let mut b: Buffer<u64> = Buffer::new(4, 3, Filter::Box(0));
    b.add_sample(2, 1, 77);
    b.add_sample(2, 1, 78);
    for y in 0..3 {
        for x in 0..4 {
            if (x, y) == (2, 1) {
                assert_eq!(b.pixel_samples(x, y).as_slice(), &[77, 78]);
            } else {
                assert!(b.pixel_samples(x, y).is_empty());
            }
        }
    }
}

#[test]
fn add_samples_appends_row_major() {
    let mut b: Buffer<u64> = Buffer::new(2, 2, Filter::Box(0));
    b.add_samples(&vec![10, 11, 12, 13]);
    b.add_samples(&vec![20, 21, 22, 23]);
    assert_eq!(b.pixel_samples(0, 0).as_slice(), &[10, 20]);
    assert_eq!(b.pixel_samples(1, 0).as_slice(), &[11, 21]);
    assert_eq!(b.pixel_samples(0, 1).as_slice(), &[12, 22]);
    assert_eq!(b.pixel_samples(1, 1).as_slice(), &[13, 23]);
}

#[test]
fn window_bounds_clip_at_the_borders() {
    let b: Buffer<u64> = Buffer::new(10, 8, Filter::Box(2));
    assert_eq!(b.window_bounds(5, 4), (3, 7, 2, 6));
    assert_eq!(b.window_bounds(0, 0), (0, 2, 0, 2));
    assert_eq!(b.window_bounds(9, 7), (7, 9, 5, 7));
    assert_eq!(b.window_bounds(1, 7), (0, 3, 5, 7));
}

#[test]
fn window_bounds_with_zero_radius_is_the_pixel_itself() {
    let b: Buffer<u64> = Buffer::new(10, 8, Filter::Box(0));
    assert_eq!(b.window_bounds(5, 4), (5, 5, 4, 4));
}

#[test]
fn window_bounds_with_huge_radius_is_the_whole_image() {
    let b: Buffer<u64> = Buffer::new(10, 8, Filter::Box(1000));
    assert_eq!(b.window_bounds(5, 4), (0, 9, 0, 7));
}

#[test]
fn default_filter_is_a_zero_radius_box() {
    assert_eq!(Filter::default(), Filter::Box(0));
}

#[test]
fn default_render_settings_match_a_fresh_renderer() {
    let s = RenderSettings::default();
    assert_eq!(s.width, 800);
    assert_eq!(s.height, 600);
    assert_eq!(s.max_bounces, 0);
    assert_eq!(s.num_samples, 1);
    assert_eq!(s.filter, Filter::Box(0));
}

#[test]
fn builder_setters_replace_one_field_each() {
    let s = RenderSettings::default()
        .width(512)
        .height(512)
        .max_bounces(5)
        .num_samples(100)
        .filter(Filter::Box(1));
    assert_eq!(s.width, 512);
    assert_eq!(s.height, 512);
    assert_eq!(s.max_bounces, 5);
    assert_eq!(s.num_samples, 100);
    assert_eq!(s.filter, Filter::Box(1));
}

#[test]
fn screen_numerators_center_the_pixel_grid() {
    let s = RenderSettings::default().width(100).height(100);
    assert_eq!(s.screen_numerators(0, 0), (-99, 99, 100));
    assert_eq!(s.screen_numerators(99, 99), (99, -99, 100));
    assert_eq!(s.screen_numerators(49, 49), (-1, 1, 100));
    // The longer dimension sets the scale.
    let wide = RenderSettings::default().width(200).height(100);
    assert_eq!(wide.screen_numerators(0, 0), (-199, 99, 200));
}

#[test]
fn sample_schedule_sums_to_the_total() {
    assert_eq!(sample_schedule(10, 3), vec![3, 3, 3, 1]);
    assert_eq!(sample_schedule(5, 10), vec![5]);
    assert_eq!(sample_schedule(8, 4), vec![4, 4]);
    assert_eq!(sample_schedule(0, 4), Vec::<u32>::new());
    assert_eq!(sample_schedule(1, 1), vec![1]);
}

#[test]
fn rendering_in_two_runs_schedules_as_many_samples_as_one() {
    let k1 = 7u32;
    let k2 = 5u32;
    let two: u32 = sample_schedule(k1, 3).iter().sum::<u32>()
        + sample_schedule(k2, 3).iter().sum::<u32>();
    let one: u32 = sample_schedule(k1 + k2, 3).iter().sum();
    assert_eq!(two, one);
    assert_eq!(one, 12);
}

#[test]
fn shape_factories_return_the_unit_shapes() {
    assert_eq!(sphere(), Sphere);
    assert_eq!(cube(), Cube);
}

#[test]
fn unit_shape_bounding_boxes_scale_with_the_grid() {
    let s = sphere().bounding_box(1_000_000);
    assert_eq!(s.p_min.x, -1_000_000);
    assert_eq!(s.p_max.y, 1_000_000);
    let c = cube().bounding_box(1_000_000);
    assert_eq!(c.p_min.x, -500_000);
    assert_eq!(c.p_max.z, 500_000);
}

struct Tally {
    shapes: Vec<Sphere>,
    probes: Vec<SolidGravitySystem>,
}

impl SceneAdd<Sphere> for Tally {
    fn add(&mut self, node: Sphere) {
        self.shapes.push(node);
    }
}

impl SceneAdd<SolidGravitySystem> for Tally {
    fn add(&mut self, node: SolidGravitySystem) {
        self.probes.push(node);
    }
}

#[test]
fn scene_add_dispatches_by_node_type() {
    let mut t = Tally { shapes: Vec::new(), probes: Vec::new() };
    t.add(Sphere);
    t.add(Sphere);
    t.add(SolidGravitySystem);
    let _ = SimpleCircleSystem;
    assert_eq!(t.shapes.len(), 2);
    assert_eq!(t.probes.len(), 1);
}
