use korchevatel::layer::{tiled_layer_id, Layer};

#[test]
fn new_layer_has_its_number() {
    for id in 1..=31u32 {
        let layer = Layer::new(id);
        assert_eq!(layer.id(), id);
        assert_eq!(layer.to_bits(), 1u32 << id);
    }
}

#[test]
fn bottom_layer_is_layer_one() {
    assert_eq!(Layer::bottom(), Layer::new(1));
    assert_eq!(Layer::bottom().to_bits(), 0b10);
}

#[test]
fn next_and_prev_move_one_layer() {
    assert_eq!(Layer::new(2).next(), Layer::new(3));
    assert_eq!(Layer::new(3).prev(), Layer::new(2));
    assert_eq!(Layer::new(5).next().prev(), Layer::new(5));
    assert_eq!(Layer::new(5).prev().next(), Layer::new(5));
}

#[test]
fn next_and_prev_wrap_around() {
    assert_eq!(Layer::new(31).next().to_bits(), 1);
    assert_eq!(Layer::new(31).next().id(), 0);
    assert_eq!(Layer::new(1).prev().id(), 0);
    assert_eq!(Layer::new(1).prev().prev(), Layer::new(31));
}

#[test]
fn collision_filters_include_boundary_bit() {
    assert_eq!(Layer::new(3).collision_filters(), 0b1001);
    assert_eq!(Layer::all_bits(), u32::MAX);
}

#[test]
fn layers_order_by_depth() {
    assert!(Layer::new(1).precedes(&Layer::new(2)));
    assert!(!Layer::new(2).precedes(&Layer::new(2)));
    assert!(Layer::new(2) < Layer::new(3));
}

#[test]
fn tiled_layer_id_parses_like_u32_parse() {
    assert_eq!(tiled_layer_id("Layer 7"), Some(7));
    assert_eq!(tiled_layer_id("Layer 007"), Some(7));
    assert_eq!(tiled_layer_id("Layer +5"), Some(5));
    assert_eq!(tiled_layer_id("Layer 4294967295"), Some(u32::MAX));
    assert_eq!(tiled_layer_id("Layer 4294967296"), None);
    assert_eq!(tiled_layer_id("Layer 99999999999999999999"), None);
    assert_eq!(tiled_layer_id("Layer +"), None);
    assert_eq!(tiled_layer_id("Layer -1"), None);
    assert_eq!(tiled_layer_id("Layer "), None);
    assert_eq!(tiled_layer_id("Layer 1 "), None);
    assert_eq!(tiled_layer_id("layer 1"), None);
    assert_eq!(tiled_layer_id("Layer"), None);
    assert_eq!(tiled_layer_id(""), None);
}

#[test]
fn from_tiled_name_builds_the_layer() {
    assert_eq!(Layer::from_tiled_name("Layer 12"), Some(Layer::new(12)));
    assert_eq!(Layer::from_tiled_name("Layer 12x"), None);
}
