use korchevatel::layer::{tiled_layer_id, Layer};

#[test]
fn layer_from_tiled_name_parses_gameplay_layers() {
    assert_eq!(Layer::from_tiled_name("Layer 1").map(Layer::id), Some(1));
    assert_eq!(Layer::from_tiled_name("Layer 2").map(Layer::id), Some(2));
    assert_eq!(Layer::from_tiled_name("Layer 3").map(Layer::id), Some(3));
}

#[test]
fn layer_from_tiled_name_ignores_non_gameplay_layers() {
    assert!(Layer::from_tiled_name("Background").is_none());
    assert!(Layer::from_tiled_name("Objects").is_none());
    assert!(Layer::from_tiled_name("Layer x").is_none());
}
