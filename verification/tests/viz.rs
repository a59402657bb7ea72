use pathmap::viz::{color_for_bitmask, DrawConfig};

#[test]
fn draw_config_default_is_logical_numbers() {
    let dc = DrawConfig::default();
    assert!(!dc.ascii);
    assert!(!dc.hide_value_paths);
    assert!(!dc.minimize_values);
    assert!(dc.logical);
}

#[test]
fn colors_for_shared_nodes() {
    let expected = ["black", "blue", "green", "#0aa", "red", "#a0a", "#aa0", "gray"];
    for (mask, color) in expected.iter().enumerate() {
        assert_eq!(color_for_bitmask(mask as u64), *color);
    }
}
