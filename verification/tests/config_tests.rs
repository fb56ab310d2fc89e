use rusty_rattle::{Config, ViewType};

#[test]
fn builder_fills_documented_defaults() {
    let config = Config::builder().build();
    assert!(matches!(config.view_type(), ViewType::TUI));
    assert_eq!(config.grid_height, 10);
    assert_eq!(config.grid_width, 20);
    assert_eq!(config.update_interval_ms, 200);
}

#[test]
fn builder_keeps_every_option_set() {
    let config = Config::builder()
        .set_view_type(ViewType::GUI)
        .set_grid_height(30)
        .set_grid_width(40)
        .set_update_interval(125)
        .build();
    assert!(matches!(config.view_type(), ViewType::GUI));
    assert_eq!(config.grid_height, 30);
    assert_eq!(config.grid_width, 40);
    assert_eq!(config.update_interval_ms, 125);
}

#[test]
fn builder_mixes_set_options_with_defaults() {
    let config = Config::builder().set_grid_width(32).build();
    assert_eq!(config.grid_width, 32);
    assert_eq!(config.grid_height, 10);
    assert!(matches!(config.view_type(), ViewType::TUI));
    assert_eq!(config.update_interval_ms, 200);
}
