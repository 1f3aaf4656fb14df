use rendology::fxaa;
use rendology::pipeline::glow;

#[test]
fn fxaa_defaults_to_low_quality() {
    assert_eq!(fxaa::Config::default().quality, fxaa::Quality::Low);
}

#[test]
fn fxaa_qualities_are_distinct() {
    assert_ne!(fxaa::Quality::Low, fxaa::Quality::Medium);
    assert_ne!(fxaa::Quality::Medium, fxaa::Quality::High);
    assert_ne!(fxaa::Quality::Low, fxaa::Quality::High);
    let config = fxaa::Config { quality: fxaa::Quality::High };
    assert_eq!(config.clone().quality, fxaa::Quality::High);
}

#[test]
fn glow_config_has_a_default() {
    let config = glow::Config::default();
    assert_eq!(format!("{:?}", config.clone()), "Config");
}
