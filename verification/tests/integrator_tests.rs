use raytracer::integrator::{asks_material, shade, Shade, MAX_RAY_RECURSION};

#[test]
fn the_depth_cap_is_fifty() {
    assert_eq!(MAX_RAY_RECURSION, 50);
}

#[test]
fn a_miss_is_the_sky() {
    assert_eq!(shade(false, 0, false), Shade::Sky);
    assert_eq!(shade(false, 0, true), Shade::Sky);
    assert_eq!(shade(false, 50, true), Shade::Sky);
    assert_eq!(shade(false, u32::MAX, false), Shade::Sky);
}

#[test]
fn a_scattered_ray_bounces_below_the_cap() {
    assert_eq!(shade(true, 0, true), Shade::Bounce);
    assert_eq!(shade(true, 49, true), Shade::Bounce);
}

#[test]
fn a_hit_at_the_cap_is_a_runaway() {
    assert_eq!(shade(true, 50, true), Shade::Runaway);
    assert_eq!(shade(true, 50, false), Shade::Runaway);
}

#[test]
fn an_unscattered_ray_is_absorbed() {
    assert_eq!(shade(true, 0, false), Shade::Absorbed);
    assert_eq!(shade(true, 49, false), Shade::Absorbed);
    assert_eq!(shade(true, 51, true), Shade::Absorbed);
    assert_eq!(shade(true, 51, false), Shade::Absorbed);
}

#[test]
fn the_material_is_asked_below_the_cap() {
    assert!(asks_material(true, 0));
    assert!(asks_material(true, 49));
    assert!(!asks_material(true, 50));
    assert!(!asks_material(true, 51));
    assert!(!asks_material(false, 0));
    assert!(!asks_material(false, 50));
}

#[test]
fn a_path_of_mirrors_ends_as_a_runaway() {
    // every surface scatters: the path takes fifty bounces and no more
    let mut depth = 0u32;
    let mut bounces = 0u32;
    let end = loop {
        let scattered = asks_material(true, depth);
        match shade(true, depth, scattered) {
            Shade::Bounce => {
                depth += 1;
                bounces += 1;
            }
            other => break other,
        }
    };
    assert_eq!(end, Shade::Runaway);
    assert_eq!(bounces, 50);
}
