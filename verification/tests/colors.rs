//! Color maps, specifications, parameters and the refresh decision.

use jset_desk::img::{dims_ok, refresh_actions, ImageParams, MIN_IMAGE_DIMENSION};
use jset_desk::iter::IterParams;
use jset_desk::cx::Cx;
use jset_desk::rgb::{ColorMap, ColorMapSpec, GradientSpec, RGB};
use jset_desk::EngineError;

fn rgb(r: u32, g: u32, b: u32) -> RGB {
    RGB::new(r, g, b)
}

#[test]
fn spec_len_is_sum_of_steps() {
    let spec = ColorMapSpec::new(
        vec![
            GradientSpec::new(rgb(0, 0, 0), rgb(1, 1, 1), 256),
            GradientSpec::new(rgb(1, 1, 1), rgb(2, 2, 2), 100),
            GradientSpec::new(rgb(2, 2, 2), rgb(3, 3, 3), 0),
        ],
        rgb(7, 7, 7),
    );
    assert_eq!(spec.len(), 356);
    assert_eq!(ColorMapSpec::empty().len(), 0);
}

#[test]
fn make_checks_the_shade_count() {
    let spec = ColorMapSpec::new(
        vec![GradientSpec::new(rgb(0, 0, 0), rgb(9, 9, 9), 3)],
        rgb(7, 7, 7),
    );
    let shades = vec![rgb(0, 0, 0), rgb(3, 3, 3), rgb(6, 6, 6)];
    let map = ColorMap::make(&spec, shades).unwrap();
    assert_eq!(map.len(), 3);
    assert_eq!(
        ColorMap::make(&spec, vec![rgb(0, 0, 0)]).err(),
        Some(EngineError::BadShadeCount)
    );
    assert_eq!(
        ColorMap::make(&spec, vec![rgb(0, 0, 0); 4]).err(),
        Some(EngineError::BadShadeCount)
    );
}

#[test]
fn get_falls_back_to_the_default_color() {
    let spec = ColorMapSpec::new(
        vec![GradientSpec::new(rgb(0, 0, 0), rgb(9, 9, 9), 2)],
        rgb(7, 7, 7),
    );
    let map = ColorMap::make(&spec, vec![rgb(10, 0, 0), rgb(20, 0, 0)]).unwrap();
    assert_eq!(map.get(0), rgb(10, 0, 0));
    assert_eq!(map.get(1), rgb(20, 0, 0));
    assert_eq!(map.get(2), rgb(7, 7, 7));
    assert_eq!(map.get(3), rgb(7, 7, 7));
    assert_eq!(map.get(usize::MAX), rgb(7, 7, 7));
}

#[test]
fn inserted_gradients_match_their_neighbours() {
    let a = rgb(10, 10, 10);
    let b = rgb(20, 20, 20);
    let d = rgb(30, 30, 30);
    let mut spec = ColorMapSpec::new(vec![GradientSpec::new(a, b, 8)], d);

    // In front: black up to the old first gradient's start color.
    spec.insert_gradient(0);
    assert_eq!(spec.grads[0], GradientSpec::new(rgb(0, 0, 0), a, 256));
    assert_eq!(spec.grads[1], GradientSpec::new(a, b, 8));

    // At the back: the last gradient's end color up to the default.
    spec.append_gradient();
    assert_eq!(spec.grads[2], GradientSpec::new(b, d, 256));

    // In between: bridging the two neighbours.
    spec.insert_gradient(2);
    assert_eq!(spec.grads[2], GradientSpec::new(b, b, 256));
    assert_eq!(spec.grads.len(), 4);

    spec.remove_gradient(0);
    assert_eq!(spec.grads.len(), 3);
    assert_eq!(spec.grads[0], GradientSpec::new(a, b, 8));
    // Removing past the end is a no-op.
    spec.remove_gradient(99);
    assert_eq!(spec.grads.len(), 3);

    spec.clear_gradients();
    assert_eq!(spec.grads.len(), 0);
    assert_eq!(spec.default, d);

    // Into an empty list: black up to the default color.
    spec.insert_gradient(5);
    assert_eq!(spec.grads[0], GradientSpec::new(rgb(0, 0, 0), d, 256));
}

#[test]
fn spec_equality_is_structural() {
    let mk = || {
        ColorMapSpec::new(
            vec![GradientSpec::new(rgb(1, 2, 3), rgb(4, 5, 6), 10)],
            rgb(7, 8, 9),
        )
    };
    assert!(mk() == mk());
    let mut other = mk();
    other.grads[0].steps = 11;
    assert!(mk() != other);
    let mut recolored = mk();
    recolored.default = rgb(0, 0, 0);
    assert!(mk() != recolored);
}

#[test]
fn rule_equality_is_structural() {
    let c1 = Cx::rect(1, 2);
    let c2 = Cx::rect(3, 4);
    assert!(IterParams::Mandlebrot == IterParams::Mandlebrot);
    assert!(IterParams::Mandlebrot != IterParams::PseudoMandlebrot(c1, c2));
    assert!(
        IterParams::PseudoMandlebrot(c1, c2) == IterParams::PseudoMandlebrot(c1, c2)
    );
    assert!(
        IterParams::PseudoMandlebrot(c1, c2) != IterParams::PseudoMandlebrot(c2, c1)
    );
    assert!(IterParams::Polynomial(vec![c1, c2]) == IterParams::Polynomial(vec![c1, c2]));
    assert!(IterParams::Polynomial(vec![c1, c2]) != IterParams::Polynomial(vec![c1]));
    assert!(IterParams::Polynomial(vec![c1, c2]) != IterParams::Polynomial(vec![c2, c2]));
}

#[test]
fn default_params_hold_the_traditional_view() {
    let d = ImageParams::default();
    assert_eq!(d.xpix, 800);
    assert_eq!(d.ypix, 600);
    assert_eq!(d.x, (-2.0f64).to_bits());
    assert_eq!(d.y, 1.0f64.to_bits());
    assert_eq!(d.width, 3.0f64.to_bits());
}

#[test]
fn dimension_floor_is_enforced() {
    assert_eq!(MIN_IMAGE_DIMENSION, 16);
    assert!(dims_ok(16, 16));
    assert!(!dims_ok(15, 16));
    assert!(!dims_ok(16, 15));
    assert!(dims_ok(800, 600));
}

#[test]
fn refresh_decision_matches_what_changed() {
    let dims = ImageParams::default();
    let mut dims2 = dims;
    dims2.xpix = 1024;
    let iter = IterParams::Mandlebrot;
    let iter2 = IterParams::PseudoMandlebrot(Cx::rect(1, 0), Cx::rect(0, 1));
    let spec = ColorMapSpec::new(
        vec![GradientSpec::new(rgb(0, 0, 0), rgb(9, 9, 9), 4)],
        rgb(7, 7, 7),
    );
    let mut spec2 = spec.clone();
    spec2.grads[0].steps = 8;

    // Nothing changed: nothing to do.
    let p = refresh_actions(&dims, &dims, &iter, &iter, &spec, &spec, 4, 4);
    assert!(!p.recompute && !p.reiterate && !p.recolor);

    // A new view forces a fresh map.
    let p = refresh_actions(&dims, &dims2, &iter, &iter, &spec, &spec, 4, 4);
    assert!(p.recompute && !p.reiterate && p.recolor);

    // A new rule forces a fresh map.
    let p = refresh_actions(&dims, &dims, &iter, &iter2, &spec, &spec, 4, 4);
    assert!(p.recompute && !p.reiterate && p.recolor);

    // A longer color map extends the old counts.
    let p = refresh_actions(&dims, &dims, &iter, &iter, &spec, &spec2, 4, 8);
    assert!(!p.recompute && p.reiterate && p.recolor);

    // A shorter color map only recolors.
    let p = refresh_actions(&dims, &dims, &iter, &iter, &spec2, &spec, 8, 4);
    assert!(!p.recompute && !p.reiterate && p.recolor);
}
