use netspectrum::bands::Mode;
use netspectrum::fireworks::{
    build_firework_instances, firework_color, firework_particle_count, firework_trail_count,
    hash_seed, Part, Rgb, Tint,
};
use netspectrum::number::{Double, Single, ONE};
use netspectrum::render::{
    background_color, build_instances, next_window_decoration_request, preferred_alpha_mode,
    surface_extent, visual_style_label, window_frame_label, AlphaMode, DrawMode, Extent,
    VisualStyle, BAR_VISIBLE, CAP_VISIBLE, MAX_FIREWORK_PARTICLES_PER_BAND, MAX_INSTANCES,
};
use netspectrum::spectrum::Spectrum;

fn single(x: f32) -> Single {
    Single::from_bits(x.to_bits()).unwrap()
}

fn f(x: Single) -> f32 {
    f32::from_bits(x.bits)
}

fn d(x: Double) -> f64 {
    f64::from_bits(x.bits)
}

#[test]
fn surface_extent_clamps_to_device_limit() {
    assert_eq!(surface_extent(2060, 669, 2048), (2048, 669));
}

#[test]
fn surface_extent_never_returns_zero() {
    assert_eq!(surface_extent(0, 0, 2048), (1, 1));
    assert_eq!(surface_extent(10, 10, 0), (1, 1));
}

#[test]
fn background_color_alpha_can_be_toggled() {
    assert_eq!(d(background_color(false).a), 1.0);
    assert_eq!(d(background_color(true).a), 0.0);
}

#[test]
fn background_color_is_a_dark_blue() {
    let c = background_color(false);
    assert_eq!((d(c.r), d(c.g), d(c.b)), (0.015, 0.022, 0.038));
    let c = background_color(true);
    assert_eq!((d(c.r), d(c.g), d(c.b)), (0.0, 0.0, 0.0));
}

#[test]
fn window_frame_label_tracks_decoration_state() {
    assert_eq!(window_frame_label(true), "frame");
    assert_eq!(window_frame_label(false), "bare");
}

#[test]
fn visual_style_label_tracks_selected_renderer() {
    assert_eq!(visual_style_label(VisualStyle::Bars), "bars");
    assert_eq!(visual_style_label(VisualStyle::Fireworks), "fire");
}

#[test]
fn next_window_decoration_request_toggles_current_state() {
    assert!(!next_window_decoration_request(true));
    assert!(next_window_decoration_request(false));
}

#[test]
fn preferred_alpha_mode_allows_transparency_when_supported() {
    assert_eq!(
        preferred_alpha_mode(&vec![
            AlphaMode::Opaque,
            AlphaMode::PostMultiplied,
            AlphaMode::PreMultiplied,
        ]),
        AlphaMode::PreMultiplied
    );
    assert_eq!(
        preferred_alpha_mode(&vec![AlphaMode::Opaque]),
        AlphaMode::Opaque
    );
}

#[test]
fn alpha_modes_by_preference() {
    assert_eq!(preferred_alpha_mode(&Vec::new()), AlphaMode::Opaque);
    assert_eq!(
        preferred_alpha_mode(&vec![AlphaMode::Opaque, AlphaMode::Auto]),
        AlphaMode::Auto
    );
    assert_eq!(
        preferred_alpha_mode(&vec![AlphaMode::Auto, AlphaMode::Inherit]),
        AlphaMode::Inherit
    );
    assert_eq!(
        preferred_alpha_mode(&vec![AlphaMode::Inherit, AlphaMode::PostMultiplied]),
        AlphaMode::PostMultiplied
    );
}

#[test]
fn ghost_bar_alpha_can_be_toggled() {
    let spectrum = Spectrum::new(Mode::Protocol, 12);
    let mut instances = Vec::new();

    build_instances(&mut instances, &spectrum, true, false);
    assert!(instances.iter().any(|inst| f(inst.color.a) > 0.0));

    build_instances(&mut instances, &spectrum, true, true);
    assert!(instances.iter().all(|inst| f(inst.color.a) == 0.0));
}

#[test]
fn firework_particle_count_scales_with_intensity() {
    assert_eq!(firework_particle_count(single(0.0)), 0);
    assert!(firework_particle_count(single(0.9)) > firework_particle_count(single(0.2)));
}

#[test]
fn fireworks_emit_more_particles_for_louder_bands() {
    let mut spectrum = Spectrum::new(Mode::Protocol, 12);
    let mut quiet = Vec::new();
    spectrum.disp[0] = single(0.15);
    build_firework_instances(&mut quiet, &spectrum);

    let mut loud = Vec::new();
    spectrum.disp[0] = single(0.90);
    build_firework_instances(&mut loud, &spectrum);

    assert!(loud.len() > quiet.len());
    assert!(loud.iter().all(|inst| inst.draw == DrawMode::Particle));
}

#[test]
fn visible_levels() {
    assert_eq!(f32::from_bits(BAR_VISIBLE), 0.002);
    assert_eq!(f32::from_bits(CAP_VISIBLE), 0.004);
    assert_eq!((MAX_INSTANCES, MAX_FIREWORK_PARTICLES_PER_BAND), (4096, 24));
}

#[test]
fn a_silent_spectrum_shows_only_its_slots() {
    let mut out = Vec::new();
    build_instances(&mut out, &Spectrum::new(Mode::Sizes, 12), true, false);
    assert_eq!(out.len(), 8);
    assert!(out.iter().all(|i| i.extent == Extent::Full && i.draw == DrawMode::Flat));
    assert!(out.iter().enumerate().all(|(k, i)| i.band == k && i.level.bits == ONE));
    assert_eq!(f(out[0].color.a), 0.045);
    build_instances(&mut out, &Spectrum::new(Mode::Hybrid, 12), true, false);
    assert_eq!(out.len(), 16);
    assert!(out.iter().skip(1).step_by(2).all(|i| i.extent == Extent::Centre));
    assert_eq!(f(out[1].color.a), 0.16);
}

#[test]
fn a_plain_bar_with_its_cap() {
    let mut s = Spectrum::new(Mode::Sizes, 12);
    s.disp[3] = single(0.5);
    s.peak[3] = single(0.75);
    s.disp[4] = single(0.002);
    s.peak[4] = single(0.004);
    let mut out = Vec::new();
    build_instances(&mut out, &s, true, false);
    assert_eq!(out.len(), 10);
    let (bar, cap) = (out[4], out[5]);
    assert_eq!((bar.band, bar.extent, bar.draw), (3, Extent::Rise(single(0.5)), DrawMode::Bar));
    assert_eq!((f(bar.level), bar.segmented), (0.5, true));
    assert_eq!(
        (f(bar.color.r), f(bar.color.g), f(bar.color.b), f(bar.color.a)),
        (1.0, 1.0, 1.0, 0.95)
    );
    assert_eq!((cap.band, cap.extent, cap.draw), (3, Extent::Cap(single(0.75)), DrawMode::Flat));
    assert_eq!((f(cap.level), cap.segmented), (0.75, false));
    assert_eq!(
        (f(cap.color.r), f(cap.color.g), f(cap.color.b), f(cap.color.a)),
        (1.0, 0.88, 0.35, 0.9)
    );
    build_instances(&mut out, &s, false, false);
    assert!(!out[4].segmented);
}

#[test]
fn a_mirrored_band_with_both_directions() {
    let mut s = Spectrum::new(Mode::Hybrid, 12);
    s.disp[2] = single(0.5);
    s.peak[2] = single(0.625);
    s.disp[3] = single(0.25);
    s.peak[3] = single(0.375);
    let mut out = Vec::new();
    build_instances(&mut out, &s, true, false);
    assert_eq!(out.len(), 20);
    let extents: Vec<Extent> = out[2..8].iter().map(|i| i.extent).collect();
    assert_eq!(
        extents,
        vec![
            Extent::Full,
            Extent::Centre,
            Extent::Up(single(0.5)),
            Extent::UpCap(single(0.625)),
            Extent::Down(single(0.25)),
            Extent::DownCap(single(0.375)),
        ]
    );
    assert!(out[2..8].iter().all(|i| i.band == 1));
    let up = out[4].color;
    assert_eq!((f(up.r), f(up.g), f(up.b), f(up.a)), (0.62, 0.92, 1.0, 0.95));
    let down = out[6].color;
    assert_eq!((f(down.r), f(down.g), f(down.b), f(down.a)), (1.0, 0.72, 0.5, 0.95));
}

#[test]
fn a_scene_replaces_the_last_one() {
    let mut out = Vec::new();
    build_instances(&mut out, &Spectrum::new(Mode::Protocol, 12), true, false);
    build_instances(&mut out, &Spectrum::new(Mode::Sizes, 12), true, false);
    assert_eq!(out.len(), 8);
}

#[test]
fn particle_counts_agree_with_the_formula() {
    for k in 0..=40_000u32 {
        let x = k as f32 / 40_000.0;
        let expected = if x <= 0.002 { 0 } else { (4.0 + x * 20.0).round() as usize };
        assert_eq!(firework_particle_count(single(x)), expected, "{x}");
        assert_eq!(firework_trail_count(single(x)), (2.0 + x * 5.0).round() as usize, "{x}");
    }
    assert_eq!(firework_particle_count(single(7.0)), 24);
    for x in [-0.5f32, -0.0, f32::NAN, f32::NEG_INFINITY] {
        assert_eq!(firework_particle_count(Single { bits: x.to_bits() }), 0);
    }
    assert_eq!(firework_particle_count(Single { bits: f32::INFINITY.to_bits() }), 24);
}

#[test]
fn particle_counts_agree_next_to_each_step() {
    for k in 0..20u32 {
        let middle = ((k as f32 + 0.5) / 20.0).to_bits();
        for bits in middle - 40..=middle + 40 {
            let x = f32::from_bits(bits);
            let expected = (4.0 + x * 20.0).round() as usize;
            assert_eq!(firework_particle_count(single(x)), expected, "{bits:#x}");
        }
    }
    for k in 0..5u32 {
        let middle = ((k as f32 + 0.5) / 5.0).to_bits();
        for bits in middle - 40..=middle + 40 {
            let x = f32::from_bits(bits);
            let expected = (2.0 + x * 5.0).round() as usize;
            assert_eq!(firework_trail_count(single(x)), expected, "{bits:#x}");
        }
    }
}

#[test]
fn seeds_are_scattered() {
    let reference = |seed: u32| {
        let mut x = seed.wrapping_mul(0x7feb_352d);
        x ^= x >> 15;
        x = x.wrapping_mul(0x846c_a68b);
        x ^= x >> 16;
        x
    };
    assert_eq!(hash_seed(0), 0);
    for seed in [1u32, 2, 7919, 0xa5a5, 0x789a, u32::MAX] {
        assert_eq!(hash_seed(seed), reference(seed));
        assert_ne!(hash_seed(seed), seed);
    }
}

#[test]
fn a_firework_is_trail_core_and_burst() {
    let mut s = Spectrum::new(Mode::Sizes, 12);
    s.disp[1] = single(0.5);
    let mut out = Vec::new();
    build_firework_instances(&mut out, &s);
    let trails = firework_trail_count(single(0.5));
    let count = firework_particle_count(single(0.5));
    assert_eq!((trails, count), (5, 14));
    assert_eq!(out.len(), trails + 1 + count);
    let base = 2u32 * 7919;
    for (i, spark) in out.iter().enumerate() {
        assert_eq!((spark.bar, spark.tint, f(spark.intensity)), (1, Tint::Gold, 0.5));
        if i < trails {
            assert_eq!((spark.part, spark.seed), (Part::Trail(i, trails), base ^ i as u32));
        } else if i == trails {
            assert_eq!((spark.part, spark.seed), (Part::Core, base ^ 0xa5a5));
        } else {
            let k = i - trails - 1;
            let seed = base ^ (k as u32 + 3).wrapping_mul(104_729);
            assert_eq!((spark.part, spark.seed), (Part::Burst(k, count), seed));
        }
    }
}

#[test]
fn tints_take_turns_or_follow_the_direction() {
    let mut s = Spectrum::new(Mode::Sizes, 12);
    s.disp = vec![single(1.0); 8];
    let mut out = Vec::new();
    build_firework_instances(&mut out, &s);
    assert_eq!(out.len(), 8 * 32);
    let tints = [Tint::Green, Tint::Gold, Tint::Red, Tint::Blue];
    assert!(out.iter().all(|spark| spark.tint == tints[spark.bar % 4]));

    let mut s = Spectrum::new(Mode::Hybrid, 12);
    s.disp = vec![single(1.0); 16];
    build_firework_instances(&mut out, &s);
    assert_eq!(out.len(), 16 * 32);
    let sides = [Tint::Inbound, Tint::Outbound];
    assert!(out.iter().all(|spark| spark.tint == sides[spark.bar % 2]));
}

#[test]
fn intensity_is_at_most_one() {
    let mut s = Spectrum::new(Mode::Sizes, 12);
    s.disp[0] = single(3.0);
    let mut out = Vec::new();
    build_firework_instances(&mut out, &s);
    assert_eq!(out.len(), 32);
    assert!(out.iter().all(|spark| spark.intensity.bits == ONE));
}

#[test]
fn colours_of_tints() {
    let parts = |tint: Tint| {
        let c = tint.color();
        [f(c.r), f(c.g), f(c.b)]
    };
    assert_eq!(parts(Tint::Green), [0.25, 1.0, 0.62]);
    assert_eq!(parts(Tint::Gold), [1.0, 0.82, 0.24]);
    assert_eq!(parts(Tint::Red), [1.0, 0.36, 0.28]);
    assert_eq!(parts(Tint::Blue), [0.48, 0.78, 1.0]);
    assert_eq!(parts(Tint::Inbound), [0.42, 0.92, 1.0]);
    assert_eq!(parts(Tint::Outbound), [1.0, 0.62, 0.32]);
}

#[test]
fn a_louder_spectrum_has_no_smaller_scene() {
    let mut s = Spectrum::new(Mode::Protocol, 12);
    let mut last = 0usize;
    for k in 0..50u32 {
        s.disp = vec![single(k as f32 / 50.0); 18];
        let mut out = Vec::new();
        build_firework_instances(&mut out, &s);
        assert!(out.len() >= last);
        last = out.len();
    }
}

#[test]
fn levels_that_are_not_visible_set_off_nothing() {
    let mut s = Spectrum::new(Mode::Protocol, 12);
    s.disp = vec![single(0.002); 18];
    let mut out = Vec::new();
    build_firework_instances(&mut out, &s);
    assert!(out.is_empty());
}

#[test]
fn equal_levels_give_the_same_fireworks() {
    let mut a = Spectrum::new(Mode::Protocol, 12);
    a.disp[3] = single(0.7);
    let mut b = Spectrum::new(Mode::Protocol, 20);
    b.disp[3] = single(0.7);
    b.peak[3] = single(0.9);
    let (mut x, mut y) = (Vec::new(), Vec::new());
    build_firework_instances(&mut x, &a);
    build_firework_instances(&mut y, &Spectrum::new(Mode::Hybrid, 12));
    build_firework_instances(&mut y, &b);
    assert_eq!(x, y);
}

#[test]
fn colours_of_particles_are_at_most_one() {
    let mix = Rgb { r: single(1.18), g: single(0.5), b: single(1.0) };
    let c = firework_color(mix, single(1.5));
    assert_eq!((f(c.r), f(c.g), f(c.b), f(c.a)), (1.0, 0.5, 1.0, 1.0));
    assert_eq!(f(firework_color(mix, single(0.25)).a), 0.25);
}
