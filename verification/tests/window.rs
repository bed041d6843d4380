use netspectrum::audio::AudioSnapshot;
use netspectrum::bands::Mode;
use netspectrum::number::{Double, Single};
use netspectrum::render::VisualStyle;
use netspectrum::spectrum::Spectrum;
use netspectrum::startup::{
    banner, check_hosts, find_device, listing_line, no_address_note, plan, DeviceChoice, Request,
};
use netspectrum::ui::{
    audio_label, header_text, human_rate, label_font, label_text, must_reconfigure, rate_unit,
    resize, Key, RateUnit, SurfaceFault, Ui, UiAction, DECORATION_REFRESH_FRAMES, LABEL_REFRESH,
};

fn double(x: f64) -> Double {
    Double::from_bits(x.to_bits()).unwrap()
}

fn single(x: f32) -> Single {
    Single::from_bits(x.to_bits()).unwrap()
}

fn strings(list: &[&str]) -> Vec<String> {
    list.iter().map(|s| s.to_string()).collect()
}

fn readout(bps: f64) -> String {
    let unit = rate_unit(double(bps));
    let number = format!("{:.*}", unit.decimals(), bps / unit.scale() as f64);
    human_rate(double(bps), &number)
}

#[test]
fn digits_choose_modes() {
    let mut ui = Ui::new();
    let start = ui;
    let table = [
        (Key::Digit1, Mode::Protocol),
        (Key::Digit2, Mode::Ports),
        (Key::Digit3, Mode::Hosts),
        (Key::Digit4, Mode::Hybrid),
        (Key::Digit5, Mode::Sizes),
    ];
    for (key, mode) in table {
        assert_eq!(ui.press(key, true), UiAction::SetMode(mode));
    }
    assert_eq!(ui, start);
}

#[test]
fn switches_are_undone_by_a_second_press() {
    let mut ui = Ui::new();
    let start = ui;
    for key in [Key::S, Key::Z, Key::X] {
        assert_eq!(ui.press(key, true), UiAction::Nothing);
        assert_ne!(ui, start);
        ui.press(key, true);
        assert_eq!(ui, start);
    }
    ui.press(Key::S, true);
    assert!(!ui.segments);
    ui.press(Key::Z, true);
    assert!(ui.transparent_background);
    ui.press(Key::X, true);
    assert!(ui.transparent_bars);
}

#[test]
fn styles_are_chosen() {
    let mut ui = Ui::new();
    assert_eq!(ui.visual_style, VisualStyle::Bars);
    ui.press(Key::F, true);
    assert_eq!(ui.visual_style, VisualStyle::Fireworks);
    ui.press(Key::F, true);
    assert_eq!(ui.visual_style, VisualStyle::Fireworks);
    ui.press(Key::B, true);
    assert_eq!(ui.visual_style, VisualStyle::Bars);
}

#[test]
fn the_frame_is_asked_for_again_for_a_few_frames() {
    let mut ui = Ui::new();
    assert_eq!(ui.begin_frame(), None);
    assert_eq!(ui.press(Key::W, true), UiAction::Decorate(false));
    assert!(!ui.window_decorated);
    for _ in 0..DECORATION_REFRESH_FRAMES {
        assert_eq!(ui.begin_frame(), Some(false));
    }
    assert_eq!(ui.begin_frame(), None);
    assert_eq!(ui.press(Key::W, false), UiAction::Decorate(true));
    assert!(ui.window_decorated);
}

#[test]
fn other_keys_ask_for_actions() {
    let mut ui = Ui::new();
    let start = ui;
    assert_eq!(ui.press(Key::A, true), UiAction::ToggleAudio);
    assert_eq!(ui.press(Key::T, true), UiAction::CyclePalette);
    assert_eq!(ui.press(Key::Q, true), UiAction::Exit);
    assert_eq!(ui.press(Key::Escape, true), UiAction::Exit);
    assert_eq!(ui.press(Key::Other, true), UiAction::Nothing);
    assert_eq!(ui, start);
}

#[test]
fn labels_are_rebuilt_when_dirty_or_due() {
    assert_eq!(f32::from_bits(LABEL_REFRESH), 0.25);
    let mut ui = Ui::new();
    let mut s = Spectrum::new(Mode::Sizes, 12);
    assert!(ui.refresh_labels(&mut s, 0.125f32.to_bits()));
    assert!(!s.labels_dirty);
    assert_eq!(ui.label_refresh.bits, LABEL_REFRESH);
    assert!(!ui.refresh_labels(&mut s, 0.125f32.to_bits()));
    assert_eq!(ui.label_refresh, single(0.125));
    assert!(ui.refresh_labels(&mut s, 0));
    assert!(ui.refresh_labels(&mut s, (-0.0f32).to_bits()));
    assert!(ui.refresh_labels(&mut s, (-0.5f32).to_bits()));
    assert_eq!(ui.label_refresh.bits, LABEL_REFRESH);
}

#[test]
fn an_empty_window_is_ignored() {
    let mut s = Spectrum::new(Mode::Sizes, 12);
    s.labels_dirty = false;
    assert_eq!(resize(&mut s, 0, 600, 2048), None);
    assert_eq!(resize(&mut s, 800, 0, 2048), None);
    assert!(!s.labels_dirty);
    assert_eq!(resize(&mut s, 4000, 600, 2048), Some((2048, 600)));
    assert!(s.labels_dirty);
    assert_eq!(resize(&mut s, 5, 5, 0), Some((1, 1)));
}

#[test]
fn faults_of_the_surface() {
    assert!(must_reconfigure(SurfaceFault::Lost));
    assert!(must_reconfigure(SurfaceFault::Outdated));
    assert!(!must_reconfigure(SurfaceFault::Timeout));
    assert!(!must_reconfigure(SurfaceFault::OutOfMemory));
}

#[test]
fn rates_for_humans() {
    assert_eq!(readout(0.0), "0 B/s");
    assert_eq!(readout(999.4), "999 B/s");
    assert_eq!(readout(1000.0), "1.0 KB/s");
    assert_eq!(readout(25_340.0), "25.3 KB/s");
    assert_eq!(readout(999_999.0), "1000.0 KB/s");
    assert_eq!(readout(1e6), "1.0 MB/s");
    assert_eq!(readout(123_456_789.0), "123.5 MB/s");
    assert_eq!(readout(1e9), "1.00 GB/s");
    assert_eq!(readout(2.345e10), "23.45 GB/s");
}

#[test]
fn units_change_at_their_limits() {
    let below = |x: f64| Double::from_bits(x.to_bits() - 1).unwrap();
    assert_eq!(rate_unit(below(1e3)), RateUnit::Plain);
    assert_eq!(rate_unit(double(1e3)), RateUnit::Kilo);
    assert_eq!(rate_unit(below(1e6)), RateUnit::Kilo);
    assert_eq!(rate_unit(double(1e6)), RateUnit::Mega);
    assert_eq!(rate_unit(below(1e9)), RateUnit::Mega);
    assert_eq!(rate_unit(double(1e9)), RateUnit::Giga);
}

#[test]
fn odd_rates_have_the_plain_unit() {
    for x in [-1e12f64, -0.0, f64::NAN, f64::NEG_INFINITY] {
        assert_eq!(rate_unit(Double { bits: x.to_bits() }), RateUnit::Plain);
    }
    assert_eq!(rate_unit(Double { bits: f64::INFINITY.to_bits() }), RateUnit::Giga);
}

#[test]
fn labels_of_bands() {
    assert_eq!(label_text("DNS", "12 B/s"), "DNS\n12 B/s");
    assert_eq!((label_font(14), label_font(15)), (12, 10));
}

#[test]
fn labels_of_audio() {
    let label = |enabled, available| audio_label(AudioSnapshot { enabled, available });
    assert_eq!(label(true, true), "audio on");
    assert_eq!(label(false, true), "audio off");
    assert_eq!(label(false, false), "audio n/a");
}

#[test]
fn the_header_line() {
    let off = AudioSnapshot { enabled: false, available: true };
    let mut ui = Ui::new();
    assert_eq!(
        header_text("eth0", Mode::Ports, "1 B/s", "2 B/s", off, "warm", &ui),
        "NETSPECTRUM eth0 [PORT SPECTRUM]  in 1 B/s  out 2 B/s   1-5 modes  B/F bars  S seg  \
         A audio off  T warm  W frame  Z bg on  X bar gry  Q quit"
    );
    for key in [Key::F, Key::W, Key::Z, Key::X] {
        ui.press(key, true);
    }
    let on = AudioSnapshot { enabled: true, available: true };
    assert_eq!(
        header_text("lo", Mode::Hosts, "0 B/s", "0 B/s", on, "-", &ui),
        "NETSPECTRUM lo [TOP HOSTS]  in 0 B/s  out 0 B/s   1-5 modes  B/F fire  S seg  \
         A audio on  T -  W bare  Z bg clr  X bar clr  Q quit"
    );
}

#[test]
fn devices_are_found_by_name() {
    let names = strings(&["lo", "eth0", "eth0"]);
    assert_eq!(find_device(&names, "eth0"), Some(1));
    assert_eq!(find_device(&names, "eth"), None);
}

#[test]
fn requests_are_planned() {
    let names = strings(&["lo", "eth0"]);
    assert_eq!(plan(true, "nonsense", Some("wlan0"), &names), Ok(Request::List));
    assert_eq!(
        plan(false, "SIZE", None, &names),
        Ok(Request::Capture(Mode::Sizes, DeviceChoice::Default))
    );
    assert_eq!(
        plan(false, "hosts", Some("eth0"), &names),
        Ok(Request::Capture(Mode::Hosts, DeviceChoice::Named(1)))
    );
}

#[test]
fn bad_requests_are_refused() {
    let names = strings(&["lo", "eth0"]);
    assert_eq!(
        plan(false, "Bars", Some("wlan0"), &names),
        Err("unknown mode 'Bars' (protocol|ports|hosts|hybrid|sizes)".to_string())
    );
    assert_eq!(
        plan(false, "ports", Some("wlan0"), &names),
        Err("interface 'wlan0' not found (try --list)".to_string())
    );
}

#[test]
fn host_bands_have_limits() {
    assert_eq!(check_hosts(3), Err("--hosts must be between 4 and 24"));
    assert_eq!(check_hosts(4), Ok(()));
    assert_eq!(check_hosts(24), Ok(()));
    assert_eq!(check_hosts(25), Err("--hosts must be between 4 and 24"));
}

#[test]
fn lines_for_the_terminal() {
    assert_eq!(
        listing_line("eth0", &strings(&["10.0.0.1", "fe80::1"])),
        "eth0             10.0.0.1, fe80::1"
    );
    assert_eq!(listing_line("a-very-long-interface", &Vec::new()), "a-very-long-interface ");
    assert_eq!(
        no_address_note("any"),
        "note: 'any' reports no addresses; direction (in/out) detection will treat all traffic as inbound"
    );
    assert_eq!(
        banner("eth0"),
        "netspectrum: passive capture on 'eth0' -- no packets are ever transmitted"
    );
}
