//! The window's side of the program: keys, frames, readouts and the header line.

use crate::audio::AudioSnapshot;
use crate::bands::{mode_name, Mode};
use crate::number::{is_finite, left_of, time_left, Double, Single};
use crate::render::{surface_extent, visual_style_label, window_frame_label, VisualStyle};
use crate::spectrum::{Spectrum, SpectrumView};
use vstd::prelude::*;
use vstd::string::*;

verus! {

/// Frames for which a new window decoration is asked for again.
pub const DECORATION_REFRESH_FRAMES: u8 = 4;

/// The time between two rebuilds of the band labels, a quarter of a second.
pub const LABEL_REFRESH: u32 = 0x3e80_0000;

// ---------------------------------------------------------------- keys

/// A key that means something, or any other.
#[derive(Copy, Clone, Debug, PartialEq, Eq, Structural)]
pub enum Key {
    Digit1,
    Digit2,
    Digit3,
    Digit4,
    Digit5,
    S,
    B,
    F,
    W,
    Z,
    X,
    A,
    T,
    Q,
    Escape,
    Other,
}

/// What a key press asks for beyond the state of the interface.
#[derive(Copy, Clone, Debug, PartialEq, Eq, Structural)]
pub enum UiAction {
    Nothing,
    SetMode(Mode),
    /// Ask the window for its frame, or to drop it.
    Decorate(bool),
    ToggleAudio,
    CyclePalette,
    Exit,
}

/// The state of the interface.
#[derive(Copy, Clone, Debug, PartialEq, Eq, Structural)]
pub struct Ui {
    pub segments: bool,
    pub transparent_background: bool,
    pub transparent_bars: bool,
    pub window_decorated: bool,
    pub decoration_refresh_frames: u8,
    pub visual_style: VisualStyle,
    /// Time left until the band labels are rebuilt.
    pub label_refresh: Single,
}

/// What a key asks for, with a window that is `decorated` now.
pub open spec fn action_of(key: Key, decorated: bool) -> UiAction {
    match key {
        Key::Digit1 => UiAction::SetMode(Mode::Protocol),
        Key::Digit2 => UiAction::SetMode(Mode::Ports),
        Key::Digit3 => UiAction::SetMode(Mode::Hosts),
        Key::Digit4 => UiAction::SetMode(Mode::Hybrid),
        Key::Digit5 => UiAction::SetMode(Mode::Sizes),
        Key::W => UiAction::Decorate(!decorated),
        Key::A => UiAction::ToggleAudio,
        Key::T => UiAction::CyclePalette,
        Key::Q | Key::Escape => UiAction::Exit,
        Key::S | Key::B | Key::F | Key::Z | Key::X | Key::Other => UiAction::Nothing,
    }
}

/// The interface after a key press.
pub open spec fn after_key(ui: Ui, key: Key, decorated: bool) -> Ui {
    match key {
        Key::S => Ui { segments: !ui.segments, ..ui },
        Key::B => Ui { visual_style: VisualStyle::Bars, ..ui },
        Key::F => Ui { visual_style: VisualStyle::Fireworks, ..ui },
        Key::W => Ui {
            window_decorated: !decorated,
            decoration_refresh_frames: DECORATION_REFRESH_FRAMES,
            ..ui
        },
        Key::Z => Ui { transparent_background: !ui.transparent_background, ..ui },
        Key::X => Ui { transparent_bars: !ui.transparent_bars, ..ui },
        _ => ui,
    }
}

impl Ui {
    /// The interface at the start: segmented bars on an opaque background, in a
    /// window with a frame.
    pub fn new() -> (r: Ui)
        ensures
            r == (Ui {
                segments: true,
                transparent_background: false,
                transparent_bars: false,
                window_decorated: true,
                decoration_refresh_frames: 0,
                visual_style: VisualStyle::Bars,
                label_refresh: Single { bits: 0 },
            }),
    {
        Ui {
            segments: true,
            transparent_background: false,
            transparent_bars: false,
            window_decorated: true,
            decoration_refresh_frames: 0,
            visual_style: VisualStyle::Bars,
            label_refresh: Single { bits: 0 },
        }
    }

    /// Take a key press; `decorated` is what the window says of its frame.
    pub fn press(&mut self, key: Key, decorated: bool) -> (r: UiAction)
        ensures
            *final(self) == after_key(*old(self), key, decorated),
            r == action_of(key, decorated),
    {
        match key {
            Key::Digit1 => UiAction::SetMode(Mode::Protocol),
            Key::Digit2 => UiAction::SetMode(Mode::Ports),
            Key::Digit3 => UiAction::SetMode(Mode::Hosts),
            Key::Digit4 => UiAction::SetMode(Mode::Hybrid),
            Key::Digit5 => UiAction::SetMode(Mode::Sizes),
            Key::S => {
                self.segments = !self.segments;
                UiAction::Nothing
            },
            Key::B => {
                self.visual_style = VisualStyle::Bars;
                UiAction::Nothing
            },
            Key::F => {
                self.visual_style = VisualStyle::Fireworks;
                UiAction::Nothing
            },
            Key::W => {
                self.window_decorated = crate::render::next_window_decoration_request(decorated);
                self.decoration_refresh_frames = DECORATION_REFRESH_FRAMES;
                UiAction::Decorate(self.window_decorated)
            },
            Key::Z => {
                self.transparent_background = !self.transparent_background;
                UiAction::Nothing
            },
            Key::X => {
                self.transparent_bars = !self.transparent_bars;
                UiAction::Nothing
            },
            Key::A => UiAction::ToggleAudio,
            Key::T => UiAction::CyclePalette,
            Key::Q | Key::Escape => UiAction::Exit,
            Key::Other => UiAction::Nothing,
        }
    }

    /// Begin a frame. The result is the decoration to ask for again, for a few
    /// frames after it was changed.
    pub fn begin_frame(&mut self) -> (r: Option<bool>)
        ensures
            *final(self) == after_frame(*old(self)),
            old(self).decoration_refresh_frames > 0 ==> r == Some(old(self).window_decorated)
                && *final(self) == (Ui {
                decoration_refresh_frames: (old(self).decoration_refresh_frames - 1) as u8,
                ..*old(self)
            }),
            old(self).decoration_refresh_frames == 0 ==> r is None && *final(self) == *old(self),
    {
        if self.decoration_refresh_frames > 0 {
            self.decoration_refresh_frames = self.decoration_refresh_frames - 1;
            Some(self.window_decorated)
        } else {
            None
        }
    }

    /// Whether the band labels are rebuilt in this frame: when they have changed,
    /// or when their time is up. `left` is the time left after this frame: the
    /// pattern of a finite number of either sign.
    pub fn refresh_labels(&mut self, spectrum: &mut Spectrum, left: u32) -> (r: bool)
        requires
            is_finite(left),
        ensures
            r == (old(spectrum).labels_dirty || left_of(left) is None),
            final(spectrum)@ == (SpectrumView { labels_dirty: false, ..old(spectrum)@ }),
            *final(self) == (Ui {
                label_refresh: match left_of(left) {
                    Some(time) => if old(spectrum).labels_dirty {
                        Single { bits: LABEL_REFRESH }
                    } else {
                        time
                    },
                    None => Single { bits: LABEL_REFRESH },
                },
                ..*old(self)
            }),
    {
        let due = match time_left(left) {
            Some(time) => {
                self.label_refresh = time;
                spectrum.labels_dirty
            },
            None => true,
        };
        if due {
            spectrum.labels_dirty = false;
            self.label_refresh = Single { bits: LABEL_REFRESH };
        }
        due
    }
}

/// What each key does: S, Z and X each flip one switch, B and F choose the style, W
/// flips the frame that the window has now, and every other field stays as it is.
pub proof fn lemma_keys(ui: Ui, key: Key, decorated: bool)
    ensures
        ({
            let w = after_key(ui, key, decorated);
            &&& w.segments == (if key == Key::S {
                !ui.segments
            } else {
                ui.segments
            })
            &&& w.transparent_background == (if key == Key::Z {
                !ui.transparent_background
            } else {
                ui.transparent_background
            })
            &&& w.transparent_bars == (if key == Key::X {
                !ui.transparent_bars
            } else {
                ui.transparent_bars
            })
            &&& key == Key::B ==> w.visual_style == VisualStyle::Bars
            &&& key == Key::F ==> w.visual_style == VisualStyle::Fireworks
            &&& key != Key::B && key != Key::F ==> w.visual_style == ui.visual_style
            &&& key == Key::W ==> w.window_decorated == !decorated && w.decoration_refresh_frames == 4
            &&& key != Key::W ==> w.window_decorated == ui.window_decorated
                && w.decoration_refresh_frames == ui.decoration_refresh_frames
            &&& w.label_refresh == ui.label_refresh
        }),
{
}

/// Which key asks for what: each action comes from its own keys and from no other.
pub proof fn lemma_actions(key: Key, decorated: bool)
    ensures
        ({
            let action = action_of(key, decorated);
            &&& action == UiAction::SetMode(Mode::Protocol) <==> key == Key::Digit1
            &&& action == UiAction::SetMode(Mode::Ports) <==> key == Key::Digit2
            &&& action == UiAction::SetMode(Mode::Hosts) <==> key == Key::Digit3
            &&& action == UiAction::SetMode(Mode::Hybrid) <==> key == Key::Digit4
            &&& action == UiAction::SetMode(Mode::Sizes) <==> key == Key::Digit5
            &&& action == UiAction::Decorate(!decorated) <==> key == Key::W
            &&& action != UiAction::Decorate(decorated)
            &&& action == UiAction::ToggleAudio <==> key == Key::A
            &&& action == UiAction::CyclePalette <==> key == Key::T
            &&& action == UiAction::Exit <==> key == Key::Q || key == Key::Escape
        }),
{
}

/// The interface after the beginning of a frame.
pub open spec fn after_frame(ui: Ui) -> Ui {
    if ui.decoration_refresh_frames > 0 {
        Ui { decoration_refresh_frames: (ui.decoration_refresh_frames - 1) as u8, ..ui }
    } else {
        ui
    }
}

/// The interface after the beginning of `n` frames.
pub open spec fn after_frames(ui: Ui, n: nat) -> Ui
    decreases n,
{
    if n == 0 {
        ui
    } else {
        after_frame(after_frames(ui, (n - 1) as nat))
    }
}

/// A change of the frame is asked for again in exactly the next four frames: the
/// count is not down before, it is down after them, and nothing else changes.
pub proof fn lemma_decoration_asked_again(ui: Ui, decorated: bool, n: nat)
    ensures
        ({
            let start = after_key(ui, Key::W, decorated);
            let w = after_frames(start, n);
            &&& n < 4 <==> w.decoration_refresh_frames > 0
            &&& w.window_decorated == !decorated
            &&& w == (Ui { decoration_refresh_frames: w.decoration_refresh_frames, ..start })
        }),
    decreases n,
{
    lemma_frames_counted(after_key(ui, Key::W, decorated), n);
}

proof fn lemma_frames_counted(ui: Ui, n: nat)
    ensures
        after_frames(ui, n) == (Ui {
            decoration_refresh_frames: if n < ui.decoration_refresh_frames {
                (ui.decoration_refresh_frames - n) as u8
            } else {
                0
            },
            ..ui
        }),
    decreases n,
{
    if n > 0 {
        lemma_frames_counted(ui, (n - 1) as nat);
    }
}

/// The keys that switch something are undone by pressing them again.
pub proof fn lemma_switches_undone(ui: Ui, key: Key, decorated: bool)
    requires
        key == Key::S || key == Key::Z || key == Key::X,
    ensures
        after_key(after_key(ui, key, decorated), key, decorated) == ui,
{
}

/// Toggling the window frame twice asks for the decoration it had.
pub proof fn lemma_decoration_undone(ui: Ui, decorated: bool)
    ensures
        after_key(after_key(ui, Key::W, decorated), Key::W, !decorated).window_decorated == decorated,
        action_of(Key::W, decorated) == UiAction::Decorate(
            after_key(ui, Key::W, decorated).window_decorated,
        ),
{
}

// ---------------------------------------------------------------- frames

/// Take a new window size. A window with no area is ignored; else the result is
/// the extent of the surface, and the labels have to be laid out anew.
pub fn resize(spectrum: &mut Spectrum, width: u32, height: u32, max_extent: u32) -> (r: Option<(u32, u32)>)
    ensures
        r is Some <==> width > 0 && height > 0,
        r matches Some(e) ==> e.0 >= 1 && e.1 >= 1 && (max_extent >= 1 ==> e == (
            crate::render::clamped(width, 1, max_extent),
            crate::render::clamped(height, 1, max_extent),
        )) && (max_extent == 0 ==> e == (1u32, 1u32)),
        final(spectrum)@ == (SpectrumView {
            labels_dirty: old(spectrum).labels_dirty || (width > 0 && height > 0),
            ..old(spectrum)@
        }),
{
    if width > 0 && height > 0 {
        spectrum.labels_dirty = true;
        Some(surface_extent(width, height, max_extent))
    } else {
        None
    }
}

/// Why a frame has no surface to draw on.
#[derive(Copy, Clone, Debug, PartialEq, Eq, Structural)]
pub enum SurfaceFault {
    Lost,
    Outdated,
    Timeout,
    OutOfMemory,
}

/// Whether the surface has to be configured anew after a fault. The frame is
/// skipped either way.
pub fn must_reconfigure(fault: SurfaceFault) -> (r: bool)
    ensures
        r == (fault == SurfaceFault::Lost || fault == SurfaceFault::Outdated),
{
    match fault {
        SurfaceFault::Lost | SurfaceFault::Outdated => true,
        SurfaceFault::Timeout | SurfaceFault::OutOfMemory => false,
    }
}

// ---------------------------------------------------------------- readouts

/// The unit of a rate readout.
#[derive(Copy, Clone, Debug, PartialEq, Eq, Structural)]
pub enum RateUnit {
    Giga,
    Mega,
    Kilo,
    Plain,
}

/// The unit for a rate: giga from 1e9 bytes per second, mega from 1e6, kilo from
/// 1e3. A pattern that stands for a negative number or for none at all (above that
/// of infinity) reaches none of these.
pub open spec fn unit_of(bps: Double) -> RateUnit {
    if bps.bits > 0x7ff0_0000_0000_0000 {
        RateUnit::Plain
    } else if bps.bits >= 0x41cd_cd65_0000_0000 {
        RateUnit::Giga
    } else if bps.bits >= 0x412e_8480_0000_0000 {
        RateUnit::Mega
    } else if bps.bits >= 0x408f_4000_0000_0000 {
        RateUnit::Kilo
    } else {
        RateUnit::Plain
    }
}

/// The unit as a number from none to giga.
pub open spec fn unit_rank(unit: RateUnit) -> int {
    match unit {
        RateUnit::Plain => 0,
        RateUnit::Kilo => 1,
        RateUnit::Mega => 2,
        RateUnit::Giga => 3,
    }
}

/// A higher rate never has a smaller unit; and the unit is the greatest that the
/// rate reaches, of 1e3, 1e6 and 1e9 bytes per second.
pub proof fn lemma_units(a: Double, b: Double)
    requires
        a.is_number(),
        b.is_number(),
        a.bits <= b.bits,
    ensures
        unit_rank(unit_of(a)) <= unit_rank(unit_of(b)),
        a.bits >= 0x408f_4000_0000_0000 <==> unit_rank(unit_of(a)) >= 1,
        a.bits >= 0x412e_8480_0000_0000 <==> unit_rank(unit_of(a)) >= 2,
        a.bits >= 0x41cd_cd65_0000_0000 <==> unit_rank(unit_of(a)) >= 3,
{
}

/// The unit to read out a rate in.
pub fn rate_unit(bps: Double) -> (r: RateUnit)
    ensures
        r == unit_of(bps),
{
    if bps.bits > 0x7ff0_0000_0000_0000 {
        RateUnit::Plain
    } else if bps.bits >= 0x41cd_cd65_0000_0000 {
        RateUnit::Giga
    } else if bps.bits >= 0x412e_8480_0000_0000 {
        RateUnit::Mega
    } else if bps.bits >= 0x408f_4000_0000_0000 {
        RateUnit::Kilo
    } else {
        RateUnit::Plain
    }
}

impl RateUnit {
    pub open spec fn suffix(self) -> Seq<char> {
        match self {
            RateUnit::Giga => " GB/s"@,
            RateUnit::Mega => " MB/s"@,
            RateUnit::Kilo => " KB/s"@,
            RateUnit::Plain => " B/s"@,
        }
    }

    /// Bytes per second of one unit.
    pub fn scale(self) -> (r: u32)
        ensures
            r == (match self {
                RateUnit::Giga => 1_000_000_000u32,
                RateUnit::Mega => 1_000_000,
                RateUnit::Kilo => 1_000,
                RateUnit::Plain => 1,
            }),
    {
        match self {
            RateUnit::Giga => 1_000_000_000,
            RateUnit::Mega => 1_000_000,
            RateUnit::Kilo => 1_000,
            RateUnit::Plain => 1,
        }
    }

    /// Digits shown behind the decimal point.
    pub fn decimals(self) -> (r: usize)
        ensures
            r == (match self {
                RateUnit::Giga => 2usize,
                RateUnit::Mega => 1,
                RateUnit::Kilo => 1,
                RateUnit::Plain => 0,
            }),
    {
        match self {
            RateUnit::Giga => 2,
            RateUnit::Mega => 1,
            RateUnit::Kilo => 1,
            RateUnit::Plain => 0,
        }
    }
}

/// Format bytes/sec for the HUD and per-band labels. `number` is the rate in its
/// unit, with the decimals of that unit.
pub fn human_rate(bps: Double, number: &str) -> (r: String)
    ensures
        r@ == number@ + unit_of(bps).suffix(),
{
    let mut r = number.to_owned();
    r.append(
        match rate_unit(bps) {
            RateUnit::Giga => " GB/s",
            RateUnit::Mega => " MB/s",
            RateUnit::Kilo => " KB/s",
            RateUnit::Plain => " B/s",
        },
    );
    r
}

/// The text under a band: its label and its rate, on two lines.
pub fn label_text(label: &str, rate: &str) -> (r: String)
    ensures
        r@ == label@ + "\n"@ + rate@,
{
    let mut r = label.to_owned();
    r.append("\n");
    r.append(rate);
    r
}

/// The font size of the labels of `n` bands, in pixels.
pub fn label_font(n: usize) -> (r: u32)
    ensures
        r == if n > 14 {
            10u32
        } else {
            12u32
        },
{
    if n > 14 {
        10
    } else {
        12
    }
}

/// What the header says of the audio.
pub fn audio_label(audio: AudioSnapshot) -> (r: &'static str)
    ensures
        r@ == audio_text(audio),
{
    if audio.enabled {
        "audio on"
    } else if audio.available {
        "audio off"
    } else {
        "audio n/a"
    }
}

pub open spec fn audio_text(audio: AudioSnapshot) -> Seq<char> {
    if audio.enabled {
        "audio on"@
    } else if audio.available {
        "audio off"@
    } else {
        "audio n/a"@
    }
}

/// The header line.
pub open spec fn header_of(
    iface: Seq<char>,
    mode: Mode,
    rate_in: Seq<char>,
    rate_out: Seq<char>,
    audio: AudioSnapshot,
    tone: Seq<char>,
    ui: Ui,
) -> Seq<char> {
    "NETSPECTRUM "@ + iface + " ["@ + mode_name(mode) + "]  in "@ + rate_in + "  out "@ + rate_out
        + "   1-5 modes  B/F "@ + (match ui.visual_style {
        VisualStyle::Bars => "bars"@,
        VisualStyle::Fireworks => "fire"@,
    }) + "  S seg  A "@ + audio_text(audio) + "  T "@ + tone + "  W "@ + (if ui.window_decorated {
        "frame"@
    } else {
        "bare"@
    }) + "  Z "@ + (if ui.transparent_background {
        "bg clr"@
    } else {
        "bg on"@
    }) + "  X "@ + (if ui.transparent_bars {
        "bar clr"@
    } else {
        "bar gry"@
    }) + "  Q quit"@
}

/// The header line starts with the interface, the mode and both rates, inbound
/// first, and goes on with what the keys stand at, each in its place: style, audio,
/// tone, frame, background and bars.
pub proof fn lemma_header_parts(
    iface: Seq<char>,
    mode: Mode,
    rate_in: Seq<char>,
    rate_out: Seq<char>,
    audio: AudioSnapshot,
    tone: Seq<char>,
    ui: Ui,
)
    ensures
        ({
            let head = "NETSPECTRUM "@ + iface + " ["@ + mode_name(mode) + "]  in "@ + rate_in
                + "  out "@ + rate_out;
            let style = if ui.visual_style == VisualStyle::Bars {
                "bars"@
            } else {
                "fire"@
            };
            let sound = if audio.enabled {
                "audio on"@
            } else if audio.available {
                "audio off"@
            } else {
                "audio n/a"@
            };
            let frame = if ui.window_decorated {
                "frame"@
            } else {
                "bare"@
            };
            let back = if ui.transparent_background {
                "bg clr"@
            } else {
                "bg on"@
            };
            let bars = if ui.transparent_bars {
                "bar clr"@
            } else {
                "bar gry"@
            };
            header_of(iface, mode, rate_in, rate_out, audio, tone, ui) == head + ("   1-5 modes  B/F "@
                + style + "  S seg  A "@ + sound + "  T "@ + tone + "  W "@ + frame + "  Z "@ + back
                + "  X "@ + bars + "  Q quit"@)
        }),
{
    let head = "NETSPECTRUM "@ + iface + " ["@ + mode_name(mode) + "]  in "@ + rate_in + "  out "@
        + rate_out;
    let style = if ui.visual_style == VisualStyle::Bars {
        "bars"@
    } else {
        "fire"@
    };
    let sound = audio_text(audio);
    let frame = if ui.window_decorated {
        "frame"@
    } else {
        "bare"@
    };
    let back = if ui.transparent_background {
        "bg clr"@
    } else {
        "bg on"@
    };
    let bars = if ui.transparent_bars {
        "bar clr"@
    } else {
        "bar gry"@
    };
    assert(header_of(iface, mode, rate_in, rate_out, audio, tone, ui) =~= head + ("   1-5 modes  B/F "@
        + style + "  S seg  A "@ + sound + "  T "@ + tone + "  W "@ + frame + "  Z "@ + back + "  X "@
        + bars + "  Q quit"@));
}

/// Build the header line: interface, mode, rates, and what the keys do.
pub fn header_text(
    iface: &str,
    mode: Mode,
    rate_in: &str,
    rate_out: &str,
    audio: AudioSnapshot,
    tone: &str,
    ui: &Ui,
) -> (r: String)
    ensures
        r@ == header_of(iface@, mode, rate_in@, rate_out@, audio, tone@, *ui),
{
    let mut r = "NETSPECTRUM ".to_owned();
    r.append(iface);
    r.append(" [");
    r.append(mode.name());
    r.append("]  in ");
    r.append(rate_in);
    r.append("  out ");
    r.append(rate_out);
    r.append("   1-5 modes  B/F ");
    r.append(visual_style_label(ui.visual_style));
    r.append("  S seg  A ");
    r.append(audio_label(audio));
    r.append("  T ");
    r.append(tone);
    r.append("  W ");
    r.append(window_frame_label(ui.window_decorated));
    r.append("  Z ");
    r.append(
        if ui.transparent_background {
            "bg clr"
        } else {
            "bg on"
        },
    );
    r.append("  X ");
    r.append(
        if ui.transparent_bars {
            "bar clr"
        } else {
            "bar gry"
        },
    );
    r.append("  Q quit");
    r
}

} // verus!
