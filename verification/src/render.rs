//! The scene: which shapes a spectrum asks for, in which order and colour. Where
//! they fall in pixels is worked out outside.

use crate::bands::band_total;
use crate::number::{Double, Single, ONE};
use crate::spectrum::{Spectrum, SpectrumView};
use vstd::prelude::*;

verus! {

/// The most shapes that are drawn in one frame.
pub const MAX_INSTANCES: usize = 4096;

/// The most particles of one burst.
pub const MAX_FIREWORK_PARTICLES_PER_BAND: usize = 24;

/// The level, 0.002, that a bar must exceed to be drawn.
pub const BAR_VISIBLE: u32 = 0x3b03_126f;

/// The level, 0.004, that a cap must exceed to be drawn.
pub const CAP_VISIBLE: u32 = 0x3b83_126f;

#[derive(Copy, Clone, Debug, PartialEq, Eq, Structural)]
pub enum VisualStyle {
    Bars,
    Fireworks,
}

// ---------------------------------------------------------------- surface

pub open spec fn clamped(x: u32, low: u32, high: u32) -> u32 {
    if x < low {
        low
    } else if x > high {
        high
    } else {
        x
    }
}

/// Clamping gives a number within the limits, and leaves one that is within them.
pub proof fn lemma_clamped(x: u32, low: u32, high: u32)
    requires
        low <= high,
    ensures
        low <= clamped(x, low, high) <= high,
        low <= x <= high ==> clamped(x, low, high) == x,
        x < low ==> clamped(x, low, high) == low,
        x > high ==> clamped(x, low, high) == high,
{
}

/// The extent of a surface for a window: within what the device allows, and
/// never empty.
pub fn surface_extent(width: u32, height: u32, max_texture_dimension_2d: u32) -> (r: (u32, u32))
    ensures
        max_texture_dimension_2d >= 1 ==> r == (
            clamped(width, 1, max_texture_dimension_2d),
            clamped(height, 1, max_texture_dimension_2d),
        ),
        max_texture_dimension_2d == 0 ==> r == (1u32, 1u32),
        r.0 >= 1,
        r.1 >= 1,
{
    let max_extent: u32 = if max_texture_dimension_2d < 1 {
        1
    } else {
        max_texture_dimension_2d
    };
    let w: u32 = if width < 1 {
        1
    } else if width > max_extent {
        max_extent
    } else {
        width
    };
    let h: u32 = if height < 1 {
        1
    } else if height > max_extent {
        max_extent
    } else {
        height
    };
    (w, h)
}

/// How a surface is composited with what is behind it.
#[derive(Copy, Clone, Debug, PartialEq, Eq, Structural)]
pub enum AlphaMode {
    PreMultiplied,
    PostMultiplied,
    Inherit,
    Auto,
    Opaque,
}

/// The composite modes, the preferred one first.
pub open spec fn alpha_preference() -> Seq<AlphaMode> {
    seq![
        AlphaMode::PreMultiplied,
        AlphaMode::PostMultiplied,
        AlphaMode::Inherit,
        AlphaMode::Auto,
        AlphaMode::Opaque,
    ]
}

fn supports(modes: &Vec<AlphaMode>, mode: AlphaMode) -> (r: bool)
    ensures
        r == modes@.contains(mode),
{
    let mut i: usize = 0;
    while i < modes.len()
        invariant
            i <= modes@.len(),
            forall|j: int| 0 <= j < i ==> modes@[j] != mode,
        decreases modes@.len() - i,
    {
        if modes[i] == mode {
            return true;
        }
        i += 1;
    }
    false
}

/// The first supported mode from position `k` of the preference, or opaque if
/// none is supported.
pub open spec fn first_supported(modes: Seq<AlphaMode>, k: int) -> AlphaMode
    decreases 5 - k,
{
    if k >= 5 {
        AlphaMode::Opaque
    } else if modes.contains(alpha_preference()[k]) {
        alpha_preference()[k]
    } else {
        first_supported(modes, k + 1)
    }
}

/// The composite mode is one that is supported, or opaque, and none that lets more
/// through is supported: premultiplied before postmultiplied, inherited, automatic
/// and opaque.
pub proof fn lemma_alpha_choice(modes: Seq<AlphaMode>)
    ensures
        ({
            let choice = first_supported(modes, 0);
            let pre = modes.contains(AlphaMode::PreMultiplied);
            let post = modes.contains(AlphaMode::PostMultiplied);
            let inherit = modes.contains(AlphaMode::Inherit);
            let auto = modes.contains(AlphaMode::Auto);
            &&& modes.contains(choice) || choice == AlphaMode::Opaque
            &&& choice == AlphaMode::PreMultiplied <==> pre
            &&& choice == AlphaMode::PostMultiplied <==> post && !pre
            &&& choice == AlphaMode::Inherit <==> inherit && !pre && !post
            &&& choice == AlphaMode::Auto <==> auto && !pre && !post && !inherit
        }),
{
    reveal_with_fuel(first_supported, 6);
}

/// The preferred composite mode among those supported.
pub fn preferred_alpha_mode(modes: &Vec<AlphaMode>) -> (r: AlphaMode)
    ensures
        r == first_supported(modes@, 0),
{
    proof {
        reveal_with_fuel(first_supported, 6);
    }
    if supports(modes, AlphaMode::PreMultiplied) {
        AlphaMode::PreMultiplied
    } else if supports(modes, AlphaMode::PostMultiplied) {
        AlphaMode::PostMultiplied
    } else if supports(modes, AlphaMode::Inherit) {
        AlphaMode::Inherit
    } else if supports(modes, AlphaMode::Auto) {
        AlphaMode::Auto
    } else {
        AlphaMode::Opaque
    }
}

/// A colour by its parts.
#[derive(Copy, Clone, Debug, PartialEq, Eq, Structural)]
pub struct Color {
    pub r: Double,
    pub g: Double,
    pub b: Double,
    pub a: Double,
}

/// The colour behind the bars: nothing at all, or a dark blue (0.015, 0.022,
/// 0.038) that lets nothing through.
pub fn background_color(transparent: bool) -> (c: Color)
    ensures
        transparent ==> c == (Color {
            r: Double { bits: 0 },
            g: Double { bits: 0 },
            b: Double { bits: 0 },
            a: Double { bits: 0 },
        }),
        !transparent ==> c == (Color {
            r: Double { bits: 0x3f8e_b851_eb85_1eb8 },
            g: Double { bits: 0x3f96_872b_020c_49ba },
            b: Double { bits: 0x3fa3_74bc_6a7e_f9db },
            a: Double { bits: 0x3ff0_0000_0000_0000 },
        }),
{
    if transparent {
        return Color {
            r: Double { bits: 0 },
            g: Double { bits: 0 },
            b: Double { bits: 0 },
            a: Double { bits: 0 },
        };
    }
    Color {
        r: Double { bits: 0x3f8e_b851_eb85_1eb8 },
        g: Double { bits: 0x3f96_872b_020c_49ba },
        b: Double { bits: 0x3fa3_74bc_6a7e_f9db },
        a: Double { bits: 0x3ff0_0000_0000_0000 },
    }
}

pub fn window_frame_label(decorated: bool) -> (r: &'static str)
    ensures
        r@ == if decorated {
            "frame"@
        } else {
            "bare"@
        },
{
    if decorated {
        "frame"
    } else {
        "bare"
    }
}

/// The decoration to ask for when the user toggles it.
pub fn next_window_decoration_request(currently_decorated: bool) -> (r: bool)
    ensures
        r == !currently_decorated,
{
    !currently_decorated
}

pub fn visual_style_label(style: VisualStyle) -> (r: &'static str)
    ensures
        r@ == (match style {
            VisualStyle::Bars => "bars"@,
            VisualStyle::Fireworks => "fire"@,
        }),
{
    match style {
        VisualStyle::Bars => "bars",
        VisualStyle::Fireworks => "fire",
    }
}

// ---------------------------------------------------------------- bars

/// How a shape is filled.
#[derive(Copy, Clone, Debug, PartialEq, Eq, Structural)]
pub enum DrawMode {
    Bar,
    Flat,
    Particle,
}

#[derive(Copy, Clone, Debug, PartialEq, Eq, Structural)]
pub struct Rgba {
    pub r: Single,
    pub g: Single,
    pub b: Single,
    pub a: Single,
}

/// The vertical place of a shape in the slot of its band.
#[derive(Copy, Clone, Debug, PartialEq, Eq, Structural)]
pub enum Extent {
    /// The whole plot.
    Full,
    /// From the bottom up to a level.
    Rise(Single),
    /// A line at a level above the bottom.
    Cap(Single),
    /// A line at the centre.
    Centre,
    /// From the centre up to a level.
    Up(Single),
    /// A line at a level above the centre.
    UpCap(Single),
    /// From the centre down to a level.
    Down(Single),
    /// A line at a level below the centre.
    DownCap(Single),
}

/// A shape to draw.
#[derive(Copy, Clone, Debug, PartialEq, Eq, Structural)]
pub struct Inst {
    pub band: usize,
    pub extent: Extent,
    pub color: Rgba,
    /// The level that the shape shows.
    pub level: Single,
    pub draw: DrawMode,
    pub segmented: bool,
}

pub open spec fn rgba(r: u32, g: u32, b: u32, a: u32) -> Rgba {
    Rgba { r: Single { bits: r }, g: Single { bits: g }, b: Single { bits: b }, a: Single { bits: a } }
}

fn color_of(r: u32, g: u32, b: u32, a: u32) -> (c: Rgba)
    ensures
        c == rgba(r, g, b, a),
{
    Rgba { r: Single { bits: r }, g: Single { bits: g }, b: Single { bits: b }, a: Single { bits: a } }
}

/// White, 0.95 opaque.
pub open spec fn white_color() -> Rgba {
    rgba(ONE, ONE, ONE, 0x3f73_3333)
}

/// (0.62, 0.92, 1), 0.95 opaque.
pub open spec fn inbound_color() -> Rgba {
    rgba(0x3f1e_b852, 0x3f6b_851f, ONE, 0x3f73_3333)
}

/// (1, 0.72, 0.5), 0.95 opaque.
pub open spec fn outbound_color() -> Rgba {
    rgba(ONE, 0x3f38_51ec, 0x3f00_0000, 0x3f73_3333)
}

/// (1, 0.88, 0.35), 0.9 opaque.
pub open spec fn peak_color() -> Rgba {
    rgba(ONE, 0x3f61_47ae, 0x3eb3_3333, 0x3f66_6666)
}

/// White, 0.16 opaque.
pub open spec fn centre_color() -> Rgba {
    rgba(ONE, ONE, ONE, 0x3e23_d70a)
}

/// White, faint (0.045) or not to be seen.
pub open spec fn ghost_color(transparent: bool) -> Rgba {
    rgba(
        ONE,
        ONE,
        ONE,
        if transparent {
            0
        } else {
            0x3d38_51ec
        },
    )
}

/// The full-scale slot behind a bar.
pub open spec fn ghost_shape(band: usize, transparent: bool) -> Inst {
    Inst {
        band,
        extent: Extent::Full,
        color: ghost_color(transparent),
        level: Single { bits: ONE },
        draw: DrawMode::Flat,
        segmented: false,
    }
}

/// The centre line of a mirrored band.
pub open spec fn centre_shape(band: usize) -> Inst {
    Inst {
        band,
        extent: Extent::Centre,
        color: centre_color(),
        level: Single { bits: 0 },
        draw: DrawMode::Flat,
        segmented: false,
    }
}

/// A bar, if its level is visible.
pub open spec fn bar_shape(band: usize, level: Single, extent: Extent, color: Rgba, segments: bool) -> Seq<Inst> {
    if level.bits > BAR_VISIBLE {
        seq![Inst { band, extent, color, level, draw: DrawMode::Bar, segmented: segments }]
    } else {
        Seq::empty()
    }
}

/// A peak cap, if its level is visible.
pub open spec fn cap_shape(band: usize, level: Single, extent: Extent) -> Seq<Inst> {
    if level.bits > CAP_VISIBLE {
        seq![
            Inst { band, extent, color: peak_color(), level, draw: DrawMode::Flat, segmented: false },
        ]
    } else {
        Seq::empty()
    }
}

/// The shapes of one band, back to front.
pub open spec fn band_shapes(v: SpectrumView, band: usize, segments: bool, transparent: bool) -> Seq<Inst> {
    if v.mirrored {
        let up = v.disp[2 * band];
        let up_cap = v.peak[2 * band];
        let down = v.disp[2 * band + 1];
        let down_cap = v.peak[2 * band + 1];
        seq![ghost_shape(band, transparent), centre_shape(band)] + bar_shape(
            band,
            up,
            Extent::Up(up),
            inbound_color(),
            segments,
        ) + cap_shape(band, up_cap, Extent::UpCap(up_cap)) + bar_shape(
            band,
            down,
            Extent::Down(down),
            outbound_color(),
            segments,
        ) + cap_shape(band, down_cap, Extent::DownCap(down_cap))
    } else {
        let level = v.disp[band as int];
        let cap = v.peak[band as int];
        seq![ghost_shape(band, transparent)] + bar_shape(
            band,
            level,
            Extent::Rise(level),
            white_color(),
            segments,
        ) + cap_shape(band, cap, Extent::Cap(cap))
    }
}

/// The shapes of the first `bands` bands, from left to right.
pub open spec fn bar_scene(v: SpectrumView, bands: nat, segments: bool, transparent: bool) -> Seq<Inst>
    decreases bands,
{
    if bands == 0 {
        Seq::empty()
    } else {
        bar_scene(v, (bands - 1) as nat, segments, transparent) + band_shapes(
            v,
            (bands - 1) as usize,
            segments,
            transparent,
        )
    }
}

/// Add a shape unless the frame is full.
fn push_shape(out: &mut Vec<Inst>, shape: Inst)
    ensures
        old(out)@.len() < MAX_INSTANCES ==> final(out)@ == old(out)@.push(shape),
        old(out)@.len() >= MAX_INSTANCES ==> final(out)@ == old(out)@,
{
    if out.len() < MAX_INSTANCES {
        out.push(shape);
    }
}

fn push_bar(out: &mut Vec<Inst>, band: usize, level: Single, extent: Extent, color: Rgba, segments: bool)
    requires
        old(out)@.len() < MAX_INSTANCES,
        level.is_number(),
    ensures
        final(out)@ == old(out)@ + bar_shape(band, level, extent, color, segments),
{
    let ghost start = out@;
    if level.exceeds(Single { bits: BAR_VISIBLE }) {
        push_shape(
            out,
            Inst { band, extent, color, level, draw: DrawMode::Bar, segmented: segments },
        );
    }
    assert(out@ =~= start + bar_shape(band, level, extent, color, segments));
}

fn push_cap(out: &mut Vec<Inst>, band: usize, level: Single, extent: Extent)
    requires
        old(out)@.len() < MAX_INSTANCES,
        level.is_number(),
    ensures
        final(out)@ == old(out)@ + cap_shape(band, level, extent),
{
    let ghost start = out@;
    if level.exceeds(Single { bits: CAP_VISIBLE }) {
        let color = color_of(ONE, 0x3f61_47ae, 0x3eb3_3333, 0x3f66_6666);
        push_shape(
            out,
            Inst { band, extent, color, level, draw: DrawMode::Flat, segmented: false },
        );
    }
    assert(out@ =~= start + cap_shape(band, level, extent));
}

/// A frame of bars never fills up: six shapes at most for each of at most 24
/// bands. Every shape belongs to a band of the spectrum.
pub proof fn lemma_scene_size(v: SpectrumView, bands: nat, segments: bool, transparent: bool)
    requires
        bands <= usize::MAX,
    ensures
        bar_scene(v, bands, segments, transparent).len() <= 6 * bands,
        forall|i: int|
            0 <= i < bar_scene(v, bands, segments, transparent).len() ==> (#[trigger] bar_scene(
                v,
                bands,
                segments,
                transparent,
            )[i]).band < bands,
    decreases bands,
{
    if bands > 0 {
        lemma_scene_size(v, (bands - 1) as nat, segments, transparent);
        let rest = bar_scene(v, (bands - 1) as nat, segments, transparent);
        let last = band_shapes(v, (bands - 1) as usize, segments, transparent);
        let all = bar_scene(v, bands, segments, transparent);
        assert forall|i: int| 0 <= i < all.len() implies (#[trigger] all[i]).band < bands by {
            if i < rest.len() {
                assert(all[i] == rest[i]);
            } else {
                assert(all[i] == last[i - rest.len()]);
            }
        }
    }
}

fn push_ghost(out: &mut Vec<Inst>, band: usize, transparent: bool)
    requires
        old(out)@.len() < MAX_INSTANCES,
    ensures
        final(out)@ == old(out)@.push(ghost_shape(band, transparent)),
{
    let alpha: u32 = if transparent {
        0
    } else {
        0x3d38_51ec
    };
    push_shape(
        out,
        Inst {
            band,
            extent: Extent::Full,
            color: color_of(ONE, ONE, ONE, alpha),
            level: Single { bits: ONE },
            draw: DrawMode::Flat,
            segmented: false,
        },
    );
}

/// Add the shapes of a band that rises from the bottom.
fn push_plain(
    out: &mut Vec<Inst>,
    band: usize,
    level: Single,
    cap: Single,
    segments: bool,
    transparent: bool,
)
    requires
        old(out)@.len() <= MAX_INSTANCES - 3,
        level.is_number(),
        cap.is_number(),
    ensures
        final(out)@ == old(out)@ + (seq![ghost_shape(band, transparent)] + bar_shape(
            band,
            level,
            Extent::Rise(level),
            white_color(),
            segments,
        ) + cap_shape(band, cap, Extent::Cap(cap))),
{
    let ghost start = out@;
    push_ghost(out, band, transparent);
    let white = color_of(ONE, ONE, ONE, 0x3f73_3333);
    push_bar(out, band, level, Extent::Rise(level), white, segments);
    push_cap(out, band, cap, Extent::Cap(cap));
    assert(out@ =~= start + (seq![ghost_shape(band, transparent)] + bar_shape(
        band,
        level,
        Extent::Rise(level),
        white_color(),
        segments,
    ) + cap_shape(band, cap, Extent::Cap(cap))));
}

/// Add the shapes of a mirrored band: inbound rises from the centre line,
/// outbound falls.
fn push_mirrored(
    out: &mut Vec<Inst>,
    band: usize,
    up: Single,
    up_cap: Single,
    down: Single,
    down_cap: Single,
    segments: bool,
    transparent: bool,
)
    requires
        old(out)@.len() <= MAX_INSTANCES - 6,
        up.is_number(),
        up_cap.is_number(),
        down.is_number(),
        down_cap.is_number(),
    ensures
        final(out)@ == old(out)@ + (seq![ghost_shape(band, transparent), centre_shape(band)]
            + bar_shape(band, up, Extent::Up(up), inbound_color(), segments) + cap_shape(
            band,
            up_cap,
            Extent::UpCap(up_cap),
        ) + bar_shape(band, down, Extent::Down(down), outbound_color(), segments) + cap_shape(
            band,
            down_cap,
            Extent::DownCap(down_cap),
        )),
{
    let ghost start = out@;
    push_ghost(out, band, transparent);
    let shape = Inst {
        band,
        extent: Extent::Centre,
        color: color_of(ONE, ONE, ONE, 0x3e23_d70a),
        level: Single { bits: 0 },
        draw: DrawMode::Flat,
        segmented: false,
    };
    push_shape(out, shape);
    let ghost head = seq![ghost_shape(band, transparent), centre_shape(band)];
    assert(out@ =~= start + head);
    let tint_in = color_of(0x3f1e_b852, 0x3f6b_851f, ONE, 0x3f73_3333);
    let ghost a = bar_shape(band, up, Extent::Up(up), inbound_color(), segments);
    push_bar(out, band, up, Extent::Up(up), tint_in, segments);
    let ghost b = cap_shape(band, up_cap, Extent::UpCap(up_cap));
    push_cap(out, band, up_cap, Extent::UpCap(up_cap));
    assert(out@ == start + head + a + b);
    let tint_out = color_of(ONE, 0x3f38_51ec, 0x3f00_0000, 0x3f73_3333);
    let ghost c = bar_shape(band, down, Extent::Down(down), outbound_color(), segments);
    push_bar(out, band, down, Extent::Down(down), tint_out, segments);
    let ghost d = cap_shape(band, down_cap, Extent::DownCap(down_cap));
    push_cap(out, band, down_cap, Extent::DownCap(down_cap));
    assert(start + head + a + b + c + d =~= start + (head + a + b + c + d));
}

/// Build the shapes of a spectrum drawn as bars. `segments` cuts the bars into
/// segments; `transparent_bars` hides the slots behind them.
pub fn build_instances(out: &mut Vec<Inst>, spectrum: &Spectrum, segments: bool, transparent_bars: bool)
    requires
        spectrum@.wf(),
    ensures
        final(out)@ == bar_scene(
            spectrum@,
            band_total(spectrum@.mode, spectrum@.n_hosts),
            segments,
            transparent_bars,
        ),
        final(out)@.len() <= MAX_INSTANCES,
{
    out.clear();
    let ghost v = spectrum@;
    let n = spectrum.band_count();
    let mut band: usize = 0;
    while band < n
        invariant
            band <= n <= 24,
            v == spectrum@,
            v.wf(),
            n == band_total(v.mode, v.n_hosts),
            out@ == bar_scene(v, band as nat, segments, transparent_bars),
        decreases n - band,
    {
        proof {
            lemma_scene_size(v, band as nat, segments, transparent_bars);
        }
        if spectrum.mirrored {
            push_mirrored(
                out,
                band,
                spectrum.disp[band * 2],
                spectrum.peak[band * 2],
                spectrum.disp[band * 2 + 1],
                spectrum.peak[band * 2 + 1],
                segments,
                transparent_bars,
            );
        } else {
            push_plain(
                out,
                band,
                spectrum.disp[band],
                spectrum.peak[band],
                segments,
                transparent_bars,
            );
        }
        band += 1;
    }
    proof {
        lemma_scene_size(v, n as nat, segments, transparent_bars);
    }
}

/// The layer of a shape in its band, from back to front: slot, centre line, bar,
/// cap, and for a mirrored band the falling bar and its cap.
pub open spec fn layer(extent: Extent) -> int {
    match extent {
        Extent::Full => 0,
        Extent::Centre => 1,
        Extent::Rise(_) | Extent::Up(_) => 2,
        Extent::Cap(_) | Extent::UpCap(_) => 3,
        Extent::Down(_) => 4,
        Extent::DownCap(_) => 5,
    }
}

/// Every band is drawn: its slot, its bar if its display value exceeds 0.002, and
/// its cap if its peak exceeds 0.004; in a mirrored spectrum with a centre line,
/// inbound above it and outbound below.
pub proof fn lemma_scene_shows(v: SpectrumView, bands: nat, segments: bool, transparent: bool, band: usize)
    requires
        v.wf(),
        bands <= band_total(v.mode, v.n_hosts),
        band < bands,
    ensures
        ({
            let scene = bar_scene(v, bands, segments, transparent);
            let bar = |level: Single, extent: Extent, color: Rgba|
                Inst { band, extent, color, level, draw: DrawMode::Bar, segmented: segments };
            let flat = |level: Single, extent: Extent, color: Rgba|
                Inst { band, extent, color, level, draw: DrawMode::Flat, segmented: false };
            let one = Single { bits: ONE };
            let zero = Single { bits: 0 };
            &&& scene.contains(flat(one, Extent::Full, ghost_color(transparent)))
            &&& !v.mirrored ==> {
                let level = v.disp[band as int];
                let cap = v.peak[band as int];
                &&& level.bits > 0x3b03_126f ==> scene.contains(
                    bar(level, Extent::Rise(level), white_color()),
                )
                &&& cap.bits > 0x3b83_126f ==> scene.contains(flat(cap, Extent::Cap(cap), peak_color()))
            }
            &&& v.mirrored ==> {
                let up = v.disp[2 * band];
                let up_cap = v.peak[2 * band];
                let down = v.disp[2 * band + 1];
                let down_cap = v.peak[2 * band + 1];
                &&& scene.contains(flat(zero, Extent::Centre, centre_color()))
                &&& up.bits > 0x3b03_126f ==> scene.contains(bar(up, Extent::Up(up), inbound_color()))
                &&& up_cap.bits > 0x3b83_126f ==> scene.contains(
                    flat(up_cap, Extent::UpCap(up_cap), peak_color()),
                )
                &&& down.bits > 0x3b03_126f ==> scene.contains(
                    bar(down, Extent::Down(down), outbound_color()),
                )
                &&& down_cap.bits > 0x3b83_126f ==> scene.contains(
                    flat(down_cap, Extent::DownCap(down_cap), peak_color()),
                )
            }
        }),
    decreases bands,
{
    let last = band_shapes(v, (bands - 1) as usize, segments, transparent);
    let rest = bar_scene(v, (bands - 1) as nat, segments, transparent);
    let scene = bar_scene(v, bands, segments, transparent);
    assert forall|shape: Inst| #[trigger] rest.contains(shape) implies scene.contains(shape) by {
        let k = choose|k: int| 0 <= k < rest.len() && rest[k] == shape;
        assert(scene[k] == shape);
    }
    assert forall|shape: Inst| #[trigger] last.contains(shape) implies scene.contains(shape) by {
        let k = choose|k: int| 0 <= k < last.len() && last[k] == shape;
        assert(scene[rest.len() + k] == shape);
    }
    if band == bands - 1 {
        assert(last[0] == ghost_shape(band, transparent));
        assert(last.contains(ghost_shape(band, transparent)));
        if v.mirrored {
            let up = v.disp[2 * band];
            let up_cap = v.peak[2 * band];
            let down = v.disp[2 * band + 1];
            let down_cap = v.peak[2 * band + 1];
            let a = bar_shape(band, up, Extent::Up(up), inbound_color(), segments);
            let b = cap_shape(band, up_cap, Extent::UpCap(up_cap));
            let c = bar_shape(band, down, Extent::Down(down), outbound_color(), segments);
            let d = cap_shape(band, down_cap, Extent::DownCap(down_cap));
            assert(last[1] == centre_shape(band));
            assert(last.contains(centre_shape(band)));
            if a.len() > 0 {
                assert(last[2] == a[0]);
                assert(last.contains(a[0]));
            }
            if b.len() > 0 {
                assert(last[2 + a.len() as int] == b[0]);
                assert(last.contains(b[0]));
            }
            if c.len() > 0 {
                assert(last[2 + (a.len() + b.len()) as int] == c[0]);
                assert(last.contains(c[0]));
            }
            if d.len() > 0 {
                assert(last[2 + (a.len() + b.len() + c.len()) as int] == d[0]);
                assert(last.contains(d[0]));
            }
        } else {
            let level = v.disp[band as int];
            let cap = v.peak[band as int];
            let a = bar_shape(band, level, Extent::Rise(level), white_color(), segments);
            let b = cap_shape(band, cap, Extent::Cap(cap));
            if a.len() > 0 {
                assert(last[1] == a[0]);
                assert(last.contains(a[0]));
            }
            if b.len() > 0 {
                assert(last[1 + a.len() as int] == b[0]);
                assert(last.contains(b[0]));
            }
        }
    } else {
        lemma_scene_shows(v, (bands - 1) as nat, segments, transparent, band);
    }
}

/// Whether a shape shows what its band holds: a bar the display value, a cap the
/// peak, of the direction it points in, and above the level that makes it visible.
pub open spec fn is_true_to(v: SpectrumView, segments: bool, shape: Inst) -> bool {
    let band = shape.band as int;
    &&& match shape.extent {
        Extent::Full => shape.level.bits == ONE && shape.draw == DrawMode::Flat,
        Extent::Centre => v.mirrored && shape.level.bits == 0 && shape.draw == DrawMode::Flat,
        Extent::Rise(level) => !v.mirrored && level == v.disp[band] && shape.level == level
            && level.bits > 0x3b03_126f && shape.draw == DrawMode::Bar,
        Extent::Cap(level) => !v.mirrored && level == v.peak[band] && shape.level == level
            && level.bits > 0x3b83_126f && shape.draw == DrawMode::Flat,
        Extent::Up(level) => v.mirrored && level == v.disp[2 * band] && shape.level == level
            && level.bits > 0x3b03_126f && shape.draw == DrawMode::Bar,
        Extent::UpCap(level) => v.mirrored && level == v.peak[2 * band] && shape.level == level
            && level.bits > 0x3b83_126f && shape.draw == DrawMode::Flat,
        Extent::Down(level) => v.mirrored && level == v.disp[2 * band + 1] && shape.level == level
            && level.bits > 0x3b03_126f && shape.draw == DrawMode::Bar,
        Extent::DownCap(level) => v.mirrored && level == v.peak[2 * band + 1] && shape.level == level
            && level.bits > 0x3b83_126f && shape.draw == DrawMode::Flat,
    }
    &&& shape.segmented <==> segments && shape.draw == DrawMode::Bar
}

/// The pieces of a band in order: each has its own layer, and is true to the band.
proof fn lemma_band_pieces(
    v: SpectrumView,
    band: usize,
    segments: bool,
    transparent: bool,
) -> (pieces: Seq<Seq<Inst>>)
    ensures
        band_shapes(v, band, segments, transparent) == if v.mirrored {
            pieces[0] + pieces[1] + pieces[2] + pieces[3] + pieces[4]
        } else {
            pieces[0] + pieces[2] + pieces[3]
        },
        pieces[0].len() == if v.mirrored {
            2int
        } else {
            1int
        },
        pieces[1].len() <= 1,
        pieces[2].len() <= 1,
        pieces[3].len() <= 1,
        pieces[4].len() <= 1,
        forall|p: int, k: int|
            0 <= p < 5 && 0 <= k < pieces[p].len() && (v.mirrored || p == 0 || p == 2 || p == 3)
                ==> is_true_to(v, segments, #[trigger] pieces[p][k]) && pieces[p][k].band == band,
        forall|k: int| 0 <= k < pieces[0].len() ==> layer((#[trigger] pieces[0][k]).extent) == k,
        v.mirrored && pieces[1].len() == 1 ==> layer(pieces[1][0].extent) == 2,
        v.mirrored && pieces[2].len() == 1 ==> layer(pieces[2][0].extent) == 3,
        v.mirrored && pieces[3].len() == 1 ==> layer(pieces[3][0].extent) == 4,
        v.mirrored && pieces[4].len() == 1 ==> layer(pieces[4][0].extent) == 5,
        !v.mirrored && pieces[2].len() == 1 ==> layer(pieces[2][0].extent) == 2,
        !v.mirrored && pieces[3].len() == 1 ==> layer(pieces[3][0].extent) == 3,
{
    if v.mirrored {
        let up = v.disp[2 * band];
        let up_cap = v.peak[2 * band];
        let down = v.disp[2 * band + 1];
        let down_cap = v.peak[2 * band + 1];
        seq![
            seq![ghost_shape(band, transparent), centre_shape(band)],
            bar_shape(band, up, Extent::Up(up), inbound_color(), segments),
            cap_shape(band, up_cap, Extent::UpCap(up_cap)),
            bar_shape(band, down, Extent::Down(down), outbound_color(), segments),
            cap_shape(band, down_cap, Extent::DownCap(down_cap)),
        ]
    } else {
        let level = v.disp[band as int];
        let cap = v.peak[band as int];
        seq![
            seq![ghost_shape(band, transparent)],
            Seq::empty(),
            bar_shape(band, level, Extent::Rise(level), white_color(), segments),
            cap_shape(band, cap, Extent::Cap(cap)),
            Seq::empty(),
        ]
    }
}

proof fn lemma_band_shapes(v: SpectrumView, band: usize, segments: bool, transparent: bool)
    ensures
        forall|k: int|
            0 <= k < band_shapes(v, band, segments, transparent).len() ==> is_true_to(
                v,
                segments,
                #[trigger] band_shapes(v, band, segments, transparent)[k],
            ) && band_shapes(v, band, segments, transparent)[k].band == band,
        forall|i: int, j: int|
            0 <= i < j < band_shapes(v, band, segments, transparent).len() ==> layer(
                (#[trigger] band_shapes(v, band, segments, transparent)[i]).extent,
            ) < layer((#[trigger] band_shapes(v, band, segments, transparent)[j]).extent),
{
    let pieces = lemma_band_pieces(v, band, segments, transparent);
    let all = band_shapes(v, band, segments, transparent);
    let h = pieces[0];
    let a = pieces[1];
    let b = pieces[2];
    let c = pieces[3];
    let d = pieces[4];
    if v.mirrored {
        assert(forall|k: int|
            0 <= k < all.len() ==> #[trigger] all[k] == if k < 2 {
                h[k]
            } else if k < 2 + a.len() {
                a[k - 2]
            } else if k < 2 + a.len() + b.len() {
                b[k - 2 - a.len()]
            } else if k < 2 + a.len() + b.len() + c.len() {
                c[k - 2 - a.len() - b.len()]
            } else {
                d[k - 2 - a.len() - b.len() - c.len()]
            });
    } else {
        assert(forall|k: int|
            0 <= k < all.len() ==> #[trigger] all[k] == if k < 1 {
                h[k]
            } else if k < 1 + b.len() {
                b[k - 1]
            } else {
                c[k - 1 - b.len()]
            });
    }
}

/// Nothing else is drawn: every shape shows what its own band holds.
pub proof fn lemma_scene_shapes(v: SpectrumView, bands: nat, segments: bool, transparent: bool, i: int)
    requires
        bands <= usize::MAX,
        0 <= i < bar_scene(v, bands, segments, transparent).len(),
    ensures
        bar_scene(v, bands, segments, transparent)[i].band < bands,
        is_true_to(v, segments, bar_scene(v, bands, segments, transparent)[i]),
    decreases bands,
{
    let rest = bar_scene(v, (bands - 1) as nat, segments, transparent);
    let scene = bar_scene(v, bands, segments, transparent);
    if i < rest.len() {
        lemma_scene_shapes(v, (bands - 1) as nat, segments, transparent, i);
        assert(scene[i] == rest[i]);
    } else {
        let last = band_shapes(v, (bands - 1) as usize, segments, transparent);
        lemma_band_shapes(v, (bands - 1) as usize, segments, transparent);
        assert(scene[i] == last[i - rest.len()]);
    }
}

/// Bands are drawn from left to right and each from back to front, and no shape is
/// drawn twice.
pub proof fn lemma_scene_order(
    v: SpectrumView,
    bands: nat,
    segments: bool,
    transparent: bool,
    i: int,
    j: int,
)
    requires
        bands <= usize::MAX,
        0 <= i < j < bar_scene(v, bands, segments, transparent).len(),
    ensures
        ({
            let a = bar_scene(v, bands, segments, transparent)[i];
            let b = bar_scene(v, bands, segments, transparent)[j];
            a.band < b.band || (a.band == b.band && layer(a.extent) < layer(b.extent))
        }),
    decreases bands,
{
    let rest = bar_scene(v, (bands - 1) as nat, segments, transparent);
    let scene = bar_scene(v, bands, segments, transparent);
    let last = band_shapes(v, (bands - 1) as usize, segments, transparent);
    lemma_band_shapes(v, (bands - 1) as usize, segments, transparent);
    if j < rest.len() {
        lemma_scene_order(v, (bands - 1) as nat, segments, transparent, i, j);
        assert(scene[i] == rest[i] && scene[j] == rest[j]);
    } else if i < rest.len() {
        lemma_scene_size(v, (bands - 1) as nat, segments, transparent);
        assert(scene[i] == rest[i] && scene[j] == last[j - rest.len()]);
        assert(rest[i].band < bands - 1);
        assert(last[j - rest.len()].band == bands - 1);
    } else {
        assert(scene[i] == last[i - rest.len()] && scene[j] == last[j - rest.len()]);
        assert(last[i - rest.len()].band == bands - 1);
        assert(last[j - rest.len()].band == bands - 1);
    }
}

/// A silent spectrum shows nothing but its slots and centre lines. Without
/// centre lines and with transparent slots there is nothing to be seen at all.
pub proof fn lemma_silence_is_dark(v: SpectrumView, bands: nat, segments: bool, transparent: bool)
    requires
        v.wf(),
        bands <= band_total(v.mode, v.n_hosts),
        v.disp == crate::spectrum::silence(v.disp.len()),
        v.peak == crate::spectrum::silence(v.peak.len()),
    ensures
        forall|i: int|
            0 <= i < bar_scene(v, bands, segments, transparent).len() ==> {
                let shape = #[trigger] bar_scene(v, bands, segments, transparent)[i];
                &&& shape == ghost_shape(shape.band, transparent) || shape == centre_shape(shape.band)
                &&& transparent && !v.mirrored ==> shape.color.a.bits == 0
                &&& !transparent ==> shape.color.a.bits > 0
            },
    decreases bands,
{
    if bands > 0 {
        lemma_silence_is_dark(v, (bands - 1) as nat, segments, transparent);
        let rest = bar_scene(v, (bands - 1) as nat, segments, transparent);
        let last = band_shapes(v, (bands - 1) as usize, segments, transparent);
        let all = bar_scene(v, bands, segments, transparent);
        assert forall|i: int| 0 <= i < all.len() implies ({
            let shape = #[trigger] all[i];
            &&& shape == ghost_shape(shape.band, transparent) || shape == centre_shape(shape.band)
            &&& transparent && !v.mirrored ==> shape.color.a.bits == 0
            &&& !transparent ==> shape.color.a.bits > 0
        }) by {
            if i < rest.len() {
                assert(all[i] == rest[i]);
            } else {
                assert(all[i] == last[i - rest.len()]);
            }
        }
    }
}

} // verus!
