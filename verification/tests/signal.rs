use netspectrum::bands::Mode;
use netspectrum::capture::{Addr, PacketMeta, L4};
use netspectrum::number::{Double, Single};
use netspectrum::spectrum::{
    BarStep, HostTick, Spectrum, Tick, HOST_REFRESH, RATE_FLOOR, STEP_MAX, STEP_MIN,
};

fn single(x: f32) -> Single {
    Single::from_bits((x + 0.0).to_bits()).unwrap()
}

fn double(x: f64) -> Double {
    Double::from_bits((x + 0.0).to_bits()).unwrap()
}

fn f(x: Single) -> f32 {
    f32::from_bits(x.bits)
}

fn d(x: Double) -> f64 {
    f64::from_bits(x.bits)
}

fn packet(len: u32, dport: u16, remote: u32, inbound: bool) -> PacketMeta {
    let here = Addr::V4(0x0a00_0001);
    let there = Addr::V4(remote);
    PacketMeta {
        len,
        src: if inbound { there } else { here },
        dst: if inbound { here } else { there },
        sport: 50_000,
        dport,
        l4: L4::Tcp,
        ethertype: 0x0800,
        inbound,
    }
}

fn name(addr: Addr) -> String {
    match addr {
        Addr::V4(n) => {
            let b = n.to_be_bytes();
            format!("{}.{}.{}.{}", b[0], b[1], b[2], b[3])
        }
        Addr::V6(n) => (0..8)
            .map(|i| format!("{:x}", (n >> (112 - 16 * i)) & 0xffff))
            .collect::<Vec<_>>()
            .join(":"),
    }
}

/// The outside results of a tick, with plain exponential smoothing.
fn results(s: &Spectrum, dt: f32) -> Tick {
    let dt = f(Spectrum::time_step(dt.to_bits()));
    let k = 1.0 - (-dt / 0.5).exp();
    let k_attack = 1.0 - (-dt / 0.035).exp();
    let k_release = 1.0 - (-dt / 0.30).exp();
    let clock = f(s.clock()) + dt;
    let smooth = |old: Double, acc: u64| {
        double(d(old) + (acc as f64 / dt as f64 - d(old)) * k as f64)
    };
    let mut bars: Vec<BarStep> = Vec::new();
    for i in 0..s.disp.len() {
        bars.push(BarStep {
            rate: double(s.acc()[i] as f64 / dt as f64),
            ema: smooth(s.rate_ema()[i], s.acc()[i]),
            norm: single(0.0),
            attacked: single(0.0),
            released: single(0.0),
            fallen: single((f(s.peak[i]) - 0.55 * dt).max(0.0)),
        });
    }
    let decayed = double(d(s.max_rate()) * (-dt as f64 / 12.0).exp());
    let full = (1.0 + d(Spectrum::reference(decayed, &bars))).ln();
    for i in 0..bars.len() {
        let norm = (((1.0 + d(bars[i].rate)).ln() / full) as f32).clamp(0.0, 1.0);
        let level = f(s.disp[i]);
        bars[i].norm = single(norm);
        bars[i].attacked = single((level + (norm - level) * k_attack).max(0.0));
        bars[i].released = single((level + (norm - level) * k_release).max(0.0));
    }
    let left = f(s.host_refresh()) - dt;
    let fade = (-dt as f64 / 30.0).exp();
    Tick {
        clock: single(clock),
        hold_until: single(clock + 1.1),
        rate_in: smooth(s.rate_in, s.acc_totals().0),
        rate_out: smooth(s.rate_out, s.acc_totals().1),
        decayed,
        bars,
        hosts: HostTick {
            left: left.to_bits(),
            decayed: s
                .hosts()
                .iter()
                .map(|h| double((d(h.score) + h.pending as f64) * fade))
                .collect(),
            names: s.hosts().iter().map(|h| name(h.addr)).collect(),
        },
    }
}

/// Whether results are steps of the ballistics from a spectrum.
fn is_step(s: &Spectrum, t: &Tick) -> bool {
    let (acc_in, acc_out) = s.acc_totals();
    let bars = t.bars.iter().enumerate().all(|(i, b)| {
        let (norm, level) = (f(b.norm), f(s.disp[i]));
        norm <= 1.0
            && (s.acc()[i] > 0 || (d(b.rate) == 0.0 && norm == 0.0))
            && (norm <= level || (level <= f(b.attacked) && f(b.attacked) <= norm))
            && (norm > level || (norm <= f(b.released) && f(b.released) <= level))
            && d(b.ema) <= d(s.rate_ema()[i]).max(d(b.rate))
            && f(b.fallen) <= f(s.peak[i])
    });
    bars && (acc_in > 0 || d(t.rate_in) <= d(s.rate_in))
        && (acc_out > 0 || d(t.rate_out) <= d(s.rate_out))
}

fn advance(s: &mut Spectrum, dt: f32) {
    let t = results(s, dt);
    assert!(is_step(s, &t));
    s.tick(&t);
}

#[test]
fn constants_are_what_they_say() {
    assert_eq!(f64::from_bits(RATE_FLOOR), 25_000.0);
    assert_eq!(f32::from_bits(HOST_REFRESH), 0.5);
    assert_eq!(f32::from_bits(STEP_MIN), 0.0005);
    assert_eq!(f32::from_bits(STEP_MAX), 0.25);
}

#[test]
fn a_fresh_spectrum_is_silent() {
    let s = Spectrum::new(Mode::Protocol, 12);
    assert_eq!(s.band_count(), 18);
    assert_eq!(s.bar_count(), 18);
    assert!(!s.mirrored);
    assert!(s.labels_dirty);
    assert!(s.disp.iter().all(|x| x.bits == 0));
    assert_eq!(s.max_rate().bits, RATE_FLOOR);
    assert_eq!(s.labels[4], "DNS");
}

#[test]
fn hybrid_draws_two_bars_per_band() {
    let s = Spectrum::new(Mode::Hybrid, 12);
    assert!(s.mirrored);
    assert_eq!(s.band_count(), 8);
    assert_eq!(s.bar_count(), 16);
    assert_eq!(s.disp.len(), 16);
}

#[test]
fn the_number_of_host_bands_is_brought_into_range() {
    assert_eq!(Spectrum::new(Mode::Hosts, 0).band_count(), 4);
    assert_eq!(Spectrum::new(Mode::Hosts, 12).band_count(), 12);
    assert_eq!(Spectrum::new(Mode::Hosts, 1000).band_count(), 24);
}

#[test]
fn packets_are_counted_in_their_bar() {
    let mut s = Spectrum::new(Mode::Protocol, 12);
    s.ingest(&packet(100, 443, 9, true));
    s.ingest(&packet(40, 443, 9, false));
    s.ingest(&packet(60, 22, 9, true));
    assert_eq!(s.acc()[7], 140);
    assert_eq!(s.acc()[9], 60);
    assert_eq!(s.acc().iter().sum::<u64>(), 200);
    assert_eq!(s.acc_totals(), (160, 40));
    assert!(s.hosts().is_empty());

    s.set_mode(Mode::Ports);
    s.ingest(&packet(100, 443, 9, true));
    assert_eq!(s.acc()[8], 100);
    s.set_mode(Mode::Sizes);
    s.ingest(&packet(1500, 443, 9, true));
    assert_eq!(s.acc()[6], 1500);
}

#[test]
fn directions_have_bars_of_their_own_in_hybrid() {
    let mut s = Spectrum::new(Mode::Hybrid, 12);
    s.ingest(&packet(100, 22, 9, true));
    s.ingest(&packet(30, 22, 9, false));
    assert_eq!((s.acc()[4], s.acc()[5]), (100, 30));
}

#[test]
fn order_of_packets_does_not_matter() {
    let list = [packet(1, 443, 9, true), packet(20, 22, 8, false), packet(300, 80, 7, true)];
    let mut a = Spectrum::new(Mode::Hybrid, 12);
    let mut b = Spectrum::new(Mode::Hybrid, 12);
    for m in &list {
        a.ingest(m);
    }
    for m in list.iter().rev() {
        b.ingest(m);
    }
    assert_eq!(a.acc(), b.acc());
    assert_eq!(a.acc_totals(), b.acc_totals());
}

#[test]
fn a_switch_of_modes_forgets_the_bars_but_not_the_totals() {
    let mut s = Spectrum::new(Mode::Protocol, 12);
    s.ingest(&packet(50_000, 443, 9, true));
    advance(&mut s, 0.1);
    s.ingest(&packet(70, 443, 9, true));
    let (clock, rate_in) = (s.clock(), s.rate_in);
    s.labels_dirty = false;
    s.set_mode(Mode::Sizes);
    assert!(s.labels_dirty);
    assert_eq!(s.labels[7], "jumbo");
    assert!(s.disp.iter().chain(&s.peak).all(|x| x.bits == 0));
    assert!(s.rate_ema().iter().all(|x| x.bits == 0));
    assert!(s.acc().iter().all(|x| *x == 0));
    assert_eq!(s.max_rate().bits, RATE_FLOOR);
    assert_eq!((s.clock(), s.rate_in, s.acc_totals().0), (clock, rate_in, 70));
}

#[test]
fn the_reference_is_the_loudest_of_all() {
    let step = |rate: f64| BarStep {
        rate: double(rate),
        ema: double(0.0),
        norm: single(0.0),
        attacked: single(0.0),
        released: single(0.0),
        fallen: single(0.0),
    };
    let quiet = vec![step(10.0), step(20.0)];
    assert_eq!(Spectrum::reference(double(9.0), &quiet).bits, RATE_FLOOR);
    assert_eq!(d(Spectrum::reference(double(30_000.0), &quiet)), 30_000.0);
    let loud = vec![step(10.0), step(80_000.0), step(20.0)];
    assert_eq!(d(Spectrum::reference(double(30_000.0), &loud)), 80_000.0);
}

#[test]
fn a_tick_clears_the_counts_and_moves_the_clock() {
    let mut s = Spectrum::new(Mode::Protocol, 12);
    s.ingest(&packet(100_000, 443, 9, true));
    s.ingest(&packet(5_000, 22, 9, false));
    advance(&mut s, 0.1);
    assert!(s.acc().iter().all(|x| *x == 0));
    assert_eq!(s.acc_totals(), (0, 0));
    assert_eq!(f(s.clock()), 0.1);
    assert!(d(s.rate_in) > 100_000.0);
    assert!(d(s.rate_out) > 5_000.0);
    assert!((d(s.max_rate()) - 1_000_000.0).abs() < 1.0);
}

#[test]
fn loud_bars_rise_fast_and_fall_slowly() {
    let mut s = Spectrum::new(Mode::Protocol, 12);
    s.ingest(&packet(100_000, 443, 9, true));
    advance(&mut s, 0.1);
    let top = f(s.disp[7]);
    assert!(top > 0.9 && top <= 1.0);
    assert_eq!(s.peak[7], s.disp[7]);
    advance(&mut s, 0.1);
    let next = f(s.disp[7]);
    assert!(next < top && next > 0.5 * top);
    assert_eq!(f(s.peak[7]), top);
}

#[test]
fn levels_stay_in_scale() {
    let mut s = Spectrum::new(Mode::Hybrid, 12);
    for round in 0..200u32 {
        for k in 0..round % 7 {
            s.ingest(&packet(1500 * (k + 1), [22, 80, 443, 53][k as usize % 4], 9, k % 2 == 0));
        }
        advance(&mut s, 0.016 + (round % 3) as f32 * 0.1);
        for x in s.disp.iter().chain(&s.peak) {
            assert!((0.0..=1.0).contains(&f(*x)));
        }
    }
}

#[test]
fn busy_hosts_get_slots_and_labels() {
    let mut s = Spectrum::new(Mode::Hosts, 4);
    s.ingest(&packet(5_000, 443, 0x0808_0808, true));
    s.ingest(&packet(9_000, 443, 0x0101_0101, false));
    s.ingest(&packet(100, 443, 0x0202_0202, true));
    s.labels_dirty = false;
    advance(&mut s, 0.1);
    assert_eq!(s.labels, vec!["1.1.1.1", "8.8.8.8", "-", "-"]);
    assert!(s.labels_dirty);
    assert_eq!(s.hosts().len(), 2);
    assert_eq!(f(s.host_refresh()), 0.5);
    s.ingest(&packet(700, 443, 0x0808_0808, true));
    assert_eq!(s.acc(), &vec![0, 700, 0, 0]);
    assert_eq!(s.hosts()[0].pending, 700);
}

#[test]
fn hosts_are_refreshed_only_when_it_is_due() {
    let mut s = Spectrum::new(Mode::Hosts, 4);
    s.ingest(&packet(5_000, 443, 1, true));
    advance(&mut s, 0.125);
    assert_eq!(s.labels[0], "0.0.0.1");
    s.ingest(&packet(50_000, 443, 2, true));
    advance(&mut s, 0.125);
    assert_eq!(s.labels[1], "-");
    assert_eq!(f(s.host_refresh()), 0.375);
    for _ in 0..3 {
        advance(&mut s, 0.125);
    }
    assert_eq!(s.labels[1], "0.0.0.2");
    assert_eq!(s.labels[0], "0.0.0.1");
}

#[test]
fn a_stale_host_loses_its_slot() {
    let mut s = Spectrum::new(Mode::Hosts, 4);
    s.ingest(&packet(600, 443, 1, true));
    advance(&mut s, 0.1);
    assert_eq!(s.labels[0], "0.0.0.1");
    for _ in 0..60 {
        advance(&mut s, 0.25);
    }
    assert_eq!(s.labels[0], "-");
    assert!(s.hosts().is_empty());
}

#[test]
fn occupants_keep_their_slots_among_the_best_twice_n() {
    let mut s = Spectrum::new(Mode::Hosts, 4);
    for n in 1..=4u32 {
        s.ingest(&packet(10_000 - n * 100, 443, n, true));
    }
    advance(&mut s, 0.1);
    for n in 5..=8u32 {
        s.ingest(&packet(90_000, 443, n, true));
    }
    for _ in 0..6 {
        advance(&mut s, 0.1);
    }
    assert_eq!(s.labels, vec!["0.0.0.1", "0.0.0.2", "0.0.0.3", "0.0.0.4"]);
    s.ingest(&packet(90_000, 443, 9, true));
    for _ in 0..6 {
        advance(&mut s, 0.1);
    }
    assert_eq!(s.labels, vec!["0.0.0.1", "0.0.0.2", "0.0.0.3", "0.0.0.9"]);
}

#[test]
fn long_host_names_are_shortened_in_labels() {
    let mut s = Spectrum::new(Mode::Hosts, 4);
    let mut m = packet(5_000, 443, 1, true);
    m.src = Addr::V6(0x2001_0db8_0001_0002_0003_0004_0005_0006);
    s.ingest(&m);
    advance(&mut s, 0.1);
    assert_eq!(s.labels[0], "2001:db8:1:2:3:\u{2026}");
}

fn step(norm: f32, attacked: f32, released: f32) -> BarStep {
    BarStep {
        rate: double(1.0),
        ema: double(2.0),
        norm: single(norm),
        attacked: single(attacked),
        released: single(released),
        fallen: single(0.25),
    }
}

fn tick_of(clock: f32, hold_until: f32, bars: Vec<BarStep>) -> Tick {
    Tick {
        clock: single(clock),
        hold_until: single(hold_until),
        rate_in: double(3.0),
        rate_out: double(4.0),
        decayed: double(26_000.0),
        bars,
        hosts: HostTick { left: 0, decayed: Vec::new(), names: Vec::new() },
    }
}

#[test]
fn the_time_step_is_bounded() {
    let step = |dt: f32| f(Spectrum::time_step(dt.to_bits()));
    assert_eq!(step(0.0), 0.0005);
    assert_eq!(step(0.0005), 0.0005);
    assert_eq!(step(0.016), 0.016);
    assert_eq!(step(0.25), 0.25);
    assert_eq!(step(3.0), 0.25);
    assert_eq!(step(f32::INFINITY), 0.25);
    assert_eq!(step(-0.0), 0.0005);
    assert_eq!(step(-1.0), 0.0005);
    assert_eq!(step(f32::NEG_INFINITY), 0.0005);
}

#[test]
fn a_stall_counts_as_the_longest_step() {
    let mut long = Spectrum::new(Mode::Protocol, 12);
    let mut short = Spectrum::new(Mode::Protocol, 12);
    for s in [&mut long, &mut short] {
        s.ingest(&packet(9_000, 443, 9, true));
    }
    advance(&mut long, 60.0);
    advance(&mut short, 0.25);
    assert_eq!((&long.disp, &long.peak), (&short.disp, &short.peak));
    assert_eq!((long.clock(), long.rate_in), (short.clock(), short.rate_in));
    assert_eq!(long.rate_ema(), short.rate_ema());
}

#[test]
fn a_tick_picks_attack_release_and_fall_by_comparison() {
    let mut s = Spectrum::new(Mode::Sizes, 12);
    s.tick(&tick_of(0.25, 0.5, vec![step(0.5, 0.5, 0.9); 8]));
    assert!(s.disp.iter().chain(&s.peak).all(|x| f(*x) == 0.5));
    let mut bars = vec![step(0.5, 0.9, 0.5); 8];
    bars[2] = step(0.5, 0.9, 0.4375);
    s.tick(&tick_of(0.375, 2.0, bars));
    assert_eq!((f(s.disp[2]), f(s.peak[2])), (0.4375, 0.5));

    let mut bars = vec![step(0.5, 0.9, 0.5); 8];
    bars[0] = step(0.75, 0.625, 0.1);
    bars[1] = step(0.25, 0.9, 0.375);
    bars[2] = step(0.25, 0.9, 0.375);
    s.tick(&tick_of(1.0, 2.125, bars));
    assert_eq!((f(s.disp[0]), f(s.peak[0])), (0.625, 0.625));
    assert_eq!((f(s.disp[1]), f(s.peak[1])), (0.375, 0.5));
    assert_eq!((f(s.disp[2]), f(s.peak[2])), (0.375, 0.25));
    assert_eq!((f(s.disp[3]), f(s.peak[3])), (0.5, 0.5));
    assert_eq!((d(s.rate_in), d(s.rate_out), d(s.rate_ema()[5])), (3.0, 4.0, 2.0));
    assert_eq!((d(s.max_rate()), f(s.clock())), (26_000.0, 1.0));

    s.tick(&tick_of(2.0625, 9.0, vec![step(0.0, 0.9, 0.125); 8]));
    assert_eq!(f(s.peak[0]), 0.625);
    assert_eq!(f(s.peak[1]), 0.25);
    assert_eq!(f(s.peak[3]), 0.5);
}

#[test]
fn a_cap_hangs_and_then_falls() {
    let mut s = Spectrum::new(Mode::Protocol, 12);
    s.ingest(&packet(100_000, 443, 9, true));
    advance(&mut s, 0.125);
    let top = s.peak[7];
    let raised = f(s.clock());
    while f(s.clock()) + 0.125 <= raised + 1.1 {
        advance(&mut s, 0.125);
        assert_eq!(s.peak[7], top);
        assert!(!s.disp[7].exceeds(s.peak[7]));
    }
    advance(&mut s, 0.125);
    assert!((f(top) - f(s.peak[7]) - 0.55 * 0.125).abs() < 1e-5);
}

#[test]
fn a_tick_on_empty_counts_raises_nothing() {
    let mut s = Spectrum::new(Mode::Hybrid, 12);
    s.ingest(&packet(100_000, 443, 9, true));
    s.ingest(&packet(3_000, 22, 9, false));
    advance(&mut s, 0.1);
    s.labels_dirty = false;
    for _ in 0..40 {
        let disp = s.disp.clone();
        let ema = s.rate_ema().clone();
        let (rate_in, rate_out) = (s.rate_in, s.rate_out);
        advance(&mut s, 0.05);
        assert!(s.disp.iter().zip(&disp).all(|(new, old)| !new.exceeds(*old)));
        assert!(s.rate_ema().iter().zip(&ema).all(|(new, old)| !new.exceeds(*old)));
        assert!(!s.rate_in.exceeds(rate_in) && !s.rate_out.exceeds(rate_out));
        assert!(!s.labels_dirty);
    }
}

#[test]
fn changed_slots_start_from_silence() {
    let mut s = Spectrum::new(Mode::Hosts, 4);
    s.ingest(&packet(50_000, 443, 1, true));
    advance(&mut s, 0.25);
    s.ingest(&packet(50_000, 443, 1, true));
    advance(&mut s, 0.25);
    assert!(f(s.disp[0]) > 0.5);
    s.ingest(&packet(50_000, 443, 2, true));
    advance(&mut s, 0.25);
    assert_eq!(s.labels[1], "0.0.0.2");
    assert!(s.disp.iter().chain(&s.peak).all(|x| x.bits == 0));
    assert!(s.rate_ema().iter().all(|x| x.bits == 0));
}

#[test]
fn a_refresh_is_due_when_no_time_is_left() {
    let t = |left: f32| {
        let mut t = tick_of(1.0, 2.0, vec![step(0.0, 0.0, 0.0); 4]);
        t.hosts.left = left.to_bits();
        t
    };
    let mut s = Spectrum::new(Mode::Hosts, 4);
    s.tick(&t(0.125));
    assert_eq!(f(s.host_refresh()), 0.125);
    for left in [0.0f32, -0.0, -0.25] {
        s.tick(&t(0.125));
        s.tick(&t(left));
        assert_eq!(s.host_refresh().bits, HOST_REFRESH);
    }
}

#[test]
fn rates_of_bands() {
    let mut bars = vec![step(0.0, 0.0, 0.0); 16];
    bars[4].ema = double(3.0);
    bars[5].ema = double(4.0);
    let mut s = Spectrum::new(Mode::Hybrid, 12);
    s.tick(&tick_of(1.0, 2.0, bars));
    assert_eq!(s.band_rate(2), (double(3.0), Some(double(4.0))));
    let mut bars = vec![step(0.0, 0.0, 0.0); 8];
    bars[2].ema = double(7.0);
    let mut s = Spectrum::new(Mode::Sizes, 12);
    s.tick(&tick_of(1.0, 2.0, bars));
    assert_eq!(s.band_rate(2), (double(7.0), None));
}
