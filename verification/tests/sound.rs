use netspectrum::audio::{
    audio_attempts, fill_audio_block, fill_silence, helper_next, limit_sample,
    session_environment, sudo_audio_session, target_from_spectrum, worker_next, write_f32_pair, AudioConfig,
    AudioControl, AudioMode, AudioSnapshot, Frame, HelperAction, HelperEvent, HelperFault,
    HelperSearch, Tally, Toggle, WorkerAction, WorkerEvent, BLOCK_BYTES, CENTRE, FRAME_BYTES,
    LOUDEST_SAMPLE, QUIET,
};
use netspectrum::bands::Mode;
use netspectrum::number::Single;
use netspectrum::spectrum::Spectrum;

/// The byte order of the machine.
const BIG_ENDIAN: bool = 1u16.to_ne_bytes()[0] == 0;

fn single(x: f32) -> Single {
    Single::from_bits(x.to_bits()).unwrap()
}

fn f(x: Single) -> f32 {
    f32::from_bits(x.bits)
}

fn tally(spectrum: &Spectrum) -> Tally {
    let steps = spectrum.disp.len().max(1).saturating_sub(1).max(1) as f32;
    let mut total = 0.0f32;
    let mut weighted = 0.0f32;
    for (i, level) in spectrum.disp.iter().enumerate() {
        total += f(*level);
        weighted += f(*level) * i as f32 / steps;
    }
    let mean = if total > 0.0 { weighted / total } else { 0.0 };
    Tally { total: single(total), mean: single(mean) }
}

#[test]
fn non_mirrored_audio_uses_peak_level() {
    let mut spectrum = Spectrum::new(Mode::Protocol, 12);
    spectrum.disp[2] = single(0.25);
    spectrum.disp[9] = single(0.75);

    let target = target_from_spectrum(&spectrum, true, &tally(&spectrum));

    assert!(target.enabled);
    assert_eq!(f(target.mono_level), 0.75);
    assert_eq!(f(target.inbound_level), 0.0);
    assert_eq!(f(target.outbound_level), 0.0);
    assert!(f(target.centroid) > 0.4);
}

#[test]
fn mirrored_audio_keeps_inbound_and_outbound_levels_separate() {
    let mut spectrum = Spectrum::new(Mode::Hybrid, 12);
    spectrum.disp[0] = single(0.2);
    spectrum.disp[1] = single(0.8);
    spectrum.disp[2] = single(0.6);
    spectrum.disp[3] = single(0.3);

    let target = target_from_spectrum(&spectrum, true, &tally(&spectrum));

    assert_eq!(f(target.mono_level), 0.8);
    assert_eq!(f(target.inbound_level), 0.6);
    assert_eq!(f(target.outbound_level), 0.8);
}

/// Frames of the synthesiser with every level of its target at full scale.
fn full_scale_frames(count: usize) -> Vec<Frame> {
    let tone = |phase: &mut f32, hz: f32| {
        *phase = (*phase + hz / 48_000.0).fract();
        (*phase * std::f32::consts::TAU).sin().tanh()
    };
    let (mut amp, mut mono, mut inbound, mut outbound) = (0.0f32, 0.0f32, 0.0f32, 0.0f32);
    let mut centroid = 0.5f32;
    let (mut p, mut q, mut r) = (0.0f32, 0.0f32, 0.0f32);
    (0..count)
        .map(|_| {
            amp += (1.0 - amp) * 0.004;
            mono += (1.0 - mono) * 0.0025;
            inbound += (1.0 - inbound) * 0.0025;
            outbound += (1.0 - outbound) * 0.0025;
            centroid += (1.0 - centroid) * 0.0015;
            let m = tone(&mut p, 130.0 + centroid * 520.0 + mono * 120.0) * mono * 0.11;
            let i = tone(&mut q, 330.0 + inbound * 420.0) * inbound * 0.09;
            let o = tone(&mut r, 82.0 + outbound * 180.0) * outbound * 0.12;
            let left = (m + i * 0.25 - o).clamp(-0.25, 0.25) * amp;
            let right = (m + i - o * 0.25).clamp(-0.25, 0.25) * amp;
            Frame { left: left.to_bits(), right: right.to_bits() }
        })
        .collect()
}

#[test]
fn audio_block_stays_within_safe_range() {
    let mut block = vec![0u8; 64 * FRAME_BYTES];

    fill_audio_block(&mut block, &full_scale_frames(64), BIG_ENDIAN);

    assert_eq!(block.len(), 512);
    for sample in block.chunks_exact(4) {
        let value = f32::from_ne_bytes(sample.try_into().unwrap());
        assert!((-0.25..=0.25).contains(&value));
    }
}

#[test]
fn frames_in_range_are_written_unchanged() {
    let frames = full_scale_frames(5_000);
    let mut block = vec![0u8; 5_000 * FRAME_BYTES];
    fill_audio_block(&mut block, &frames, BIG_ENDIAN);
    for (bytes, frame) in block.chunks_exact(8).zip(&frames) {
        assert_eq!(bytes[..4], f32::from_bits(frame.left).to_ne_bytes());
        assert_eq!(bytes[4..], f32::from_bits(frame.right).to_ne_bytes());
    }
}

#[test]
fn loud_samples_are_limited_in_a_block() {
    let frame = Frame { left: 3.0f32.to_bits(), right: f32::NEG_INFINITY.to_bits() };
    let mut block = vec![0u8; 16];
    fill_audio_block(&mut block, &vec![frame; 2], BIG_ENDIAN);
    for bytes in block.chunks_exact(8) {
        assert_eq!(f32::from_ne_bytes(bytes[..4].try_into().unwrap()), 0.25);
        assert_eq!(f32::from_ne_bytes(bytes[4..].try_into().unwrap()), -0.25);
    }
}

#[test]
fn writes_native_f32_stereo_frames() {
    let mut frame = [0u8; 8];

    write_f32_pair(&mut frame, 0.5f32.to_ne_bytes(), (-0.25f32).to_ne_bytes());

    assert_eq!(f32::from_ne_bytes(frame[..4].try_into().unwrap()), 0.5);
    assert_eq!(f32::from_ne_bytes(frame[4..].try_into().unwrap()), -0.25);
}

#[test]
fn helper_attempts_include_output_targets() {
    let attempts = audio_attempts(Some("alsa_output.pci-0000_02_00.1.hdmi-stereo"));

    assert_eq!(attempts[0].program, "pw-cat");
    assert!(attempts[0]
        .args
        .windows(2)
        .any(|w| w == ["--target", "alsa_output.pci-0000_02_00.1.hdmi-stereo"]));
    assert_eq!(attempts[1].program, "pacat");
    assert!(attempts[1]
        .args
        .windows(2)
        .any(|w| w == ["--device", "alsa_output.pci-0000_02_00.1.hdmi-stereo"]));
}

#[test]
fn helper_attempts_without_output() {
    let attempts = audio_attempts(None);
    assert_eq!(attempts.len(), 2);
    assert_eq!(
        attempts[0].args,
        [
            "--raw", "--playback", "--rate", "48000", "--channels", "2", "--format", "f32",
            "--latency", "20ms", "-"
        ]
    );
    assert_eq!(
        attempts[1].args,
        [
            "--raw", "--playback", "--rate", "48000", "--channels", "2", "--format", "float32le",
            "--client-name", "netspectrum", "--stream-name", "netspectrum audio"
        ]
    );
}

#[test]
fn constants_of_the_target() {
    assert_eq!(f32::from_bits(CENTRE), 0.5);
    assert_eq!(f32::from_bits(QUIET), 0.001);
    assert_eq!(FRAME_BYTES, 2 * std::mem::size_of::<f32>());
    assert_eq!(BLOCK_BYTES, 256 * FRAME_BYTES);
}

#[test]
fn silence_sits_in_the_centre() {
    let spectrum = Spectrum::new(Mode::Protocol, 12);
    let target = target_from_spectrum(&spectrum, false, &tally(&spectrum));
    assert!(!target.enabled);
    assert_eq!(f(target.mono_level), 0.0);
    assert_eq!(f(target.centroid), 0.5);
    let edge = Tally { total: single(0.001), mean: single(0.9) };
    assert_eq!(f(target_from_spectrum(&spectrum, true, &edge).centroid), 0.5);
    let over = Tally { total: single(0.0011), mean: single(0.9) };
    assert_eq!(f(target_from_spectrum(&spectrum, true, &over).centroid), 0.9);
}

#[test]
fn the_directions_of_the_target_stay_apart() {
    let mut a = Spectrum::new(Mode::Hybrid, 12);
    let mut b = Spectrum::new(Mode::Hybrid, 12);
    a.disp[4] = single(0.5);
    b.disp[4] = single(0.5);
    b.disp[7] = single(0.9);
    let (x, y) = (
        target_from_spectrum(&a, true, &tally(&a)),
        target_from_spectrum(&b, true, &tally(&b)),
    );
    assert_eq!(x.inbound_level, y.inbound_level);
    assert_eq!(f(y.outbound_level), 0.9);
    assert_eq!(f(y.centroid), 0.5);
}

#[test]
fn frames_are_written_one_after_another() {
    let frames = vec![
        Frame { left: 0x0102_0304, right: 0x0506_0708 },
        Frame { left: 0x090a_0b0c, right: 0x0d0e_0f10 },
    ];
    let mut block = vec![99u8; 19];
    fill_audio_block(&mut block, &frames, true);
    let mut expected: Vec<u8> = (1..=16).collect();
    expected.extend([99, 99, 99]);
    assert_eq!(block, expected);
    fill_audio_block(&mut block, &frames, false);
    assert_eq!(block[..8], [4, 3, 2, 1, 8, 7, 6, 5]);
    assert_eq!(block[16..], [99, 99, 99]);
}

#[test]
fn borders_between_blocks_are_not_heard() {
    let frames: Vec<Frame> = (0..5u8)
        .map(|k| Frame { left: k as u32 * 0x0101_0101, right: 0x8000_0000 + k as u32 })
        .collect();
    for n in 0..=5usize {
        let mut whole = vec![7u8; 43];
        let mut parts = vec![7u8; 43];
        fill_audio_block(&mut whole, &frames, BIG_ENDIAN);
        fill_audio_block(&mut parts[..8 * n], &frames[..n].to_vec(), BIG_ENDIAN);
        fill_audio_block(&mut parts[8 * n..], &frames[n..].to_vec(), BIG_ENDIAN);
        assert_eq!(whole, parts);
    }
}

#[test]
fn samples_are_limited_to_a_quarter() {
    assert_eq!(f32::from_bits(LOUDEST_SAMPLE), 0.25);
    let limited = |x: f32| f32::from_bits(limit_sample(x.to_bits()));
    for x in [0.0f32, -0.0, 1e-40, 0.1, -0.1, 0.25, -0.25] {
        assert_eq!(limited(x).to_bits(), x.to_bits());
    }
    for x in [0.2500001f32, 0.5, 1.0, 1e30, f32::INFINITY] {
        assert_eq!(limited(x), 0.25);
        assert_eq!(limited(-x), -0.25);
    }
    assert!(limited(f32::NAN).is_nan());
}

#[test]
fn a_pair_leaves_the_rest_of_its_slice() {
    let mut frame = [7u8; 10];
    write_f32_pair(&mut frame, [1; 4], [2; 4]);
    assert_eq!(frame, [1, 1, 1, 1, 2, 2, 2, 2, 7, 7]);
}

#[test]
fn silence_is_all_zero() {
    let mut block = vec![1u8; 33];
    fill_silence(&mut block);
    assert_eq!(block, vec![0u8; 33]);
}

#[test]
fn control_starts_and_stops_a_player() {
    let mut control: AudioControl<u32> = AudioControl::new(AudioConfig { output: None });
    assert_eq!(control.snapshot(true), AudioSnapshot { enabled: false, available: true });
    assert!(control.player().is_none());
    assert!(matches!(control.toggle(), Toggle::Start));
    control.started(Some(5));
    assert_eq!(control.player(), Some(&5));
    assert_eq!(control.snapshot(true), AudioSnapshot { enabled: true, available: true });
    control.update(true);
    assert!(matches!(control.state, AudioMode::On(5)));
    assert!(matches!(control.toggle(), Toggle::Stop(5)));
    assert_eq!(control.snapshot(true), AudioSnapshot { enabled: false, available: true });
}

#[test]
fn control_gives_up_a_sick_player() {
    let mut control: AudioControl<u32> =
        AudioControl::new(AudioConfig { output: Some("hdmi".to_string()) });
    control.started(Some(1));
    assert_eq!(control.snapshot(false), AudioSnapshot { enabled: false, available: false });
    control.update(false);
    assert!(matches!(control.state, AudioMode::Unavailable));
    assert_eq!(control.snapshot(true), AudioSnapshot { enabled: false, available: false });
    assert!(matches!(control.toggle(), Toggle::Start));
    control.started(None);
    assert!(matches!(control.state, AudioMode::Unavailable));
    assert_eq!(control.config.output.as_deref(), Some("hdmi"));
}

#[test]
fn a_search_tries_each_program_once() {
    let mut search = HelperSearch::new(&AudioConfig { output: Some("sink".to_string()) });
    assert_eq!(search.current().unwrap().program, "pw-cat");
    assert!(search.current().unwrap().args.contains(&"sink".to_string()));
    search.reject(&HelperFault::Spawn("not found".to_string()), "");
    assert_eq!(search.current().unwrap().program, "pacat");
    search.reject(
        &HelperFault::Exited("exit status: 1".to_string()),
        " Connection\n\trefused\u{a0}now ",
    );
    assert!(search.current().is_none());
    assert_eq!(
        search.failure(),
        "no supported audio helper found (pw-cat: not found; pacat: pacat exited during startup \
         with exit status: 1 (Connection refused now))"
    );
}

#[test]
fn a_program_is_tried_step_by_step() {
    assert!(matches!(helper_next(HelperEvent::Spawned), HelperAction::TakeStdin));
    assert!(matches!(helper_next(HelperEvent::Stdin(true)), HelperAction::Prime));
    assert!(matches!(helper_next(HelperEvent::Primed(true)), HelperAction::CheckStatus));
    assert!(matches!(helper_next(HelperEvent::StillRunning), HelperAction::Accept));
}

#[test]
fn a_program_that_fails_is_rejected() {
    let spawn = helper_next(HelperEvent::SpawnFailed("not found".to_string()));
    assert!(matches!(spawn, HelperAction::Skip(HelperFault::Spawn(e)) if e == "not found"));
    assert!(matches!(
        helper_next(HelperEvent::Stdin(false)),
        HelperAction::Discard(HelperFault::NoStdin)
    ));
    assert!(matches!(
        helper_next(HelperEvent::Primed(false)),
        HelperAction::Discard(HelperFault::BlockRejected)
    ));
    assert!(matches!(
        helper_next(HelperEvent::StatusUnknown),
        HelperAction::Discard(HelperFault::StatusUnknown)
    ));
    let ended = helper_next(HelperEvent::Ended("signal: 9".to_string()));
    assert!(matches!(ended, HelperAction::Discard(HelperFault::Exited(s)) if s == "signal: 9"));
}

#[test]
fn faults_of_programs_are_described() {
    let text = |fault: HelperFault, stderr: &str| {
        let mut search = HelperSearch::new(&AudioConfig::default());
        search.reject(&fault, stderr);
        search.errors[0].clone()
    };
    assert_eq!(text(HelperFault::NoStdin, " \n"), "pw-cat: pw-cat did not expose stdin");
    assert_eq!(
        text(HelperFault::BlockRejected, "broken pipe"),
        "pw-cat: pw-cat rejected initial audio block (broken pipe)"
    );
    assert_eq!(text(HelperFault::StatusUnknown, ""), "pw-cat: checking pw-cat status");
    assert_eq!(
        text(HelperFault::Exited("signal: 9".to_string()), ""),
        "pw-cat: pw-cat exited during startup with signal: 9"
    );
}

#[test]
fn sessions_need_two_numbers_and_no_root() {
    let session = sudo_audio_session(Some("1000"), Some("100")).unwrap();
    assert_eq!((session.uid, session.gid), (1000, 100));
    assert_eq!(session.runtime_dir, "/run/user/1000");
    assert!(sudo_audio_session(Some("1000"), Some("0")).is_some());
    assert!(sudo_audio_session(Some("0"), Some("0")).is_none());
    assert!(sudo_audio_session(None, Some("100")).is_none());
    assert!(sudo_audio_session(Some("1000"), None).is_none());
    assert!(sudo_audio_session(Some("root"), Some("100")).is_none());
    assert!(sudo_audio_session(Some("1000"), Some("-1")).is_none());
}

#[test]
fn sessions_have_an_environment() {
    let session = sudo_audio_session(Some("1000"), Some("100")).unwrap();
    let env = session_environment(&session);
    assert_eq!(
        env,
        vec![
            ("XDG_RUNTIME_DIR", "/run/user/1000".to_string()),
            ("PULSE_SERVER", "unix:/run/user/1000/pulse/native".to_string()),
            ("DBUS_SESSION_BUS_ADDRESS", "unix:path=/run/user/1000/bus".to_string()),
        ]
    );
}

#[test]
fn steps_of_the_worker() {
    assert_eq!(worker_next(WorkerEvent::Running(true)), WorkerAction::Lock);
    assert_eq!(worker_next(WorkerEvent::Running(false)), WorkerAction::End);
    assert_eq!(worker_next(WorkerEvent::Locked(true)), WorkerAction::Play);
    assert_eq!(worker_next(WorkerEvent::Locked(false)), WorkerAction::Silence);
    assert_eq!(worker_next(WorkerEvent::Written(true)), WorkerAction::Check);
    assert_eq!(worker_next(WorkerEvent::Written(false)), WorkerAction::Fail);
}
