//! Audio: the on/off control, the playback helpers and their environment, the
//! steps of the worker, and what the spectrum asks of the synthesiser.

use crate::capture::be_value;
use crate::number::{is_nan, Single};
use crate::spectrum::{all_levels, Spectrum};
use crate::text::{
    decimal, decimal_text, join, joined, number_in, parse_u32, squeeze, texts, words,
};
use vstd::prelude::*;
use vstd::string::*;

verus! {

/// Bytes of a stereo frame: two samples of four bytes.
pub const FRAME_BYTES: usize = 8;

/// Bytes of a block of 256 frames.
pub const BLOCK_BYTES: usize = 2048;

#[derive(Clone, Debug, Default)]
pub struct AudioConfig {
    pub output: Option<String>,
}

#[derive(Copy, Clone, Debug, PartialEq, Eq, Structural)]
pub struct AudioSnapshot {
    pub enabled: bool,
    pub available: bool,
}

// ---------------------------------------------------------------- control

/// Whether audio is off, played by a running player, or could not be had.
pub enum AudioMode<A> {
    Off,
    On(A),
    Unavailable,
}

/// The on/off control around a player of type `A`.
pub struct AudioControl<A> {
    pub config: AudioConfig,
    pub state: AudioMode<A>,
}

/// What a toggle asks for: to start a player, or to drop the one that ran.
pub enum Toggle<A> {
    Start,
    Stop(A),
}

/// What is shown of a control whose player, if it runs, is `healthy`.
pub open spec fn snapshot_of<A>(state: AudioMode<A>, healthy: bool) -> AudioSnapshot {
    match state {
        AudioMode::Off => AudioSnapshot { enabled: false, available: true },
        AudioMode::On(_) => AudioSnapshot { enabled: healthy, available: healthy },
        AudioMode::Unavailable => AudioSnapshot { enabled: false, available: false },
    }
}

/// The state after the attempt to start a player.
pub open spec fn after_start<A>(audio: Option<A>) -> AudioMode<A> {
    match audio {
        Some(a) => AudioMode::On(a),
        None => AudioMode::Unavailable,
    }
}

/// What a toggle in this state asks for.
pub open spec fn toggle_of<A>(state: AudioMode<A>) -> Toggle<A> {
    match state {
        AudioMode::Off | AudioMode::Unavailable => Toggle::Start,
        AudioMode::On(a) => Toggle::Stop(a),
    }
}

/// The state after a look at the player's health.
pub open spec fn after_check<A>(state: AudioMode<A>, healthy: bool) -> AudioMode<A> {
    if state is On && !healthy {
        AudioMode::Unavailable
    } else {
        state
    }
}

impl<A> AudioControl<A> {
    pub fn new(config: AudioConfig) -> (r: AudioControl<A>)
        ensures
            r.config == config,
            r.state is Off,
    {
        AudioControl { config, state: AudioMode::Off }
    }

    /// Switch audio off, or ask for a player. A player that is asked for is
    /// reported with `started`.
    pub fn toggle(&mut self) -> (r: Toggle<A>)
        ensures
            r == toggle_of(old(self).state),
            final(self).state is Off,
            final(self).config == old(self).config,
    {
        let mut state = AudioMode::Off;
        std::mem::swap(&mut self.state, &mut state);
        match state {
            AudioMode::Off => Toggle::Start,
            AudioMode::Unavailable => Toggle::Start,
            AudioMode::On(audio) => Toggle::Stop(audio),
        }
    }

    /// Report the player that was asked for, or that there is none.
    pub fn started(&mut self, audio: Option<A>)
        ensures
            final(self).state == after_start(audio),
            final(self).config == old(self).config,
    {
        self.state = match audio {
            Some(a) => AudioMode::On(a),
            None => AudioMode::Unavailable,
        };
    }

    /// The player that is running.
    pub fn player(&self) -> (r: Option<&A>)
        ensures
            match self.state {
                AudioMode::On(a) => r == Some(&a),
                _ => r is None,
            },
    {
        match &self.state {
            AudioMode::On(a) => Some(a),
            _ => None,
        }
    }

    /// Give up a player that is no longer healthy.
    pub fn update(&mut self, healthy: bool)
        ensures
            final(self).state == after_check(old(self).state, healthy),
            final(self).config == old(self).config,
    {
        let running = match &self.state {
            AudioMode::On(_) => true,
            _ => false,
        };
        if running && !healthy {
            self.state = AudioMode::Unavailable;
        }
    }

    pub fn snapshot(&self, healthy: bool) -> (r: AudioSnapshot)
        ensures
            r == snapshot_of(self.state, healthy),
    {
        match &self.state {
            AudioMode::Off => AudioSnapshot { enabled: false, available: true },
            AudioMode::On(_) => AudioSnapshot { enabled: healthy, available: healthy },
            AudioMode::Unavailable => AudioSnapshot { enabled: false, available: false },
        }
    }
}

/// A player that was started is handed back by the next toggle; audio that is
/// not running is always started by it; and audio is shown as enabled only
/// while it is available.
pub proof fn lemma_toggle_pairs<A>(state: AudioMode<A>, audio: A, healthy: bool)
    ensures
        toggle_of(after_start(Some(audio))) == Toggle::Stop(audio),
        toggle_of(after_start(None::<A>)) == Toggle::<A>::Start,
        toggle_of(after_check(state, false)) == Toggle::<A>::Start,
        snapshot_of(state, healthy).enabled ==> snapshot_of(state, healthy).available && state is On,
{
}

/// What is shown of each state: audio that is off could be had, a player is on and
/// available while it is healthy, and audio that could not be had is neither. A
/// start leads to the player it gave or to none, and only a running player that is
/// no longer healthy is given up.
pub proof fn lemma_audio_states<A>(audio: A, healthy: bool)
    ensures
        !snapshot_of(AudioMode::<A>::Off, healthy).enabled,
        snapshot_of(AudioMode::<A>::Off, healthy).available,
        snapshot_of(AudioMode::On(audio), healthy).enabled == healthy,
        snapshot_of(AudioMode::On(audio), healthy).available == healthy,
        !snapshot_of(AudioMode::<A>::Unavailable, healthy).enabled,
        !snapshot_of(AudioMode::<A>::Unavailable, healthy).available,
        after_start(Some(audio)) == AudioMode::On(audio),
        after_start(None::<A>) is Unavailable,
        after_check(AudioMode::On(audio), true) == AudioMode::On(audio),
        after_check(AudioMode::On(audio), false) is Unavailable,
        after_check(AudioMode::<A>::Off, healthy) is Off,
        after_check(AudioMode::<A>::Unavailable, healthy) is Unavailable,
        toggle_of(AudioMode::<A>::Off) is Start,
        toggle_of(AudioMode::<A>::Unavailable) is Start,
{
}

// ---------------------------------------------------------------- helpers

/// A playback program and its arguments.
#[derive(Clone, Debug)]
pub struct AudioAttempt {
    pub program: &'static str,
    pub args: Vec<String>,
}

/// The arguments of `pw-cat`, which plays standard input.
pub open spec fn pw_args(output: Option<Seq<char>>) -> Seq<Seq<char>> {
    seq![
        "--raw"@,
        "--playback"@,
        "--rate"@,
        "48000"@,
        "--channels"@,
        "2"@,
        "--format"@,
        "f32"@,
        "--latency"@,
        "20ms"@,
    ] + (match output {
        Some(o) => seq!["--target"@, o],
        None => Seq::empty(),
    }) + seq!["-"@]
}

/// The arguments of `pacat`.
pub open spec fn pa_args(output: Option<Seq<char>>) -> Seq<Seq<char>> {
    seq![
        "--raw"@,
        "--playback"@,
        "--rate"@,
        "48000"@,
        "--channels"@,
        "2"@,
        "--format"@,
        "float32le"@,
        "--client-name"@,
        "netspectrum"@,
        "--stream-name"@,
        "netspectrum audio"@,
    ] + (match output {
        Some(o) => seq!["--device"@, o],
        None => Seq::empty(),
    })
}

/// The text of an optional string.
pub open spec fn text_of(s: Option<&str>) -> Option<Seq<char>> {
    match s {
        Some(t) => Some(t@),
        None => None,
    }
}

/// An output target changes the arguments in one place only: `pw-cat` gets it
/// right before the last argument, which is always standard input, and `pacat` at
/// the end. Everything else stays as it is without a target.
pub proof fn lemma_output_arguments(output: Seq<char>)
    ensures
        ({
            let plain = pw_args(None);
            let with = pw_args(Some(output));
            let n = plain.len() as int;
            &&& n == 11 && plain[n - 1] == "-"@
            &&& with.len() == n + 2
            &&& with.take(n - 1) == plain.take(n - 1)
            &&& with[n - 1] == "--target"@ && with[n] == output && with[n + 1] == "-"@
        }),
        ({
            let plain = pa_args(None);
            let with = pa_args(Some(output));
            let n = plain.len() as int;
            &&& n == 12
            &&& with.len() == n + 2
            &&& with.take(n) == plain
            &&& with[n] == "--device"@ && with[n + 1] == output
        }),
{
    assert(pw_args(Some(output)).take(10) =~= pw_args(None).take(10));
    assert(pa_args(Some(output)).take(12) =~= pa_args(None));
}

fn push_all(list: &mut Vec<String>, words: Vec<&str>)
    ensures
        texts(final(list)@) == texts(old(list)@) + words@.map_values(|w: &str| w@),
{
    let ghost start = texts(list@);
    let ghost all = words@.map_values(|w: &str| w@);
    let mut i: usize = 0;
    while i < words.len()
        invariant
            i <= words@.len(),
            all == words@.map_values(|w: &str| w@),
            texts(list@) == start + all.take(i as int),
        decreases words@.len() - i,
    {
        let ghost before = list@;
        list.push(words[i].to_owned());
        assert(texts(list@) =~= texts(before).push(words@[i as int]@));
        assert(texts(list@) =~= start + all.take(i + 1));
        i += 1;
    }
    assert(all.take(i as int) =~= all);
}

/// The playback programs to try, the preferred one first.
pub fn audio_attempts(output: Option<&str>) -> (r: Vec<AudioAttempt>)
    ensures
        r@.len() == 2,
        r@[0].program@ == "pw-cat"@,
        texts(r@[0].args@) == pw_args(text_of(output)),
        r@[1].program@ == "pacat"@,
        texts(r@[1].args@) == pa_args(text_of(output)),
{
    let mut pw: Vec<String> = Vec::new();
    push_all(
        &mut pw,
        vec![
            "--raw",
            "--playback",
            "--rate",
            "48000",
            "--channels",
            "2",
            "--format",
            "f32",
            "--latency",
            "20ms",
        ],
    );
    if let Some(name) = output {
        push_all(&mut pw, vec!["--target", name]);
    }
    push_all(&mut pw, vec!["-"]);
    assert(texts(pw@) =~= pw_args(text_of(output)));

    let mut pa: Vec<String> = Vec::new();
    push_all(
        &mut pa,
        vec![
            "--raw",
            "--playback",
            "--rate",
            "48000",
            "--channels",
            "2",
            "--format",
            "float32le",
            "--client-name",
            "netspectrum",
            "--stream-name",
            "netspectrum audio",
        ],
    );
    if let Some(name) = output {
        push_all(&mut pa, vec!["--device", name]);
    }
    assert(texts(pa@) =~= pa_args(text_of(output)));

    vec![
        AudioAttempt { program: "pw-cat", args: pw },
        AudioAttempt { program: "pacat", args: pa },
    ]
}

/// Why a playback program could not be used. Texts come from the system.
pub enum HelperFault {
    /// It could not be started.
    Spawn(String),
    /// It has no standard input.
    NoStdin,
    /// It did not take the first block.
    BlockRejected,
    /// Its state could not be read.
    StatusUnknown,
    /// It ended at once, with this status.
    Exited(String),
}

/// What has just been learnt of the playback program that is being tried. Texts
/// come from the system.
pub enum HelperEvent {
    Spawned,
    /// It could not be started, for this reason.
    SpawnFailed(String),
    /// Whether it has a standard input.
    Stdin(bool),
    /// Whether it took a first block of silence.
    Primed(bool),
    /// Its state could not be read.
    StatusUnknown,
    /// It has ended, with this status.
    Ended(String),
    StillRunning,
}

/// What to do next with the playback program that is being tried.
pub enum HelperAction {
    /// Take its standard input.
    TakeStdin,
    /// Write a first block of silence to it.
    Prime,
    /// Give it a moment, then see whether it still runs.
    CheckStatus,
    /// Play through it.
    Accept,
    /// It never ran: reject it, without anything from its error output.
    Skip(HelperFault),
    /// Kill it, wait for it, and reject it with what it wrote to its error
    /// output.
    Discard(HelperFault),
}

/// The next step with a playback program.
pub open spec fn helper_step(event: HelperEvent) -> HelperAction {
    match event {
        HelperEvent::Spawned => HelperAction::TakeStdin,
        HelperEvent::SpawnFailed(e) => HelperAction::Skip(HelperFault::Spawn(e)),
        HelperEvent::Stdin(true) => HelperAction::Prime,
        HelperEvent::Stdin(false) => HelperAction::Discard(HelperFault::NoStdin),
        HelperEvent::Primed(true) => HelperAction::CheckStatus,
        HelperEvent::Primed(false) => HelperAction::Discard(HelperFault::BlockRejected),
        HelperEvent::StatusUnknown => HelperAction::Discard(HelperFault::StatusUnknown),
        HelperEvent::Ended(status) => HelperAction::Discard(HelperFault::Exited(status)),
        HelperEvent::StillRunning => HelperAction::Accept,
    }
}

/// Decide the next step with a playback program: it is accepted once it has
/// taken a block of silence and still runs a moment later.
pub fn helper_next(event: HelperEvent) -> (r: HelperAction)
    ensures
        r == helper_step(event),
{
    match event {
        HelperEvent::Spawned => HelperAction::TakeStdin,
        HelperEvent::SpawnFailed(e) => HelperAction::Skip(HelperFault::Spawn(e)),
        HelperEvent::Stdin(ok) => if ok {
            HelperAction::Prime
        } else {
            HelperAction::Discard(HelperFault::NoStdin)
        },
        HelperEvent::Primed(ok) => if ok {
            HelperAction::CheckStatus
        } else {
            HelperAction::Discard(HelperFault::BlockRejected)
        },
        HelperEvent::StatusUnknown => HelperAction::Discard(HelperFault::StatusUnknown),
        HelperEvent::Ended(status) => HelperAction::Discard(HelperFault::Exited(status)),
        HelperEvent::StillRunning => HelperAction::Accept,
    }
}

/// Each failure of a program is told for what it is, in the words of the system
/// where there are any, and each success leads one step on.
pub proof fn lemma_helper_steps(text: String)
    ensures
        helper_step(HelperEvent::Spawned) is TakeStdin,
        helper_step(HelperEvent::Stdin(true)) is Prime,
        helper_step(HelperEvent::Primed(true)) is CheckStatus,
        helper_step(HelperEvent::StillRunning) is Accept,
        helper_step(HelperEvent::SpawnFailed(text)) == HelperAction::Skip(HelperFault::Spawn(text)),
        helper_step(HelperEvent::Stdin(false)) == HelperAction::Discard(HelperFault::NoStdin),
        helper_step(HelperEvent::Primed(false)) == HelperAction::Discard(HelperFault::BlockRejected),
        helper_step(HelperEvent::StatusUnknown) == HelperAction::Discard(HelperFault::StatusUnknown),
        helper_step(HelperEvent::Ended(text)) == HelperAction::Discard(HelperFault::Exited(text)),
{
}

/// A program that does not run is never accepted, and one that has failed is
/// always rejected.
pub proof fn lemma_only_running_accepted(event: HelperEvent)
    ensures
        helper_step(event) is Accept <==> event is StillRunning,
        event is SpawnFailed || event == HelperEvent::Stdin(false) || event == HelperEvent::Primed(
            false,
        ) || event is StatusUnknown || event is Ended ==> helper_step(event) is Skip
            || helper_step(event) is Discard,
{
}

/// What a playback program wrote to its error output, on one line and in
/// brackets, if it wrote anything but white space.
pub open spec fn stderr_note(stderr: Seq<char>) -> Seq<char> {
    let line = joined(words(stderr), seq![' ']);
    if line.len() == 0 {
        Seq::empty()
    } else {
        " ("@ + line + ")"@
    }
}

/// The error of one attempt.
pub open spec fn fault_text(program: Seq<char>, fault: HelperFault, stderr: Seq<char>) -> Seq<char> {
    program + ": "@ + (match fault {
        HelperFault::Spawn(e) => e@,
        HelperFault::NoStdin => program + " did not expose stdin"@ + stderr_note(stderr),
        HelperFault::BlockRejected => program + " rejected initial audio block"@ + stderr_note(stderr),
        HelperFault::StatusUnknown => "checking "@ + program + " status"@ + stderr_note(stderr),
        HelperFault::Exited(status) => program + " exited during startup with "@ + status@ + stderr_note(
            stderr,
        ),
    })
}

/// Every error names its program first. What a program wrote to its error output
/// follows in brackets, on one line; white space alone is nothing; and a program
/// that never ran wrote nothing.
pub proof fn lemma_fault_text(program: Seq<char>, fault: HelperFault, stderr: Seq<char>)
    ensures
        ({
            let text = fault_text(program, fault, stderr);
            let bare = fault_text(program, fault, Seq::empty());
            let line = joined(words(stderr), seq![' ']);
            let head = program + ": "@;
            &&& text.len() >= head.len() && text.take(head.len() as int) == head
            &&& fault is Spawn || line.len() == 0 ==> text == bare
            &&& !(fault is Spawn) && line.len() > 0 ==> text == bare + " ("@ + line + ")"@
            &&& fault matches HelperFault::Spawn(e) ==> bare == head + e@
            &&& fault is NoStdin ==> bare == head + (program + " did not expose stdin"@)
            &&& fault is BlockRejected ==> bare == head + (program + " rejected initial audio block"@)
            &&& fault is StatusUnknown ==> bare == head + ("checking "@ + program + " status"@)
            &&& fault matches HelperFault::Exited(status) ==> bare == head + (program
                + " exited during startup with "@ + status@)
        }),
{
    let text = fault_text(program, fault, stderr);
    let bare = fault_text(program, fault, Seq::empty());
    let line = joined(words(stderr), seq![' ']);
    let head = program + ": "@;
    assert(words(Seq::<char>::empty()) =~= Seq::empty());
    assert(text.take(head.len() as int) =~= head);
    match fault {
        HelperFault::Spawn(e) => {},
        HelperFault::NoStdin => {
            assert(bare =~= head + (program + " did not expose stdin"@));
        },
        HelperFault::BlockRejected => {
            assert(bare =~= head + (program + " rejected initial audio block"@));
        },
        HelperFault::StatusUnknown => {
            assert(bare =~= head + ("checking "@ + program + " status"@));
        },
        HelperFault::Exited(status) => {
            assert(bare =~= head + (program + " exited during startup with "@ + status@));
        },
    }
    if !(fault is Spawn) {
        if line.len() == 0 {
            assert(text =~= bare);
        } else {
            assert(text =~= bare + " ("@ + line + ")"@);
        }
    }
}

fn note_for(stderr: &str) -> (r: String)
    ensures
        r@ == stderr_note(stderr@),
{
    let line = squeeze(stderr);
    if line.as_str().unicode_len() == 0 {
        String::new()
    } else {
        let mut r = " (".to_owned();
        r.append(line.as_str());
        r.append(")");
        r
    }
}

fn describe_fault(program: &str, fault: &HelperFault, stderr: &str) -> (r: String)
    ensures
        r@ == fault_text(program@, *fault, stderr@),
{
    let mut r = program.to_owned();
    r.append(": ");
    match fault {
        HelperFault::Spawn(e) => {
            r.append(e.as_str());
        },
        HelperFault::NoStdin => {
            r.append(program);
            r.append(" did not expose stdin");
            r.append(note_for(stderr).as_str());
        },
        HelperFault::BlockRejected => {
            r.append(program);
            r.append(" rejected initial audio block");
            r.append(note_for(stderr).as_str());
        },
        HelperFault::StatusUnknown => {
            r.append("checking ");
            r.append(program);
            r.append(" status");
            r.append(note_for(stderr).as_str());
        },
        HelperFault::Exited(status) => {
            r.append(program);
            r.append(" exited during startup with ");
            r.append(status.as_str());
            r.append(note_for(stderr).as_str());
        },
    }
    assert(r@ =~= fault_text(program@, *fault, stderr@));
    r
}

/// The search for a playback program: every attempt so far has left one error.
pub struct HelperSearch {
    pub attempts: Vec<AudioAttempt>,
    pub errors: Vec<String>,
}

impl HelperSearch {
    pub open spec fn wf(self) -> bool {
        self.errors@.len() <= self.attempts@.len()
    }

    /// A search for this configuration, with nothing tried yet.
    pub fn new(config: &AudioConfig) -> (r: HelperSearch)
        ensures
            r.wf(),
            r.errors@.len() == 0,
            r.attempts@.len() == 2,
            r.attempts@[0].program@ == "pw-cat"@,
            texts(r.attempts@[0].args@) == pw_args(
                match config.output {
                    Some(o) => Some(o@),
                    None => None,
                },
            ),
            r.attempts@[1].program@ == "pacat"@,
            texts(r.attempts@[1].args@) == pa_args(
                match config.output {
                    Some(o) => Some(o@),
                    None => None,
                },
            ),
    {
        let output = match &config.output {
            Some(o) => Some(o.as_str()),
            None => None,
        };
        HelperSearch { attempts: audio_attempts(output), errors: Vec::new() }
    }

    /// The program to try now, or `None` when all have failed.
    pub fn current(&self) -> (r: Option<&AudioAttempt>)
        requires
            self.wf(),
        ensures
            self.errors@.len() < self.attempts@.len() ==> r == Some(
                &self.attempts@[self.errors@.len() as int],
            ),
            self.errors@.len() == self.attempts@.len() ==> r is None,
    {
        if self.errors.len() < self.attempts.len() {
            Some(&self.attempts[self.errors.len()])
        } else {
            None
        }
    }

    /// Record that the current program cannot be used, with what it wrote to its
    /// error output, and go on to the next.
    pub fn reject(&mut self, fault: &HelperFault, stderr: &str)
        requires
            old(self).errors@.len() < old(self).attempts@.len(),
        ensures
            final(self).wf(),
            final(self).attempts == old(self).attempts,
            texts(final(self).errors@) == texts(old(self).errors@).push(
                fault_text(
                    old(self).attempts@[old(self).errors@.len() as int].program@,
                    *fault,
                    stderr@,
                ),
            ),
    {
        let ghost before = self.errors@;
        let e = describe_fault(self.attempts[self.errors.len()].program, fault, stderr);
        self.errors.push(e);
        assert(texts(self.errors@) =~= texts(before).push(e@));
    }

    /// The error of a search in which every program failed.
    pub fn failure(&self) -> (r: String)
        ensures
            r@ == "no supported audio helper found ("@ + joined(texts(self.errors@), "; "@) + ")"@,
    {
        let mut r = "no supported audio helper found (".to_owned();
        r.append(join(&self.errors, "; ").as_str());
        r.append(")");
        r
    }
}

// ---------------------------------------------------------------- session

/// The session of the user who started the program through `sudo`.
#[derive(Clone, Debug)]
pub struct AudioSession {
    pub uid: u32,
    pub gid: u32,
    pub runtime_dir: String,
}

/// The number in an optional text.
pub open spec fn number_of(s: Option<&str>) -> Option<u32> {
    match s {
        Some(t) => number_in(t@),
        None => None,
    }
}

/// User, group and runtime directory of the session of the user with these ids.
pub open spec fn session_of(uid: Option<Seq<char>>, gid: Option<Seq<char>>) -> Option<
    (u32, u32, Seq<char>),
> {
    match (uid, gid) {
        (Some(u), Some(g)) => match (number_in(u), number_in(g)) {
            (Some(user), Some(group)) => if user == 0 {
                None
            } else {
                Some((user, group, "/run/user/"@ + decimal(user as nat)))
            },
            _ => None,
        },
        _ => None,
    }
}

/// There is a session exactly if both ids are numbers and the user is not root;
/// it is that of these ids; and its directory is the one below `/run/user` that
/// is named by the user's number.
pub proof fn lemma_session(uid: Seq<char>, gid: Seq<char>)
    ensures
        session_of(None, Some(gid)) is None,
        session_of(Some(uid), None) is None,
        ({
            let session = session_of(Some(uid), Some(gid));
            &&& session is Some <==> number_in(uid) is Some && number_in(gid) is Some && number_in(uid)
                != Some(0u32)
            &&& session matches Some(s) ==> {
                &&& number_in(uid) == Some(s.0)
                &&& number_in(gid) == Some(s.1)
                &&& s.2.len() > 10 && s.2.take(10) == "/run/user/"@
                &&& number_in(s.2.skip(10)) == Some(s.0)
            }
        }),
{
    let session = session_of(Some(uid), Some(gid));
    if session is Some {
        let (user, group, dir) = session->0;
        reveal_strlit("/run/user/");
        crate::text::lemma_number_round_trip(user);
        assert(dir.take(10) =~= "/run/user/"@);
        assert(dir.skip(10) =~= decimal(user as nat));
        assert(number_in(Seq::<char>::empty()) is None);
        if dir.len() == 10 {
            assert(decimal(user as nat) =~= Seq::empty());
        }
    }
}

/// The session of the user with these ids, as the variables `SUDO_UID` and
/// `SUDO_GID` give them. There is none unless both are numbers, and none for
/// root.
pub fn sudo_audio_session(uid: Option<&str>, gid: Option<&str>) -> (r: Option<AudioSession>)
    ensures
        session_of(text_of(uid), text_of(gid)) == (match r {
            Some(session) => Some((session.uid, session.gid, session.runtime_dir@)),
            None => None,
        }),
        r is Some <==> (number_of(uid) is Some && number_of(gid) is Some && number_of(uid)->0 != 0),
        r matches Some(session) ==> session.uid == number_of(uid)->0 && session.gid == number_of(gid)->0
            && session.runtime_dir@ == "/run/user/"@ + decimal(number_of(uid)->0 as nat),
{
    let uid: u32 = match uid {
        Some(t) => match parse_u32(t) {
            Some(n) => n,
            None => {
                return None;
            },
        },
        None => {
            return None;
        },
    };
    let gid: u32 = match gid {
        Some(t) => match parse_u32(t) {
            Some(n) => n,
            None => {
                return None;
            },
        },
        None => {
            return None;
        },
    };
    if uid == 0 {
        return None;
    }
    let mut runtime_dir = "/run/user/".to_owned();
    runtime_dir.append(decimal_text(uid).as_str());
    Some(AudioSession { uid, gid, runtime_dir })
}

/// The environment that a playback program needs to reach the user's session:
/// names and values.
pub fn session_environment(session: &AudioSession) -> (r: Vec<(&'static str, String)>)
    ensures
        r@.len() == 3,
        r@[0].0@ == "XDG_RUNTIME_DIR"@,
        r@[0].1@ == session.runtime_dir@,
        r@[1].0@ == "PULSE_SERVER"@,
        r@[1].1@ == "unix:"@ + session.runtime_dir@ + "/pulse/native"@,
        r@[2].0@ == "DBUS_SESSION_BUS_ADDRESS"@,
        r@[2].1@ == "unix:path="@ + session.runtime_dir@ + "/bus"@,
{
    let dir = session.runtime_dir.as_str();
    let mut pulse = "unix:".to_owned();
    pulse.append(dir);
    pulse.append("/pulse/native");
    let mut bus = "unix:path=".to_owned();
    bus.append(dir);
    bus.append("/bus");
    vec![
        ("XDG_RUNTIME_DIR", dir.to_owned()),
        ("PULSE_SERVER", pulse),
        ("DBUS_SESSION_BUS_ADDRESS", bus),
    ]
}

// ---------------------------------------------------------------- worker

/// What the audio worker has just learnt.
#[derive(Copy, Clone, Debug, PartialEq, Eq, Structural)]
pub enum WorkerEvent {
    /// Whether the worker is still wanted.
    Running(bool),
    /// Whether the shared state could be locked.
    Locked(bool),
    /// Whether the block was written.
    Written(bool),
}

/// What the audio worker does next.
#[derive(Copy, Clone, Debug, PartialEq, Eq, Structural)]
pub enum WorkerAction {
    /// See whether it is still wanted.
    Check,
    /// Lock the shared state.
    Lock,
    /// Fill a block with sound and write it.
    Play,
    /// Write a block of silence.
    Silence,
    /// Report that the player is no longer healthy, and end.
    Fail,
    End,
}

/// The next action of the audio worker: as long as it is wanted it writes one
/// block after another, silence when the state cannot be had, and it ends when
/// a write fails.
pub fn worker_next(event: WorkerEvent) -> (r: WorkerAction)
    ensures
        event == WorkerEvent::Running(true) <==> r == WorkerAction::Lock,
        event == WorkerEvent::Running(false) <==> r == WorkerAction::End,
        event == WorkerEvent::Locked(true) <==> r == WorkerAction::Play,
        event == WorkerEvent::Locked(false) <==> r == WorkerAction::Silence,
        event == WorkerEvent::Written(true) <==> r == WorkerAction::Check,
        event == WorkerEvent::Written(false) <==> r == WorkerAction::Fail,
{
    match event {
        WorkerEvent::Running(true) => WorkerAction::Lock,
        WorkerEvent::Running(false) => WorkerAction::End,
        WorkerEvent::Locked(true) => WorkerAction::Play,
        WorkerEvent::Locked(false) => WorkerAction::Silence,
        WorkerEvent::Written(true) => WorkerAction::Check,
        WorkerEvent::Written(false) => WorkerAction::Fail,
    }
}

// ---------------------------------------------------------------- blocks

/// The loudest sample, one quarter.
pub const LOUDEST_SAMPLE: u32 = 0x3e80_0000;

/// Whether a pattern stands for a sample from minus one quarter to one quarter:
/// without its sign bit it is at most that of one quarter.
pub open spec fn is_safe(bits: nat) -> bool {
    bits % 0x8000_0000 <= LOUDEST_SAMPLE
}

/// A sample brought into the safe range, by its pattern: one that is louder than
/// one quarter becomes one quarter with the same sign. What is no number stays.
pub open spec fn safe_sample(bits: u32) -> u32 {
    if is_safe(bits as nat) || is_nan(bits) {
        bits
    } else if bits < 0x8000_0000 {
        LOUDEST_SAMPLE
    } else {
        (0x8000_0000 + LOUDEST_SAMPLE) as u32
    }
}

/// Bring a sample into the safe range from minus one quarter to one quarter.
pub fn limit_sample(bits: u32) -> (r: u32)
    ensures
        r == safe_sample(bits),
        !is_nan(bits) ==> is_safe(r as nat),
        is_safe(bits as nat) ==> r == bits,
{
    let size: u32 = bits % 0x8000_0000;
    if size <= LOUDEST_SAMPLE || size > 0x7f80_0000 {
        bits
    } else if bits < 0x8000_0000 {
        LOUDEST_SAMPLE
    } else {
        0x8000_0000 + LOUDEST_SAMPLE
    }
}

/// Limiting keeps the sign of a sample and its size up to one quarter, and does not
/// touch what is no number.
pub proof fn lemma_safe_sample(bits: u32)
    ensures
        is_nan(bits) ==> safe_sample(bits) == bits,
        !is_nan(bits) ==> safe_sample(bits) / 0x8000_0000 == bits / 0x8000_0000,
        !is_nan(bits) && bits % 0x8000_0000 <= 0x3e80_0000 ==> safe_sample(bits) % 0x8000_0000 == bits
            % 0x8000_0000,
        !is_nan(bits) && bits % 0x8000_0000 > 0x3e80_0000 ==> safe_sample(bits) % 0x8000_0000
            == 0x3e80_0000,
{
}

/// The bytes of a sample, in big-endian or little-endian order.
pub open spec fn sample_bytes(bits: u32, big_endian: bool) -> Seq<u8> {
    let high = (bits / 0x100_0000) as u8;
    let upper = (bits / 0x1_0000 % 256) as u8;
    let lower = (bits / 0x100 % 256) as u8;
    let low = (bits % 256) as u8;
    if big_endian {
        seq![high, upper, lower, low]
    } else {
        seq![low, lower, upper, high]
    }
}

/// The pattern that four bytes spell in one of the two orders.
pub open spec fn sample_in(bytes: Seq<u8>, big_endian: bool) -> nat {
    if big_endian {
        be_value(bytes)
    } else {
        be_value(bytes.reverse())
    }
}

/// The bytes of a sample spell that sample.
pub proof fn lemma_sample_bytes(bits: u32, big_endian: bool)
    ensures
        sample_in(sample_bytes(bits, big_endian), big_endian) == bits,
{
    let big = sample_bytes(bits, true);
    assert(sample_bytes(bits, false).reverse() =~= big);
    reveal_with_fuel(be_value, 5);
    assert(big.drop_last().last() == big[2]);
    assert(big.drop_last().drop_last().last() == big[1]);
    assert(big.drop_last().drop_last().drop_last().last() == big[0]);
}

fn bytes_of(bits: u32, big_endian: bool) -> (r: [u8; 4])
    ensures
        r@ == sample_bytes(bits, big_endian),
{
    let high = (bits / 0x100_0000) as u8;
    let upper = (bits / 0x1_0000 % 256) as u8;
    let lower = (bits / 0x100 % 256) as u8;
    let low = (bits % 256) as u8;
    let r: [u8; 4] = if big_endian {
        [high, upper, lower, low]
    } else {
        [low, lower, upper, high]
    };
    assert(r@ =~= sample_bytes(bits, big_endian));
    r
}

/// A stereo frame: the patterns of the left and of the right sample.
#[derive(Copy, Clone, Debug, PartialEq, Eq, Structural)]
pub struct Frame {
    pub left: u32,
    pub right: u32,
}

impl Frame {
    /// Whether both samples are numbers.
    pub open spec fn is_sound(self) -> bool {
        !is_nan(self.left) && !is_nan(self.right)
    }

    /// The bytes of a frame, left before right, with both samples in the safe
    /// range.
    pub open spec fn bytes(self, big_endian: bool) -> Seq<u8> {
        sample_bytes(safe_sample(self.left), big_endian) + sample_bytes(
            safe_sample(self.right),
            big_endian,
        )
    }
}

/// Write the samples of one frame at a place of a block.
fn write_pair_at(block: &mut [u8], at: usize, left: [u8; 4], right: [u8; 4])
    requires
        at + 8 <= old(block)@.len(),
    ensures
        final(block)@ == old(block)@.take(at as int) + (left@ + right@) + old(block)@.skip(at + 8),
{
    let ghost start = block@;
    let size = block.len();
    let mut i: usize = 0;
    while i < 4
        invariant
            i <= 4,
            size == start.len(),
            block@.len() == start.len(),
            at + 8 <= size,
            left@.len() == 4,
            right@.len() == 4,
            forall|j: int| 0 <= j < at ==> block@[j] == start[j],
            forall|j: int| 0 <= j < i ==> block@[at + j] == left@[j],
            forall|j: int| 0 <= j < i ==> block@[at + 4 + j] == right@[j],
            forall|j: int| at + 8 <= j < start.len() ==> block@[j] == start[j],
        decreases 4 - i,
    {
        block[at + i] = left[i];
        block[at + 4 + i] = right[i];
        i += 1;
    }
    let ghost pair = left@ + right@;
    assert forall|j: int| at <= j < at + 8 implies block@[j] == pair[j - at] by {
        if j < at + 4 {
            assert(block@[at + (j - at)] == left@[j - at]);
        } else {
            assert(block@[at + 4 + (j - at - 4)] == right@[j - at - 4]);
        }
    }
    assert(block@ =~= start.take(at as int) + pair + start.skip(at + 8));
}

/// Write the samples of one frame to its place at the start of a slice.
pub fn write_f32_pair(frame: &mut [u8], left: [u8; 4], right: [u8; 4])
    requires
        old(frame)@.len() >= 8,
    ensures
        final(frame)@ == left@ + right@ + old(frame)@.skip(8),
{
    write_pair_at(frame, 0, left, right);
    assert(frame@ =~= left@ + right@ + old(frame)@.skip(8));
}

/// The bytes of frames, one frame after another.
pub open spec fn frames_bytes(frames: Seq<Frame>, big_endian: bool) -> Seq<u8> {
    Seq::new(8 * frames.len(), |j: int| frames[j / 8].bytes(big_endian)[j % 8])
}

/// A block with frames written from its start. The rest behind the last frame
/// stays as it was.
pub open spec fn filled(block: Seq<u8>, frames: Seq<Frame>, big_endian: bool) -> Seq<u8> {
    frames_bytes(frames, big_endian) + block.skip(8 * frames.len() as int)
}

/// Whether every sample in the first `frames` frames of a block is in the safe
/// range.
pub open spec fn holds_safe_samples(block: Seq<u8>, frames: nat, big_endian: bool) -> bool {
    forall|k: int|
        0 <= k < 2 * frames ==> is_safe(
            sample_in(#[trigger] block.subrange(4 * k, 4 * k + 4), big_endian),
        )
}

/// Write one frame after another into a block, as many as it has whole frames,
/// with every sample brought into the safe range. `big_endian` is the byte order
/// of the machine.
pub fn fill_audio_block(block: &mut [u8], frames: &Vec<Frame>, big_endian: bool)
    requires
        frames@.len() == old(block)@.len() / 8,
    ensures
        final(block)@ == filled(old(block)@, frames@, big_endian),
        final(block)@.len() == old(block)@.len(),
        (forall|i: int| 0 <= i < frames@.len() ==> (#[trigger] frames@[i]).is_sound())
            ==> holds_safe_samples(final(block)@, frames@.len(), big_endian),
{
    let ghost start = block@;
    let size = block.len();
    let mut i: usize = 0;
    while i < frames.len()
        invariant
            i <= frames@.len(),
            size == start.len(),
            8 * frames@.len() <= start.len(),
            block@ == filled(start, frames@.take(i as int), big_endian),
        decreases frames@.len() - i,
    {
        let ghost before = block@;
        let frame = frames[i];
        let left = bytes_of(limit_sample(frame.left), big_endian);
        let right = bytes_of(limit_sample(frame.right), big_endian);
        write_pair_at(block, 8 * i, left, right);
        proof {
            let next = frames@.take(i + 1);
            assert(left@ + right@ =~= frame.bytes(big_endian));
            assert forall|j: int| 0 <= j < start.len() implies block@[j] == filled(
                start,
                next,
                big_endian,
            )[j] by {
                if j < 8 * i {
                    assert(frames@.take(i as int)[j / 8] == next[j / 8]);
                } else if j < 8 * i + 8 {
                    assert(j / 8 == i && j % 8 == j - 8 * i);
                }
            }
            assert(block@ =~= filled(start, next, big_endian));
        }
        i += 1;
    }
    assert(frames@.take(i as int) =~= frames@);
    proof {
        if forall|i: int| 0 <= i < frames@.len() ==> (#[trigger] frames@[i]).is_sound() {
            lemma_safe_block(start, frames@, big_endian);
        }
    }
}

/// Every sample of a filled block is from minus one quarter to one quarter, in
/// whichever order its bytes stand, if the frames hold numbers.
#[verifier::spinoff_prover]
#[verifier::rlimit(60)]
pub proof fn lemma_safe_block(block: Seq<u8>, frames: Seq<Frame>, big_endian: bool)
    requires
        frames.len() == block.len() / 8,
        forall|i: int| 0 <= i < frames.len() ==> (#[trigger] frames[i]).is_sound(),
    ensures
        holds_safe_samples(filled(block, frames, big_endian), frames.len(), big_endian),
{
    let after = filled(block, frames, big_endian);
    assert forall|k: int| 0 <= k < 2 * frames.len() implies is_safe(
        sample_in(#[trigger] after.subrange(4 * k, 4 * k + 4), big_endian),
    ) by {
        let frame = frames[k / 2];
        assert(frame.is_sound());
        let bits = if k % 2 == 0 {
            safe_sample(frame.left)
        } else {
            safe_sample(frame.right)
        };
        let bytes = sample_bytes(bits, big_endian);
        assert forall|j: int| 0 <= j < 4 implies after[4 * k + j] == bytes[j] by {
            assert((4 * k + j) / 8 == k / 2);
            assert((4 * k + j) % 8 == 4 * (k % 2) + j);
        }
        assert(after.subrange(4 * k, 4 * k + 4) =~= bytes);
        lemma_sample_bytes(bits, big_endian);
    }
}

/// What is read back of a filled block: frame `i` has its left sample first and its
/// right sample behind it, both limited, and what lies behind the frames is as
/// before.
#[verifier::spinoff_prover]
#[verifier::rlimit(60)]
pub proof fn lemma_frames_read_back(block: Seq<u8>, frames: Seq<Frame>, big_endian: bool, i: int)
    requires
        frames.len() == block.len() / 8,
        0 <= i < frames.len(),
    ensures
        ({
            let after = filled(block, frames, big_endian);
            &&& after.len() == block.len()
            &&& sample_in(after.subrange(8 * i, 8 * i + 4), big_endian) == safe_sample(frames[i].left)
            &&& sample_in(after.subrange(8 * i + 4, 8 * i + 8), big_endian) == safe_sample(
                frames[i].right,
            )
            &&& forall|j: int| 8 * frames.len() <= j < block.len() ==> #[trigger] after[j] == block[j]
        }),
{
    let after = filled(block, frames, big_endian);
    let left = safe_sample(frames[i].left);
    let right = safe_sample(frames[i].right);
    assert forall|j: int| 0 <= j < 8 implies after[8 * i + j] == frames[i].bytes(big_endian)[j] by {
        assert((8 * i + j) / 8 == i);
        assert((8 * i + j) % 8 == j);
    }
    assert(after.subrange(8 * i, 8 * i + 4) =~= sample_bytes(left, big_endian));
    assert(after.subrange(8 * i + 4, 8 * i + 8) =~= sample_bytes(right, big_endian));
    lemma_sample_bytes(left, big_endian);
    lemma_sample_bytes(right, big_endian);
}

/// Borders between blocks are not heard: a block filled in one go holds the same
/// bytes as its two parts, cut behind frame `n` and filled one after the other.
#[verifier::spinoff_prover]
#[verifier::rlimit(60)]
pub proof fn lemma_block_border(block: Seq<u8>, frames: Seq<Frame>, big_endian: bool, n: int)
    requires
        frames.len() == block.len() / 8,
        0 <= n <= frames.len(),
    ensures
        filled(block, frames, big_endian) == filled(
            block.take(8 * n),
            frames.take(n),
            big_endian,
        ) + filled(block.skip(8 * n), frames.skip(n), big_endian),
{
    let first = filled(block.take(8 * n), frames.take(n), big_endian);
    let second = filled(block.skip(8 * n), frames.skip(n), big_endian);
    let whole = filled(block, frames, big_endian);
    assert(first =~= frames_bytes(frames.take(n), big_endian));
    assert forall|j: int| 0 <= j < block.len() implies whole[j] == (first + second)[j] by {
        if 8 * n <= j < 8 * frames.len() {
            assert((j - 8 * n) / 8 == j / 8 - n);
            assert((j - 8 * n) % 8 == j % 8);
            assert(frames.skip(n)[j / 8 - n] == frames[j / 8]);
        }
    }
    assert(whole =~= first + second);
}

/// Fill a block with silence.
pub fn fill_silence(block: &mut [u8])
    ensures
        final(block)@ == Seq::new(old(block)@.len(), |i: int| 0u8),
{
    let ghost start = block@;
    let mut i: usize = 0;
    while i < block.len()
        invariant
            i <= block@.len(),
            block@.len() == start.len(),
            forall|j: int| 0 <= j < i ==> block@[j] == 0,
        decreases block@.len() - i,
    {
        block[i] = 0;
        i += 1;
    }
    assert(block@ =~= Seq::new(start.len(), |i: int| 0u8));
}

// ---------------------------------------------------------------- target

/// What the synthesiser is to play.
#[derive(Copy, Clone, Debug, PartialEq, Eq, Structural)]
pub struct AudioTarget {
    pub enabled: bool,
    pub mono_level: Single,
    pub inbound_level: Single,
    pub outbound_level: Single,
    pub centroid: Single,
}

/// Sums over the display values of a spectrum, computed outside.
#[derive(Copy, Clone, Debug)]
pub struct Tally {
    /// Sum of the display values.
    pub total: Single,
    /// Their mean position, from zero at the first bar to one at the last,
    /// weighted by the values.
    pub mean: Single,
}

/// The position of the centre, one half.
pub const CENTRE: u32 = 0x3f00_0000;

/// The sum, one thousandth, that display values must exceed to have a position.
pub const QUIET: u32 = 0x3a83_126f;

/// The largest of some levels, or zero.
pub open spec fn loudest(levels: Seq<Single>) -> Single
    decreases levels.len(),
{
    if levels.len() == 0 {
        Single { bits: 0 }
    } else {
        loudest(levels.drop_last()).max_spec(levels.last())
    }
}

/// The levels of one direction in a mirrored spectrum: those at even places for
/// side 0, at odd places for side 1.
pub open spec fn side(levels: Seq<Single>, which: int) -> Seq<Single> {
    Seq::new(levels.len() / 2, |i: int| levels[2 * i + which])
}

/// The target for a spectrum: the loudest level, and either the loudest level of
/// each direction or the position of the sound.
pub open spec fn target_of(mirrored: bool, disp: Seq<Single>, enabled: bool, tally: Tally) -> AudioTarget {
    if mirrored {
        let inbound = loudest(side(disp, 0));
        let outbound = loudest(side(disp, 1));
        AudioTarget {
            enabled,
            mono_level: inbound.max_spec(outbound),
            inbound_level: inbound,
            outbound_level: outbound,
            centroid: Single { bits: CENTRE },
        }
    } else {
        AudioTarget {
            enabled,
            mono_level: loudest(disp),
            inbound_level: Single { bits: 0 },
            outbound_level: Single { bits: 0 },
            centroid: if tally.total.bits > QUIET {
                tally.mean
            } else {
                Single { bits: CENTRE }
            },
        }
    }
}

/// What the synthesiser is to play for a spectrum.
pub fn target_from_spectrum(spectrum: &Spectrum, enabled: bool, tally: &Tally) -> (r: AudioTarget)
    requires
        all_levels(spectrum.disp@),
        tally.total.is_number(),
        tally.mean.is_number(),
    ensures
        r == target_of(spectrum.mirrored, spectrum.disp@, enabled, *tally),
{
    let disp = &spectrum.disp;
    if spectrum.mirrored {
        let mut inbound = Single { bits: 0 };
        let mut outbound = Single { bits: 0 };
        let bars = disp.len();
        let pairs = bars / 2;
        let mut i: usize = 0;
        while i < pairs
            invariant
                i <= pairs,
                bars == disp@.len(),
                pairs == bars / 2,
                all_levels(disp@),
                inbound.is_number(),
                outbound.is_number(),
                inbound == loudest(side(disp@, 0).take(i as int)),
                outbound == loudest(side(disp@, 1).take(i as int)),
            decreases pairs - i,
        {
            assert(side(disp@, 0).take(i + 1).drop_last() =~= side(disp@, 0).take(i as int));
            assert(side(disp@, 1).take(i + 1).drop_last() =~= side(disp@, 1).take(i as int));
            inbound = inbound.max(disp[2 * i]);
            outbound = outbound.max(disp[2 * i + 1]);
            i += 1;
        }
        assert(side(disp@, 0).take(i as int) =~= side(disp@, 0));
        assert(side(disp@, 1).take(i as int) =~= side(disp@, 1));
        AudioTarget {
            enabled,
            mono_level: inbound.max(outbound),
            inbound_level: inbound,
            outbound_level: outbound,
            centroid: Single { bits: CENTRE },
        }
    } else {
        let mut peak = Single { bits: 0 };
        let mut i: usize = 0;
        while i < disp.len()
            invariant
                i <= disp@.len(),
                all_levels(disp@),
                peak.is_number(),
                peak == loudest(disp@.take(i as int)),
            decreases disp@.len() - i,
        {
            assert(disp@.take(i + 1).drop_last() =~= disp@.take(i as int));
            peak = peak.max(disp[i]);
            i += 1;
        }
        assert(disp@.take(i as int) =~= disp@);
        AudioTarget {
            enabled,
            mono_level: peak,
            inbound_level: Single { bits: 0 },
            outbound_level: Single { bits: 0 },
            centroid: if tally.total.exceeds(Single { bits: QUIET }) {
                tally.mean
            } else {
                Single { bits: CENTRE }
            },
        }
    }
}

/// The loudest level is at least every level, and one of them unless all are
/// zero.
pub proof fn lemma_loudest(levels: Seq<Single>)
    ensures
        forall|i: int| 0 <= i < levels.len() ==> loudest(levels).bits >= (#[trigger] levels[i]).bits,
        loudest(levels).bits == 0 || levels.contains(loudest(levels)),
    decreases levels.len(),
{
    if levels.len() > 0 {
        let rest = levels.drop_last();
        lemma_loudest(rest);
        assert forall|i: int| 0 <= i < levels.len() implies loudest(levels).bits >= (
        #[trigger] levels[i]).bits by {
            if i < levels.len() - 1 {
                assert(rest[i] == levels[i]);
            }
        }
        if loudest(levels) == levels.last() {
            assert(levels[levels.len() - 1] == levels.last());
        } else if loudest(rest).bits != 0 {
            let i = choose|i: int| 0 <= i < rest.len() && rest[i] == loudest(rest);
            assert(levels[i] == loudest(rest));
        }
    }
}

/// The main tone follows the loudest bar in either view: its level is at least
/// every display value, and one of them unless all are zero. In a mirrored
/// spectrum it is the greater of the two directions, the level of a direction is
/// the loudest of its bars, and the sound sits in the centre; else there is no
/// directional level, and the sound sits where the bars do unless they are quiet.
pub proof fn lemma_target_levels(mirrored: bool, disp: Seq<Single>, enabled: bool, tally: Tally)
    requires
        mirrored ==> disp.len() % 2 == 0,
    ensures
        ({
            let t = target_of(mirrored, disp, enabled, tally);
            &&& t.enabled == enabled
            &&& forall|i: int| 0 <= i < disp.len() ==> t.mono_level.bits >= (#[trigger] disp[i]).bits
            &&& t.mono_level.bits == 0 || disp.contains(t.mono_level)
            &&& mirrored ==> {
                &&& forall|i: int|
                    0 <= i < disp.len() && i % 2 == 0 ==> t.inbound_level.bits >= (
                    #[trigger] disp[i]).bits
                &&& forall|i: int|
                    0 <= i < disp.len() && i % 2 == 1 ==> t.outbound_level.bits >= (
                    #[trigger] disp[i]).bits
                &&& t.inbound_level.bits == 0 || exists|i: int|
                    0 <= i < disp.len() && i % 2 == 0 && #[trigger] disp[i] == t.inbound_level
                &&& t.outbound_level.bits == 0 || exists|i: int|
                    0 <= i < disp.len() && i % 2 == 1 && #[trigger] disp[i] == t.outbound_level
                &&& t.mono_level == t.inbound_level || t.mono_level == t.outbound_level
                &&& t.mono_level.bits >= t.inbound_level.bits
                &&& t.mono_level.bits >= t.outbound_level.bits
                &&& t.centroid.bits == 0x3f00_0000
            }
            &&& !mirrored ==> {
                &&& t.inbound_level.bits == 0 && t.outbound_level.bits == 0
                &&& tally.total.bits > 0x3a83_126f ==> t.centroid == tally.mean
                &&& tally.total.bits <= 0x3a83_126f ==> t.centroid.bits == 0x3f00_0000
            }
        }),
{
    let t = target_of(mirrored, disp, enabled, tally);
    lemma_loudest(disp);
    if mirrored {
        let even = side(disp, 0);
        let odd = side(disp, 1);
        lemma_loudest(even);
        lemma_loudest(odd);
        assert forall|i: int| 0 <= i < disp.len() && i % 2 == 0 implies t.inbound_level.bits >= (
        #[trigger] disp[i]).bits by {
            assert(even[i / 2] == disp[i]);
        }
        assert forall|i: int| 0 <= i < disp.len() && i % 2 == 1 implies t.outbound_level.bits >= (
        #[trigger] disp[i]).bits by {
            assert(odd[i / 2] == disp[i]);
        }
        assert forall|i: int| 0 <= i < disp.len() implies t.mono_level.bits >= (
        #[trigger] disp[i]).bits by {
            assert(i % 2 == 0 || i % 2 == 1);
        }
        if t.inbound_level.bits != 0 {
            let k = choose|k: int| 0 <= k < even.len() && even[k] == t.inbound_level;
            assert(disp[2 * k] == t.inbound_level);
        }
        if t.outbound_level.bits != 0 {
            let k = choose|k: int| 0 <= k < odd.len() && odd[k] == t.outbound_level;
            assert(disp[2 * k + 1] == t.outbound_level);
        }
    }
}

/// In a mirrored spectrum the two directions stay apart: the inbound level
/// depends on the even places alone, the outbound level on the odd ones.
pub proof fn lemma_target_sides(a: Seq<Single>, b: Seq<Single>, enabled: bool, s: Tally, t: Tally)
    requires
        a.len() == b.len(),
    ensures
        (forall|i: int| 0 <= i < a.len() && i % 2 == 0 ==> a[i] == b[i]) ==> target_of(
            true,
            a,
            enabled,
            s,
        ).inbound_level == target_of(true, b, enabled, t).inbound_level,
        (forall|i: int| 0 <= i < a.len() && i % 2 == 1 ==> a[i] == b[i]) ==> target_of(
            true,
            a,
            enabled,
            s,
        ).outbound_level == target_of(true, b, enabled, t).outbound_level,
{
    if forall|i: int| 0 <= i < a.len() && i % 2 == 0 ==> a[i] == b[i] {
        assert(side(a, 0) =~= side(b, 0));
    }
    if forall|i: int| 0 <= i < a.len() && i % 2 == 1 ==> a[i] == b[i] {
        assert(side(a, 1) =~= side(b, 1));
    }
}

} // verus!
