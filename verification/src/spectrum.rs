//! The signal chain: packets are counted into the bands of the current mode, and
//! each tick turns the counts into display levels and peak caps.
//!
//! Levels, rates and times are computed outside from the counts; the spectrum
//! holds them, compares them, and decides what becomes of each bar.

use crate::bands::{
    answer_to, band_total, group_band, group_of, halvings, labels_for, lower_port, mode_labels, port_band,
    proto_band, protocol_of, size_band, size_of_len, Mode,
};
use crate::capture::{Addr, PacketMeta};
use crate::hosts::{
    addresses, all_numbers, credit_host, credited, decay_hosts, distinct_hosts, distinct_slots, find_host,
    find_slot, plus_bytes, rank_hosts, ranked_addresses, refresh_slots, refreshed, scores,
    survivors, HostTotal,
};
use crate::number::{is_finite, is_nan, left_of, time_left, Double, Single, ONE};
use crate::text::{shorten_ip, shortened, texts};
use vstd::prelude::*;
use vstd::string::*;

verus! {

/// The least full-scale reference, 25000 bytes per second, so that idle links
/// stay calm.
pub const RATE_FLOOR: u64 = 0x40d8_6a00_0000_0000;

/// The time between two refreshes of the host slots, half a second.
pub const HOST_REFRESH: u32 = 0x3f00_0000;

/// The shortest time step, half a millisecond.
pub const STEP_MIN: u32 = 0x3a03_126f;

/// The longest time step, a quarter of a second.
pub const STEP_MAX: u32 = 0x3e80_0000;

/// What a spectrum keeps for itself: counts, clock, gain and hosts.
pub struct Meters {
    /// The time until which each peak cap hangs.
    peak_hold_until: Vec<Single>,
    /// Bytes accumulated since the last tick.
    acc: Vec<u64>,
    /// Smoothed bytes per second for readouts.
    rate_ema: Vec<Double>,
    /// Auto-gain reference (full scale).
    max_rate: Double,
    clock: Single,
    acc_in: u64,
    acc_out: u64,
    n_hosts: usize,
    hosts: Vec<HostTotal>,
    host_slots: Vec<Option<Addr>>,
    /// Time left until the next refresh of the host slots.
    host_refresh: Single,
}

/// The contents of `Meters`.
#[verifier::ext_equal]
pub struct MetersView {
    pub peak_hold_until: Seq<Single>,
    pub acc: Seq<u64>,
    pub rate_ema: Seq<Double>,
    pub max_rate: Double,
    pub clock: Single,
    pub acc_in: u64,
    pub acc_out: u64,
    pub n_hosts: nat,
    pub hosts: Seq<HostTotal>,
    pub host_slots: Seq<Option<Addr>>,
    pub host_refresh: Single,
}

impl View for Meters {
    type V = MetersView;

    closed spec fn view(&self) -> MetersView {
        MetersView {
            peak_hold_until: self.peak_hold_until@,
            acc: self.acc@,
            rate_ema: self.rate_ema@,
            max_rate: self.max_rate,
            clock: self.clock,
            acc_in: self.acc_in,
            acc_out: self.acc_out,
            n_hosts: self.n_hosts as nat,
            hosts: self.hosts@,
            host_slots: self.host_slots@,
            host_refresh: self.host_refresh,
        }
    }
}

pub struct Spectrum {
    pub mode: Mode,
    pub labels: Vec<String>,
    pub mirrored: bool,
    /// Display values from zero to one per bar (for hybrid: up and down of the
    /// first band, up and down of the second, and so on).
    pub disp: Vec<Single>,
    pub peak: Vec<Single>,
    pub rate_in: Double,
    pub rate_out: Double,
    pub labels_dirty: bool,
    pub meters: Meters,
}

/// The contents of a `Spectrum`.
#[verifier::ext_equal]
pub struct SpectrumView {
    pub mode: Mode,
    pub labels: Seq<Seq<char>>,
    pub mirrored: bool,
    pub disp: Seq<Single>,
    pub peak: Seq<Single>,
    pub peak_hold_until: Seq<Single>,
    pub acc: Seq<u64>,
    pub rate_ema: Seq<Double>,
    pub max_rate: Double,
    pub clock: Single,
    pub rate_in: Double,
    pub rate_out: Double,
    pub acc_in: u64,
    pub acc_out: u64,
    pub n_hosts: nat,
    pub hosts: Seq<HostTotal>,
    pub host_slots: Seq<Option<Addr>>,
    pub host_refresh: Single,
    pub labels_dirty: bool,
}

impl View for Spectrum {
    type V = SpectrumView;

    open spec fn view(&self) -> SpectrumView {
        SpectrumView {
            mode: self.mode,
            labels: texts(self.labels@),
            mirrored: self.mirrored,
            disp: self.disp@,
            peak: self.peak@,
            peak_hold_until: self.meters@.peak_hold_until,
            acc: self.meters@.acc,
            rate_ema: self.meters@.rate_ema,
            max_rate: self.meters@.max_rate,
            clock: self.meters@.clock,
            rate_in: self.rate_in,
            rate_out: self.rate_out,
            acc_in: self.meters@.acc_in,
            acc_out: self.meters@.acc_out,
            n_hosts: self.meters@.n_hosts,
            hosts: self.meters@.hosts,
            host_slots: self.meters@.host_slots,
            host_refresh: self.meters@.host_refresh,
            labels_dirty: self.labels_dirty,
        }
    }
}

/// The number of bars of a mode: hybrid draws two per band.
pub open spec fn bar_total(mode: Mode, n_hosts: nat) -> nat {
    if mode == Mode::Hybrid {
        2 * band_total(mode, n_hosts)
    } else {
        band_total(mode, n_hosts)
    }
}

/// Whether every entry of a list stands for a number.
pub open spec fn all_levels(list: Seq<Single>) -> bool {
    forall|i: int| 0 <= i < list.len() ==> (#[trigger] list[i]).is_number()
}

impl SpectrumView {
    /// Whether every level, rate, score and time stands for a number: none is
    /// negative, infinite or undefined.
    pub open spec fn holds_numbers(self) -> bool {
        &&& all_levels(self.disp)
        &&& all_levels(self.peak)
        &&& all_levels(self.peak_hold_until)
        &&& all_numbers(self.rate_ema)
        &&& self.max_rate.is_number()
        &&& self.clock.is_number()
        &&& self.rate_in.is_number()
        &&& self.rate_out.is_number()
        &&& all_numbers(scores(self.hosts))
        &&& self.host_refresh.is_number()
    }

    /// Every list has an entry per bar or band, the labels are those of the
    /// mode, a free host slot is labelled with a dash, no host is listed twice,
    /// and every level, rate, score and time is a number.
    pub open spec fn wf(self) -> bool {
        let bars = bar_total(self.mode, self.n_hosts);
        &&& 4 <= self.n_hosts <= 24
        &&& self.mirrored == (self.mode == Mode::Hybrid)
        &&& self.labels.len() == band_total(self.mode, self.n_hosts)
        &&& self.mode != Mode::Hosts ==> self.labels == mode_labels(self.mode, self.n_hosts)
        &&& self.disp.len() == bars
        &&& self.peak.len() == bars
        &&& self.peak_hold_until.len() == bars
        &&& self.acc.len() == bars
        &&& self.rate_ema.len() == bars
        &&& self.mode == Mode::Hosts ==> self.host_slots.len() == self.n_hosts
        &&& self.mode == Mode::Hosts ==> forall|i: int|
            0 <= i < self.n_hosts && self.host_slots[i] is None ==> #[trigger] self.labels[i] == "-"@
        &&& distinct_slots(self.host_slots)
        &&& distinct_hosts(self.hosts)
        &&& self.holds_numbers()
    }
}

pub open spec fn silence(n: nat) -> Seq<Single> {
    Seq::new(n, |i: int| Single { bits: 0 })
}

pub open spec fn no_rates(n: nat) -> Seq<Double> {
    Seq::new(n, |i: int| Double { bits: 0 })
}

pub open spec fn no_bytes(n: nat) -> Seq<u64> {
    Seq::new(n, |i: int| 0u64)
}

fn singles(n: usize) -> (r: Vec<Single>)
    ensures
        r@ == silence(n as nat),
{
    let mut r: Vec<Single> = Vec::new();
    let mut i: usize = 0;
    while i < n
        invariant
            i <= n,
            r@ == silence(i as nat),
        decreases n - i,
    {
        r.push(Single { bits: 0 });
        i += 1;
        assert(r@ =~= silence(i as nat));
    }
    r
}

fn doubles(n: usize) -> (r: Vec<Double>)
    ensures
        r@ == no_rates(n as nat),
{
    let mut r: Vec<Double> = Vec::new();
    let mut i: usize = 0;
    while i < n
        invariant
            i <= n,
            r@ == no_rates(i as nat),
        decreases n - i,
    {
        r.push(Double { bits: 0 });
        i += 1;
        assert(r@ =~= no_rates(i as nat));
    }
    r
}

fn zeros(n: usize) -> (r: Vec<u64>)
    ensures
        r@ == no_bytes(n as nat),
{
    let mut r: Vec<u64> = Vec::new();
    let mut i: usize = 0;
    while i < n
        invariant
            i <= n,
            r@ == no_bytes(i as nat),
        decreases n - i,
    {
        r.push(0);
        i += 1;
        assert(r@ =~= no_bytes(i as nat));
    }
    r
}

fn free_slots(n: usize) -> (r: Vec<Option<Addr>>)
    ensures
        r@ == Seq::new(n as nat, |i: int| None::<Addr>),
{
    let mut r: Vec<Option<Addr>> = Vec::new();
    let mut i: usize = 0;
    while i < n
        invariant
            i <= n,
            r@ == Seq::new(i as nat, |i: int| None::<Addr>),
        decreases n - i,
    {
        r.push(None);
        i += 1;
        assert(r@ =~= Seq::new(i as nat, |i: int| None::<Addr>));
    }
    r
}

// ---------------------------------------------------------------- modes

/// The spectrum after a switch to `mode`: all display state is reset, the labels
/// are those of the mode, and entering the hosts mode frees every slot. The
/// totals, the clock and the host table stay.
pub open spec fn after_mode(v: SpectrumView, mode: Mode) -> SpectrumView {
    let bars = bar_total(mode, v.n_hosts);
    SpectrumView {
        mode,
        labels: mode_labels(mode, v.n_hosts),
        mirrored: mode == Mode::Hybrid,
        disp: silence(bars),
        peak: silence(bars),
        peak_hold_until: silence(bars),
        acc: no_bytes(bars),
        rate_ema: no_rates(bars),
        max_rate: Double { bits: RATE_FLOOR },
        host_slots: if mode == Mode::Hosts {
            Seq::new(v.n_hosts, |i: int| None::<Addr>)
        } else {
            v.host_slots
        },
        labels_dirty: true,
        ..v
    }
}

/// A fresh spectrum: silent, with the number of host bands brought into the
/// range from 4 to 24.
pub open spec fn fresh(mode: Mode, n_hosts: nat) -> SpectrumView {
    let n = if n_hosts < 4 {
        4
    } else if n_hosts > 24 {
        24
    } else {
        n_hosts
    };
    after_mode(
        SpectrumView {
            mode,
            labels: Seq::empty(),
            mirrored: false,
            disp: Seq::empty(),
            peak: Seq::empty(),
            peak_hold_until: Seq::empty(),
            acc: Seq::empty(),
            rate_ema: Seq::empty(),
            max_rate: Double { bits: RATE_FLOOR },
            clock: Single { bits: 0 },
            rate_in: Double { bits: 0 },
            rate_out: Double { bits: 0 },
            acc_in: 0,
            acc_out: 0,
            n_hosts: n,
            hosts: Seq::empty(),
            host_slots: Seq::empty(),
            host_refresh: Single { bits: 0 },
            labels_dirty: true,
        },
        mode,
    )
}

/// No energy of the old mode leaks into the new view: a switch of modes leads to
/// the same bars whatever they showed before, and keeps the spectrum well formed.
pub proof fn lemma_mode_forgets(v: SpectrumView, w: SpectrumView, mode: Mode)
    requires
        v.wf(),
        w.n_hosts == v.n_hosts,
    ensures
        after_mode(v, mode).wf(),
        after_mode(v, mode).disp == after_mode(w, mode).disp,
        after_mode(v, mode).peak == after_mode(w, mode).peak,
        after_mode(v, mode).peak_hold_until == after_mode(w, mode).peak_hold_until,
        after_mode(v, mode).acc == after_mode(w, mode).acc,
        after_mode(v, mode).rate_ema == after_mode(w, mode).rate_ema,
        after_mode(v, mode).max_rate == after_mode(w, mode).max_rate,
        after_mode(v, mode).labels == after_mode(w, mode).labels,
        after_mode(after_mode(v, mode), mode) == after_mode(v, mode),
{
    crate::bands::lemma_labels_total(mode, v.n_hosts);
    assert(after_mode(after_mode(v, mode), mode) =~= after_mode(v, mode));
}

/// What a switch of modes leaves: the bars of the mode, all silent and empty, its
/// labels, and full scale at its floor. Only the hosts mode frees the slots. What
/// is counted or known apart from the bars stays.
pub proof fn lemma_mode_layout(v: SpectrumView, mode: Mode)
    ensures
        ({
            let w = after_mode(v, mode);
            let bars = match mode {
                Mode::Protocol => 18,
                Mode::Ports => 16,
                Mode::Hosts => v.n_hosts,
                Mode::Hybrid => 16,
                Mode::Sizes => 8,
            };
            &&& w.mode == mode
            &&& w.mirrored <==> mode == Mode::Hybrid
            &&& w.labels == mode_labels(mode, v.n_hosts)
            &&& w.labels_dirty
            &&& w.disp.len() == bars && w.peak.len() == bars && w.peak_hold_until.len() == bars
            &&& w.acc.len() == bars && w.rate_ema.len() == bars
            &&& forall|i: int|
                0 <= i < bars ==> (#[trigger] w.disp[i]).bits == 0 && w.peak[i].bits == 0
                    && w.peak_hold_until[i].bits == 0 && w.acc[i] == 0 && w.rate_ema[i].bits == 0
            &&& w.max_rate.bits == 0x40d8_6a00_0000_0000
            &&& w.clock == v.clock && w.rate_in == v.rate_in && w.rate_out == v.rate_out
            &&& w.acc_in == v.acc_in && w.acc_out == v.acc_out
            &&& w.n_hosts == v.n_hosts && w.hosts == v.hosts && w.host_refresh == v.host_refresh
            &&& mode != Mode::Hosts ==> w.host_slots == v.host_slots
            &&& mode == Mode::Hosts ==> w.host_slots.len() == v.n_hosts && forall|i: int|
                0 <= i < v.n_hosts ==> #[trigger] w.host_slots[i] == None::<Addr>
            &&& mode == Mode::Hosts ==> forall|i: int|
                0 <= i < v.n_hosts ==> #[trigger] w.labels[i] == "-"@
        }),
{
}

/// A fresh spectrum has counted and seen nothing, starts at time zero, and takes
/// the number of host bands that is nearest to the one asked for from 4 to 24.
/// Choosing its mode again changes nothing.
pub proof fn lemma_fresh(mode: Mode, n_hosts: nat)
    ensures
        ({
            let w = fresh(mode, n_hosts);
            &&& w.mode == mode
            &&& 4 <= w.n_hosts <= 24
            &&& 4 <= n_hosts <= 24 ==> w.n_hosts == n_hosts
            &&& n_hosts < 4 ==> w.n_hosts == 4
            &&& n_hosts > 24 ==> w.n_hosts == 24
            &&& w.clock.bits == 0 && w.rate_in.bits == 0 && w.rate_out.bits == 0
            &&& w.acc_in == 0 && w.acc_out == 0
            &&& w.hosts.len() == 0
            &&& w.host_refresh.bits == 0
            &&& after_mode(w, mode) == w
        }),
{
    assert(after_mode(fresh(mode, n_hosts), mode) =~= fresh(mode, n_hosts));
}

// ---------------------------------------------------------------- packets

/// The endpoint of a packet that is not ours.
pub open spec fn remote(m: PacketMeta) -> Addr {
    if m.inbound {
        m.src
    } else {
        m.dst
    }
}

/// The bar that a packet is counted in. In the hosts mode that is the slot of
/// its remote endpoint, if it has one.
pub open spec fn bar_of(v: SpectrumView, m: PacketMeta) -> Option<int> {
    match v.mode {
        Mode::Protocol => Some(protocol_of(m) as int),
        Mode::Ports => Some(halvings(lower_port(m) as nat) as int),
        Mode::Sizes => Some(size_of_len(m.len) as int),
        Mode::Hybrid => Some(
            2 * group_of(protocol_of(m)) + if m.inbound {
                0int
            } else {
                1
            },
        ),
        Mode::Hosts => v.host_slots.index_of_first(Some(remote(m))),
    }
}

/// The spectrum after one packet has been counted: in the total of its
/// direction, in its bar, and in the hosts mode for its remote endpoint.
pub open spec fn after_packet(v: SpectrumView, m: PacketMeta) -> SpectrumView {
    SpectrumView {
        acc_in: if m.inbound {
            plus_bytes(v.acc_in, m.len)
        } else {
            v.acc_in
        },
        acc_out: if m.inbound {
            v.acc_out
        } else {
            plus_bytes(v.acc_out, m.len)
        },
        acc: match bar_of(v, m) {
            Some(bar) => v.acc.update(bar, plus_bytes(v.acc[bar], m.len)),
            None => v.acc,
        },
        hosts: if v.mode == Mode::Hosts {
            credited(v.hosts, remote(m), m.len)
        } else {
            v.hosts
        },
        ..v
    }
}

/// The bar of a packet exists, and counting the packet keeps the spectrum well
/// formed.
pub proof fn lemma_packet_bar(v: SpectrumView, m: PacketMeta)
    requires
        v.wf(),
    ensures
        bar_of(v, m) matches Some(bar) ==> 0 <= bar < v.acc.len(),
        v.mode != Mode::Hosts ==> bar_of(v, m) is Some,
        after_packet(v, m).wf(),
{
    reveal_with_fuel(crate::bands::service_from, 14);
    reveal_with_fuel(halvings, 17);
    v.host_slots.index_of_first_ensures(Some(remote(m)));
    crate::hosts::lemma_credited_distinct(v.hosts, remote(m), m.len);
    crate::hosts::lemma_credited_scores(v.hosts, remote(m), m.len);
}

/// What a packet changes: the bytes of its bar and of its direction grow by its
/// length, as far as a count goes, and in the hosts mode its remote endpoint, the
/// sender of an inbound packet and the receiver of an outbound one, is credited.
/// Nothing else changes.
pub proof fn lemma_packet_effect(v: SpectrumView, m: PacketMeta)
    requires
        v.wf(),
    ensures
        ({
            let w = after_packet(v, m);
            let grown = |count: u64|
                if count + m.len <= u64::MAX {
                    count + m.len
                } else {
                    u64::MAX as int
                };
            let far = if m.inbound {
                m.src
            } else {
                m.dst
            };
            &&& w.acc.len() == v.acc.len()
            &&& forall|i: int|
                0 <= i < v.acc.len() && bar_of(v, m) != Some(i) ==> #[trigger] w.acc[i] == v.acc[i]
            &&& forall|i: int|
                0 <= i < v.acc.len() && bar_of(v, m) == Some(i) ==> #[trigger] w.acc[i] == grown(
                    v.acc[i],
                )
            &&& m.inbound ==> w.acc_in == grown(v.acc_in) && w.acc_out == v.acc_out
            &&& !m.inbound ==> w.acc_out == grown(v.acc_out) && w.acc_in == v.acc_in
            &&& v.mode == Mode::Hosts ==> w.hosts == credited(v.hosts, far, m.len)
            &&& v.mode != Mode::Hosts ==> w.hosts == v.hosts
            &&& w.mode == v.mode && w.labels == v.labels && w.mirrored == v.mirrored
            &&& w.disp == v.disp && w.peak == v.peak && w.peak_hold_until == v.peak_hold_until
            &&& w.rate_ema == v.rate_ema && w.max_rate == v.max_rate && w.clock == v.clock
            &&& w.rate_in == v.rate_in && w.rate_out == v.rate_out && w.n_hosts == v.n_hosts
            &&& w.host_slots == v.host_slots && w.host_refresh == v.host_refresh
            &&& w.labels_dirty == v.labels_dirty
        }),
{
    lemma_packet_bar(v, m);
}

/// The bar of a packet in the views by protocol, direction and size: that of its
/// protocol band; the inbound or the outbound bar of its group; that of its
/// length.
pub proof fn lemma_bar_by_band(v: SpectrumView, m: PacketMeta)
    ensures
        v.mode == Mode::Protocol ==> bar_of(v, m) == Some(protocol_of(m) as int),
        v.mode == Mode::Hybrid && m.inbound ==> bar_of(v, m) == Some(
            2 * (group_of(protocol_of(m)) as int),
        ),
        v.mode == Mode::Hybrid && !m.inbound ==> bar_of(v, m) == Some(
            2 * (group_of(protocol_of(m)) as int) + 1,
        ),
        v.mode == Mode::Sizes ==> bar_of(v, m) == Some(size_of_len(m.len) as int),
{
}

/// The bar of a packet in the port view holds the lesser of its two nonzero
/// ports: bar `b` those from `2^b` up to `2^(b + 1) - 1`. A packet without ports
/// is counted in the first bar.
pub proof fn lemma_bar_by_port(v: SpectrumView, m: PacketMeta)
    requires
        v.mode == Mode::Ports,
    ensures
        bar_of(v, m) is Some,
        ({
            let bar = bar_of(v, m)->0;
            let low = vstd::arithmetic::power2::pow2(bar as nat);
            let high = vstd::arithmetic::power2::pow2((bar + 1) as nat);
            &&& 0 <= bar < 16
            &&& m.sport == 0 && m.dport == 0 ==> bar == 0
            &&& m.sport != 0 && (m.dport == 0 || m.sport <= m.dport) ==> low <= m.sport < high
            &&& m.dport != 0 && (m.sport == 0 || m.dport <= m.sport) ==> low <= m.dport < high
        }),
{
    crate::bands::lemma_port_band(m);
}

/// The bar of a packet in the hosts view is the slot of its remote endpoint: of
/// the sender if it is inbound, of the receiver if it is outbound. Without a slot
/// it has no bar.
pub proof fn lemma_bar_by_host(v: SpectrumView, m: PacketMeta)
    requires
        v.wf(),
        v.mode == Mode::Hosts,
    ensures
        forall|i: int|
            0 <= i < v.host_slots.len() ==> (#[trigger] v.host_slots[i] == Some(
                if m.inbound {
                    m.src
                } else {
                    m.dst
                },
            ) <==> bar_of(v, m) == Some(i)),
        bar_of(v, m) matches Some(i) ==> 0 <= i < v.host_slots.len(),
{
    let far = if m.inbound {
        m.src
    } else {
        m.dst
    };
    let slots = v.host_slots;
    slots.index_of_first_ensures(Some(far));
    assert forall|i: int| 0 <= i < slots.len() implies (#[trigger] slots[i] == Some(far) <==> bar_of(v, m)
        == Some(i)) by {
        if slots[i] == Some(far) {
            assert(slots.contains(Some(far)));
            let k = bar_of(v, m)->0;
            if k < i {
                assert(slots[k] != slots[i]);
            } else if i < k {
                assert(slots[i] != slots[k]);
            }
        }
    }
}

/// Both directions of a conversation are counted in the same bar: in the views by
/// protocol, port and size in any case, and in the hosts view if one packet is
/// inbound and its answer outbound. In the hybrid view they are counted in the
/// two bars of one group.
pub proof fn lemma_conversation_shares_bar(v: SpectrumView, m: PacketMeta)
    ensures
        v.mode == Mode::Protocol || v.mode == Mode::Ports || v.mode == Mode::Sizes ==> bar_of(
            v,
            answer_to(m),
        ) == bar_of(v, m),
        v.mode == Mode::Hosts ==> bar_of(
            v,
            PacketMeta { inbound: !m.inbound, ..answer_to(m) },
        ) == bar_of(v, m),
        v.mode == Mode::Hybrid ==> ({
            let there = bar_of(v, m)->0;
            let back = bar_of(v, PacketMeta { inbound: !m.inbound, ..answer_to(m) })->0;
            there / 2 == back / 2 && there != back
        }),
{
    crate::bands::lemma_bands_symmetric(m);
    let back = PacketMeta { inbound: !m.inbound, ..answer_to(m) };
    crate::bands::lemma_protocol_by_transport(back, answer_to(m));
}

/// The bytes counted over a list of bars.
pub open spec fn total(acc: Seq<u64>) -> nat
    decreases acc.len(),
{
    if acc.len() == 0 {
        0
    } else {
        total(acc.drop_last()) + acc.last() as nat
    }
}

proof fn lemma_total_update(acc: Seq<u64>, i: int, x: u64)
    requires
        0 <= i < acc.len(),
    ensures
        total(acc.update(i, x)) == total(acc) - acc[i] + x,
        acc[i] <= total(acc),
    decreases acc.len(),
{
    if i == acc.len() - 1 {
        assert(acc.update(i, x).drop_last() =~= acc.drop_last());
    } else {
        lemma_total_update(acc.drop_last(), i, x);
        assert(acc.update(i, x).drop_last() =~= acc.drop_last().update(i, x));
    }
}

/// Every byte is counted exactly once. Outside the hosts mode the bars together
/// grow by the packet's length, and so do the two direction totals together, as
/// long as the counts can hold it.
pub proof fn lemma_packet_counted_once(v: SpectrumView, m: PacketMeta)
    requires
        v.wf(),
        v.mode != Mode::Hosts,
        total(v.acc) + m.len <= u64::MAX,
        v.acc_in + v.acc_out + m.len <= u64::MAX,
    ensures
        total(after_packet(v, m).acc) == total(v.acc) + m.len,
        after_packet(v, m).acc_in + after_packet(v, m).acc_out == v.acc_in + v.acc_out + m.len,
{
    lemma_packet_bar(v, m);
    let bar = bar_of(v, m)->0;
    lemma_total_update(v.acc, bar, plus_bytes(v.acc[bar], m.len));
}

/// Between two ticks the order of packets does not matter, outside the hosts
/// mode.
pub proof fn lemma_packets_commute(v: SpectrumView, a: PacketMeta, b: PacketMeta)
    requires
        v.wf(),
        v.mode != Mode::Hosts,
    ensures
        after_packet(after_packet(v, a), b) == after_packet(after_packet(v, b), a),
{
    lemma_packet_bar(v, a);
    lemma_packet_bar(v, b);
    assert(after_packet(after_packet(v, a), b) =~= after_packet(after_packet(v, b), a));
}

/// In the hybrid view the two directions of a group have bars of their own:
/// inbound traffic is counted in the even bar, outbound traffic in the odd one.
pub proof fn lemma_directions_apart(v: SpectrumView, m: PacketMeta)
    requires
        v.wf(),
        v.mode == Mode::Hybrid,
    ensures
        bar_of(v, m) matches Some(bar) && (bar % 2 == 0 <==> m.inbound) && bar / 2 == group_of(
            protocol_of(m),
        ),
{
}

// ---------------------------------------------------------------- ticks

/// The step for a time that is given by its pattern: a negative time (sign bit
/// set) or a shorter one than the least step counts as the least step, a longer
/// one than the greatest step as the greatest.
pub open spec fn step_of(dt: u32) -> Single {
    if dt >= 0x8000_0000 || dt < STEP_MIN {
        Single { bits: STEP_MIN }
    } else if dt > STEP_MAX {
        Single { bits: STEP_MAX }
    } else {
        Single { bits: dt }
    }
}

/// The step is never zero and never above its limit, and bringing a time into
/// range before it is used changes nothing: a stall of any length counts as the
/// greatest step, no time at all or a negative one as the least.
pub proof fn lemma_step_once(dt: u32)
    requires
        !is_nan(dt),
    ensures
        STEP_MIN <= step_of(dt).bits <= STEP_MAX,
        step_of(step_of(dt).bits) == step_of(dt),
        STEP_MIN <= dt <= STEP_MAX ==> step_of(dt).bits == dt,
        STEP_MAX <= dt < 0x8000_0000 ==> step_of(dt).bits == STEP_MAX,
        dt >= 0x8000_0000 ==> step_of(dt).bits == STEP_MIN,
{
}

/// The outside results of one tick for one bar.
#[derive(Copy, Clone, Debug)]
pub struct BarStep {
    /// Bytes per second since the last tick.
    pub rate: Double,
    /// Smoothed rate after this tick.
    pub ema: Double,
    /// Log-scaled rate, from zero to one of full scale.
    pub norm: Single,
    /// Display value after a step of the fast attack towards `norm`.
    pub attacked: Single,
    /// Display value after a step of the slow release towards `norm`.
    pub released: Single,
    /// Peak cap after a step of its fall.
    pub fallen: Single,
}

/// The outside results of one tick for the hosts.
pub struct HostTick {
    /// Time left until the next refresh of the slots: the pattern of a finite
    /// number of either sign.
    pub left: u32,
    /// Decayed score of each host of the table, with what was pending added.
    pub decayed: Vec<Double>,
    /// Text of each host's address; only a refresh needs them.
    pub names: Vec<String>,
}

/// The outside results of one tick.
pub struct Tick {
    /// Time after this tick.
    pub clock: Single,
    /// Time until which a cap that is raised now hangs.
    pub hold_until: Single,
    /// Smoothed totals after this tick.
    pub rate_in: Double,
    pub rate_out: Double,
    /// The auto-gain reference after its decay.
    pub decayed: Double,
    pub bars: Vec<BarStep>,
    pub hosts: HostTick,
}

/// The auto-gain reference: it decays slowly, never below the floor, and louder
/// bands push it up at once.
pub open spec fn raised(decayed: Double, bars: Seq<BarStep>) -> Double
    decreases bars.len(),
{
    if bars.len() == 0 {
        decayed.max_spec(Double { bits: RATE_FLOOR })
    } else {
        raised(decayed, bars.drop_last()).max_spec(bars.last().rate)
    }
}

/// The reference is at least the floor, its own decayed value, and the rate of
/// every bar; and it is one of these.
pub proof fn lemma_reference_bounds(decayed: Double, bars: Seq<BarStep>)
    ensures
        raised(decayed, bars).bits >= RATE_FLOOR,
        raised(decayed, bars).bits >= decayed.bits,
        forall|i: int| 0 <= i < bars.len() ==> raised(decayed, bars).bits >= (#[trigger] bars[i]).rate.bits,
        raised(decayed, bars).bits == RATE_FLOOR || raised(decayed, bars) == decayed || exists|i: int|
            0 <= i < bars.len() && raised(decayed, bars) == (#[trigger] bars[i]).rate,
    decreases bars.len(),
{
    if bars.len() > 0 {
        let rest = bars.drop_last();
        lemma_reference_bounds(decayed, rest);
        assert forall|i: int| 0 <= i < bars.len() implies raised(decayed, bars).bits >= (
        #[trigger] bars[i]).rate.bits by {
            if i < bars.len() - 1 {
                assert(rest[i] == bars[i]);
            }
        }
        if raised(decayed, bars) == bars.last().rate {
            assert(bars[bars.len() - 1] == bars.last());
        } else if raised(decayed, rest).bits != RATE_FLOOR && raised(decayed, rest) != decayed {
            let i = choose|i: int| 0 <= i < rest.len() && raised(decayed, rest) == (#[trigger] rest[i]).rate;
            assert(bars[i] == rest[i]);
        }
    }
}

/// Display value of a bar after a tick: fast towards a louder value, slow
/// towards a quieter one.
pub open spec fn next_disp(disp: Single, step: BarStep) -> Single {
    if step.norm.bits > disp.bits {
        step.attacked
    } else {
        step.released
    }
}

/// Peak cap of a bar after a tick: raised by a display value that reaches it,
/// and falling once its hold time is over.
pub open spec fn next_peak(disp: Single, peak: Single, hold: Single, clock: Single, step: BarStep) -> Single {
    if next_disp(disp, step).bits >= peak.bits {
        next_disp(disp, step)
    } else if clock.bits > hold.bits {
        step.fallen
    } else {
        peak
    }
}

/// Hold time of a bar's cap after a tick: renewed when the cap is raised.
pub open spec fn next_hold(disp: Single, peak: Single, hold: Single, hold_until: Single, step: BarStep) -> Single {
    if next_disp(disp, step).bits >= peak.bits {
        hold_until
    } else {
        hold
    }
}

/// While its hold time lasts, a cap is never below the bar and never falls.
pub proof fn lemma_cap_holds(disp: Single, peak: Single, hold: Single, clock: Single, step: BarStep)
    requires
        clock.bits <= hold.bits,
    ensures
        next_peak(disp, peak, hold, clock, step).bits >= peak.bits,
        next_peak(disp, peak, hold, clock, step).bits >= next_disp(disp, step).bits,
{
}

/// The spectrum after a tick, apart from the hosts.
pub open spec fn after_bars(v: SpectrumView, t: Tick) -> SpectrumView {
    let n = v.disp.len();
    SpectrumView {
        clock: t.clock,
        rate_in: t.rate_in,
        rate_out: t.rate_out,
        acc_in: 0,
        acc_out: 0,
        max_rate: raised(t.decayed, t.bars@),
        rate_ema: Seq::new(n, |i: int| t.bars@[i].ema),
        disp: Seq::new(n, |i: int| next_disp(v.disp[i], t.bars@[i])),
        peak: Seq::new(
            n,
            |i: int|
                next_peak(v.disp[i], v.peak[i], v.peak_hold_until[i], t.clock, t.bars@[i]),
        ),
        peak_hold_until: Seq::new(
            n,
            |i: int|
                next_hold(v.disp[i], v.peak[i], v.peak_hold_until[i], t.hold_until, t.bars@[i]),
        ),
        acc: no_bytes(n),
        ..v
    }
}

/// The label of a slot: the shortened address of its occupant, or a dash.
pub open spec fn slot_label(hosts: Seq<HostTotal>, names: Seq<Seq<char>>, slot: Option<Addr>) -> Seq<char> {
    match slot {
        Some(a) => match addresses(hosts).index_of_first(a) {
            Some(i) => shortened(names[i]),
            None => "-"@,
        },
        None => "-"@,
    }
}

/// The spectrum after the hosts have been brought up to date: faded hosts are
/// forgotten, and when a refresh is due the slots are refreshed from the
/// ranking. If that changes a slot, every slot is labelled anew and every bar
/// starts from silence.
pub open spec fn after_hosts(v: SpectrumView, h: HostTick) -> SpectrumView {
    let left = survivors(v.hosts, h.decayed@);
    match left_of(h.left) {
        Some(time) => SpectrumView { hosts: left, host_refresh: time, ..v },
        None => {
            let slots = refreshed(v.host_slots, ranked_addresses(left), v.n_hosts);
            let idle = SpectrumView {
                hosts: left,
                host_refresh: Single { bits: HOST_REFRESH },
                ..v
            };
            if slots == v.host_slots {
                idle
            } else {
                SpectrumView {
                    host_slots: slots,
                    labels: slots.map_values(
                        |slot: Option<Addr>| slot_label(v.hosts, texts(h.names@), slot),
                    ),
                    disp: silence(v.n_hosts),
                    peak: silence(v.n_hosts),
                    rate_ema: no_rates(v.n_hosts),
                    labels_dirty: true,
                    ..idle
                }
            }
        },
    }
}

/// The spectrum after a tick.
pub open spec fn after_tick(v: SpectrumView, t: Tick) -> SpectrumView {
    if v.mode == Mode::Hosts {
        after_hosts(after_bars(v, t), t.hosts)
    } else {
        after_bars(v, t)
    }
}

/// Whether the outside results for one bar are numbers.
pub open spec fn step_numbers(b: BarStep) -> bool {
    &&& b.rate.is_number()
    &&& b.ema.is_number()
    &&& b.norm.is_number()
    &&& b.attacked.is_number()
    &&& b.released.is_number()
    &&& b.fallen.is_number()
}

/// Whether outside results fit a spectrum: one step per bar, in the hosts mode
/// one score per host, with its name if a refresh is due, and all of them
/// numbers.
pub open spec fn fits(v: SpectrumView, t: Tick) -> bool {
    &&& t.bars@.len() == v.disp.len()
    &&& t.clock.is_number()
    &&& t.hold_until.is_number()
    &&& t.rate_in.is_number()
    &&& t.rate_out.is_number()
    &&& t.decayed.is_number()
    &&& forall|i: int| 0 <= i < t.bars@.len() ==> step_numbers(#[trigger] t.bars@[i])
    &&& v.mode == Mode::Hosts ==> {
        &&& t.hosts.decayed@.len() == v.hosts.len()
        &&& all_numbers(t.hosts.decayed@)
        &&& is_finite(t.hosts.left)
        &&& left_of(t.hosts.left) is None ==> t.hosts.names@.len() == v.hosts.len()
    }
}

/// Whether the outside results for bar `i` are steps of the ballistics: the
/// scaled rate is at most one, and zero without bytes; attack and release move
/// towards it and never past it; the smoothed rate moves no higher than the
/// rate; and a cap does not rise by falling.
pub open spec fn bar_follows(v: SpectrumView, b: BarStep, i: int) -> bool {
    &&& b.norm.bits <= ONE
    &&& v.acc[i] == 0 ==> b.rate.bits == 0 && b.norm.bits == 0
    &&& b.norm.bits > v.disp[i].bits ==> v.disp[i].bits <= b.attacked.bits <= b.norm.bits
    &&& b.norm.bits <= v.disp[i].bits ==> b.norm.bits <= b.released.bits <= v.disp[i].bits
    &&& b.ema.bits <= v.rate_ema[i].max_spec(b.rate).bits
    &&& b.fallen.bits <= v.peak[i].bits
}

/// Whether outside results are one step of the ballistics from a spectrum.
pub open spec fn follows(v: SpectrumView, t: Tick) -> bool {
    &&& forall|i: int| 0 <= i < t.bars@.len() ==> bar_follows(v, #[trigger] t.bars@[i], i)
    &&& v.acc_in == 0 ==> t.rate_in.bits <= v.rate_in.bits
    &&& v.acc_out == 0 ==> t.rate_out.bits <= v.rate_out.bits
}

proof fn lemma_ranked_known(hosts: Seq<HostTotal>, decayed: Seq<Double>, ranked: Seq<Addr>, n: nat, a: Addr)
    requires
        distinct_hosts(hosts),
        decayed.len() == hosts.len(),
        forall|k: int|
            0 <= k < ranked.len() ==> addresses(survivors(hosts, decayed)).contains(
                #[trigger] ranked[k],
            ),
        crate::hosts::best(ranked, n).contains(a),
    ensures
        addresses(hosts).contains(a),
{
    let list = crate::hosts::best(ranked, n);
    let k = choose|k: int| 0 <= k < list.len() && list[k] == a;
    assert(ranked[k] == a);
    crate::hosts::lemma_survivors_distinct(hosts, decayed);
}

/// The reference is a number if it is made from numbers.
proof fn lemma_reference_number(decayed: Double, bars: Seq<BarStep>)
    requires
        decayed.is_number(),
        forall|i: int| 0 <= i < bars.len() ==> step_numbers(#[trigger] bars[i]),
    ensures
        raised(decayed, bars).is_number(),
{
    lemma_reference_bounds(decayed, bars);
}

/// A tick keeps the spectrum well formed, and its mode and the number of its
/// bars and labels.
pub proof fn lemma_tick_wf(v: SpectrumView, t: Tick)
    requires
        v.wf(),
        fits(v, t),
    ensures
        after_bars(v, t).wf(),
        after_tick(v, t).wf(),
        after_tick(v, t).mode == v.mode,
        after_tick(v, t).mirrored == v.mirrored,
        after_tick(v, t).n_hosts == v.n_hosts,
        after_tick(v, t).labels.len() == v.labels.len(),
        after_tick(v, t).disp.len() == bar_total(v.mode, v.n_hosts),
        after_tick(v, t).peak.len() == bar_total(v.mode, v.n_hosts),
{
    lemma_reference_number(t.decayed, t.bars@);
    let mid = after_bars(v, t);
    assert forall|i: int| 0 <= i < mid.disp.len() implies mid.disp[i].is_number()
        && mid.peak[i].is_number() && mid.peak_hold_until[i].is_number()
        && mid.rate_ema[i].is_number() by {
        assert(step_numbers(t.bars@[i]));
        assert(v.peak[i].is_number());
        assert(v.peak_hold_until[i].is_number());
    }
    assert(all_levels(mid.disp));
    assert(all_levels(mid.peak));
    assert(all_levels(mid.peak_hold_until));
    assert(all_numbers(mid.rate_ema));
    if v.mode == Mode::Hosts {
        let left = survivors(v.hosts, t.hosts.decayed@);
        crate::hosts::lemma_survivors_scores(v.hosts, t.hosts.decayed@);
        crate::hosts::lemma_survivors_distinct(v.hosts, t.hosts.decayed@);
        crate::hosts::lemma_refresh_distinct(v.host_slots, ranked_addresses(left), v.n_hosts);
        crate::hosts::lemma_refresh_ranked(v.host_slots, ranked_addresses(left), v.n_hosts, 0);
    }
}

/// Whether no bar and no cap is above full scale.
pub open spec fn in_scale(v: SpectrumView) -> bool {
    &&& forall|i: int| 0 <= i < v.disp.len() ==> (#[trigger] v.disp[i]).bits <= ONE
    &&& forall|i: int| 0 <= i < v.peak.len() ==> (#[trigger] v.peak[i]).bits <= ONE
}

/// Display values run from zero to one: a fresh spectrum is in scale, and every
/// switch of modes, packet and tick of the ballistics keeps it so.
pub proof fn lemma_stays_in_scale(v: SpectrumView, m: PacketMeta, t: Tick, mode: Mode)
    requires
        v.wf(),
        fits(v, t),
        follows(v, t),
        in_scale(v),
    ensures
        in_scale(fresh(mode, v.n_hosts)),
        in_scale(after_mode(v, mode)),
        in_scale(after_packet(v, m)),
        in_scale(after_tick(v, t)),
{
    let mid = after_bars(v, t);
    assert forall|i: int| 0 <= i < mid.disp.len() implies mid.disp[i].bits <= ONE
        && mid.peak[i].bits <= ONE by {
        assert(bar_follows(v, t.bars@[i], i));
        assert(v.disp[i].bits <= ONE);
        assert(v.peak[i].bits <= ONE);
    }
}

/// Each byte is counted in one tick only: a tick leaves every count empty.
pub proof fn lemma_tick_empties(v: SpectrumView, t: Tick)
    ensures
        after_tick(v, t).acc == no_bytes(v.disp.len()),
        after_tick(v, t).acc_in == 0,
        after_tick(v, t).acc_out == 0,
{
}

/// A tick of the ballistics on empty counts raises nothing: every bar and every
/// rate is at most what it was, and the labels stay as they are.
pub proof fn lemma_quiet_tick(v: SpectrumView, t: Tick)
    requires
        v.wf(),
        fits(v, t),
        follows(v, t),
        v.mode != Mode::Hosts,
        v.acc == no_bytes(v.disp.len()),
        v.acc_in == 0,
        v.acc_out == 0,
    ensures
        forall|i: int|
            0 <= i < v.disp.len() ==> (#[trigger] after_tick(v, t).disp[i]).bits <= v.disp[i].bits,
        forall|i: int|
            0 <= i < v.rate_ema.len() ==> (#[trigger] after_tick(v, t).rate_ema[i]).bits
                <= v.rate_ema[i].bits,
        after_tick(v, t).rate_in.bits <= v.rate_in.bits,
        after_tick(v, t).rate_out.bits <= v.rate_out.bits,
        after_tick(v, t).labels == v.labels,
        after_tick(v, t).labels_dirty == v.labels_dirty,
{
    let after = after_tick(v, t);
    assert forall|i: int| 0 <= i < v.disp.len() implies after.disp[i].bits <= v.disp[i].bits
        && after.rate_ema[i].bits <= v.rate_ema[i].bits by {
        assert(bar_follows(v, t.bars@[i], i));
        assert(v.acc[i] == 0);
    }
}

/// Of two ticks without packets between them, the second raises nothing, whatever
/// had been counted before the first.
pub proof fn lemma_second_tick_quiet(v: SpectrumView, first: Tick, second: Tick)
    requires
        v.wf(),
        v.mode != Mode::Hosts,
        fits(v, first),
        fits(after_tick(v, first), second),
        follows(after_tick(v, first), second),
    ensures
        ({
            let mid = after_tick(v, first);
            let after = after_tick(mid, second);
            &&& forall|i: int| 0 <= i < mid.disp.len() ==> (#[trigger] after.disp[i]).bits <= mid.disp[i].bits
            &&& forall|i: int|
                0 <= i < mid.rate_ema.len() ==> (#[trigger] after.rate_ema[i]).bits
                    <= mid.rate_ema[i].bits
            &&& after.rate_in.bits <= mid.rate_in.bits
            &&& after.rate_out.bits <= mid.rate_out.bits
            &&& after.labels == mid.labels
            &&& after.labels_dirty == mid.labels_dirty
        }),
{
    lemma_tick_wf(v, first);
    lemma_quiet_tick(after_tick(v, first), second);
}

/// What one tick does to a peak cap: a bar that reaches it raises it, and only
/// then is its hold time renewed; else it hangs while the hold time lasts, and
/// falls by one step of its fall afterwards. So it never falls by more than one
/// such step.
pub proof fn lemma_cap_step(v: SpectrumView, t: Tick, i: int)
    requires
        v.wf(),
        fits(v, t),
        v.mode != Mode::Hosts,
        0 <= i < v.disp.len(),
        t.bars@[i].fallen.bits <= v.peak[i].bits,
    ensures
        after_tick(v, t).disp[i].bits >= v.peak[i].bits ==> after_tick(v, t).peak[i] == after_tick(
            v,
            t,
        ).disp[i] && after_tick(v, t).peak_hold_until[i] == t.hold_until,
        after_tick(v, t).disp[i].bits < v.peak[i].bits ==> after_tick(v, t).peak_hold_until[i]
            == v.peak_hold_until[i] && after_tick(v, t).peak[i] == if t.clock.bits
            <= v.peak_hold_until[i].bits {
            v.peak[i]
        } else {
            t.bars@[i].fallen
        },
        after_tick(v, t).peak[i].bits >= t.bars@[i].fallen.bits,
{
}

/// What a tick does to a bar, in every mode, as long as no host slot changes: the
/// display value takes the attack step towards a louder value and the release
/// step otherwise, the readout takes the smoothed rate, and the cap is raised by a
/// bar that reaches it, hangs for its hold time, and falls afterwards.
pub proof fn lemma_tick_bar(v: SpectrumView, t: Tick, i: int)
    requires
        v.wf(),
        fits(v, t),
        0 <= i < v.disp.len(),
        v.mode == Mode::Hosts ==> after_tick(v, t).host_slots == v.host_slots,
    ensures
        ({
            let w = after_tick(v, t);
            let step = t.bars@[i];
            &&& w.disp.len() == v.disp.len() && w.peak.len() == v.disp.len()
            &&& w.peak_hold_until.len() == v.disp.len() && w.rate_ema.len() == v.disp.len()
            &&& step.norm.bits > v.disp[i].bits ==> w.disp[i] == step.attacked
            &&& step.norm.bits <= v.disp[i].bits ==> w.disp[i] == step.released
            &&& w.rate_ema[i] == step.ema
            &&& w.disp[i].bits >= v.peak[i].bits ==> w.peak[i] == w.disp[i] && w.peak_hold_until[i]
                == t.hold_until
            &&& w.disp[i].bits < v.peak[i].bits ==> w.peak_hold_until[i] == v.peak_hold_until[i]
            &&& w.disp[i].bits < v.peak[i].bits && t.clock.bits <= v.peak_hold_until[i].bits
                ==> w.peak[i] == v.peak[i]
            &&& w.disp[i].bits < v.peak[i].bits && t.clock.bits > v.peak_hold_until[i].bits
                ==> w.peak[i] == step.fallen
        }),
{
}

/// What a tick does apart from the bars: time and totals are those handed in, all
/// counts start anew, and full scale is the greatest of its floor of 25000 bytes
/// per second, its decayed value and the rates of the bars. Mode and layout stay.
/// Outside the hosts mode nothing of the hosts or the labels changes.
pub proof fn lemma_tick_totals(v: SpectrumView, t: Tick)
    requires
        v.wf(),
        fits(v, t),
    ensures
        ({
            let w = after_tick(v, t);
            let full = w.max_rate;
            &&& w.clock == t.clock && w.rate_in == t.rate_in && w.rate_out == t.rate_out
            &&& w.acc_in == 0 && w.acc_out == 0
            &&& w.acc.len() == v.acc.len()
            &&& forall|i: int| 0 <= i < v.acc.len() ==> #[trigger] w.acc[i] == 0
            &&& full.bits >= 0x40d8_6a00_0000_0000 && full.bits >= t.decayed.bits
            &&& forall|i: int|
                0 <= i < t.bars@.len() ==> full.bits >= (#[trigger] t.bars@[i]).rate.bits
            &&& full.bits == 0x40d8_6a00_0000_0000 || full == t.decayed || exists|i: int|
                0 <= i < t.bars@.len() && full == (#[trigger] t.bars@[i]).rate
            &&& w.mode == v.mode && w.mirrored == v.mirrored && w.n_hosts == v.n_hosts
            &&& v.mode != Mode::Hosts ==> w.hosts == v.hosts && w.host_slots == v.host_slots
                && w.host_refresh == v.host_refresh && w.labels == v.labels && w.labels_dirty
                == v.labels_dirty
        }),
{
    lemma_reference_bounds(t.decayed, t.bars@);
}

/// What a tick does to the hosts: the table is brought up to date every time; the
/// slots only when no time is left until their refresh, and then from the ranking
/// of the table, with half a second until the next one.
pub proof fn lemma_tick_hosts(v: SpectrumView, t: Tick)
    requires
        v.wf(),
        fits(v, t),
        v.mode == Mode::Hosts,
    ensures
        ({
            let w = after_tick(v, t);
            let due = !(0 < t.hosts.left < 0x8000_0000);
            &&& w.hosts == survivors(v.hosts, t.hosts.decayed@)
            &&& !due ==> w.host_slots == v.host_slots && w.host_refresh.bits == t.hosts.left
            &&& due ==> w.host_refresh.bits == 0x3f00_0000
            &&& due ==> w.host_slots == refreshed(
                v.host_slots,
                ranked_addresses(survivors(v.hosts, t.hosts.decayed@)),
                v.n_hosts,
            )
            &&& w.host_slots == v.host_slots ==> w.labels == v.labels && w.labels_dirty
                == v.labels_dirty
        }),
{
}

/// When a refresh changes a slot, every bar starts from silence and every label is
/// made anew: the shortened name of the occupant, or a dash for a free slot.
pub proof fn lemma_tick_relabels(v: SpectrumView, t: Tick, i: int, k: int)
    requires
        v.wf(),
        fits(v, t),
        v.mode == Mode::Hosts,
        after_tick(v, t).host_slots != v.host_slots,
        0 <= i < v.n_hosts,
    ensures
        ({
            let w = after_tick(v, t);
            &&& w.labels_dirty
            &&& w.labels.len() == v.n_hosts && w.disp.len() == v.n_hosts && w.peak.len() == v.n_hosts
            &&& w.rate_ema.len() == v.n_hosts
            &&& w.disp[i].bits == 0 && w.peak[i].bits == 0 && w.rate_ema[i].bits == 0
            &&& w.peak_hold_until.len() == v.n_hosts
            &&& t.bars@[i].norm.bits > v.disp[i].bits ==> w.peak_hold_until[i] == if t.bars@[i].attacked.bits
                >= v.peak[i].bits {
                t.hold_until
            } else {
                v.peak_hold_until[i]
            }
            &&& t.bars@[i].norm.bits <= v.disp[i].bits ==> w.peak_hold_until[i] == if t.bars@[i].released.bits
                >= v.peak[i].bits {
                t.hold_until
            } else {
                v.peak_hold_until[i]
            }
            &&& w.host_slots[i] is None ==> w.labels[i] == "-"@
            &&& 0 <= k < v.hosts.len() && w.host_slots[i] == Some(v.hosts[k].addr) ==> w.labels[i]
                == shortened(t.hosts.names@[k]@)
        }),
{
    let left = survivors(v.hosts, t.hosts.decayed@);
    crate::hosts::lemma_refresh_ranked(v.host_slots, ranked_addresses(left), v.n_hosts, 0);
    let list = addresses(v.hosts);
    let w = after_tick(v, t);
    if 0 <= k < v.hosts.len() && w.host_slots[i] == Some(v.hosts[k].addr) {
        list.index_of_first_ensures(v.hosts[k].addr);
        assert(list[k] == v.hosts[k].addr);
        assert(list.contains(v.hosts[k].addr));
        let j = list.index_of_first(v.hosts[k].addr)->0;
        assert(list[j] == list[k]);
        assert(j == k);
        assert(texts(t.hosts.names@)[k] == t.hosts.names@[k]@);
    }
}

/// The busiest hosts are shown: once a refresh is due, each of the first `n_hosts`
/// of the ranking has a slot, unless all slots are taken.
pub proof fn lemma_busiest_are_shown(v: SpectrumView, t: Tick, i: int)
    requires
        v.wf(),
        fits(v, t),
        v.mode == Mode::Hosts,
        !(0 < t.hosts.left < 0x8000_0000),
        crate::hosts::among_first(
            ranked_addresses(survivors(v.hosts, t.hosts.decayed@)),
            v.n_hosts,
            v.hosts[i].addr,
        ),
    ensures
        after_tick(v, t).host_slots.contains(Some(v.hosts[i].addr)) || forall|j: int|
            0 <= j < v.n_hosts ==> (#[trigger] after_tick(v, t).host_slots[j]) is Some,
{
    let ranked = ranked_addresses(survivors(v.hosts, t.hosts.decayed@));
    let a = v.hosts[i].addr;
    let top = crate::hosts::best(ranked, v.n_hosts);
    crate::hosts::lemma_best_is_head(ranked, v.n_hosts);
    let k = choose|k: int| 0 <= k < ranked.len() && k < v.n_hosts && #[trigger] ranked[k] == a;
    assert(top[k] == a);
    crate::hosts::lemma_refresh_fills(v.host_slots, ranked, v.n_hosts, a);
}

/// The host with the most decayed bytes of all, if they exceed the floor, has a
/// slot once a refresh is due, unless all slots are taken.
pub proof fn lemma_busiest_is_shown(v: SpectrumView, t: Tick, i: int)
    requires
        v.wf(),
        fits(v, t),
        v.mode == Mode::Hosts,
        v.hosts.len() <= usize::MAX,
        !(0 < t.hosts.left < 0x8000_0000),
        0 <= i < v.hosts.len(),
        t.hosts.decayed@[i].bits > 0x4080_0000_0000_0000,
        forall|j: int|
            0 <= j < v.hosts.len() && j != i ==> (#[trigger] t.hosts.decayed@[j]).bits
                < t.hosts.decayed@[i].bits,
    ensures
        after_tick(v, t).host_slots.contains(Some(v.hosts[i].addr)) || forall|j: int|
            0 <= j < v.n_hosts ==> (#[trigger] after_tick(v, t).host_slots[j]) is Some,
{
    let decayed = t.hosts.decayed@;
    let left = survivors(v.hosts, decayed);
    let list = scores(left);
    let order = crate::hosts::ranking(list);
    let a = v.hosts[i].addr;
    crate::hosts::lemma_busy_hosts_stay(v.hosts, decayed);
    crate::hosts::lemma_survivors_distinct(v.hosts, decayed);
    let entry = HostTotal { addr: v.hosts[i].addr, score: decayed[i], pending: 0 };
    assert(left.contains(entry));
    let x = choose|x: int| 0 <= x < left.len() && left[x] == entry;
    crate::hosts::lemma_ranking_exists(list);
    crate::hosts::lemma_ranking_complete(list, order, x);
    let p = choose|p: int| 0 <= p < order.len() && order[p] == x;
    if p > 0 {
        crate::hosts::lemma_ranking_descends(list, order, 0, p);
        let y = order[0] as int;
        assert(list[y] == left[y].score && list[x] == left[x].score);
        crate::hosts::lemma_survivors_listed(v.hosts, decayed, y);
        let j = choose|j: int|
            0 <= j < v.hosts.len() && (#[trigger] v.hosts[j]).addr == left[y].addr && decayed[j]
                == left[y].score;
        assert(decayed[j].bits >= decayed[i].bits);
        assert(j == i);
        assert(addresses(left)[x] == a && addresses(left)[y] == a);
    }
    assert(ranked_addresses(left)[p] == a);
    assert(ranked_addresses(left)[0] == a);
    lemma_busiest_are_shown(v, t, i);
}

/// The spectrum after several ticks without packets between them.
pub open spec fn after_ticks(v: SpectrumView, ticks: Seq<Tick>) -> SpectrumView
    decreases ticks.len(),
{
    if ticks.len() == 0 {
        v
    } else {
        after_tick(after_ticks(v, ticks.drop_last()), ticks.last())
    }
}

/// Over a run of ticks that all come within its hold time, with its bar below
/// it all along, a peak cap stays exactly where it was raised, and so does the
/// end of its hold time.
pub proof fn lemma_cap_hangs(v: SpectrumView, ticks: Seq<Tick>, i: int)
    requires
        v.wf(),
        v.mode != Mode::Hosts,
        0 <= i < v.disp.len(),
        forall|k: int| 0 <= k < ticks.len() ==> fits(v, #[trigger] ticks[k]),
        forall|k: int|
            0 <= k < ticks.len() ==> (#[trigger] ticks[k]).clock.bits <= v.peak_hold_until[i].bits,
        forall|k: int|
            0 < k <= ticks.len() ==> (#[trigger] after_ticks(v, ticks.take(k))).disp[i].bits
                < v.peak[i].bits,
    ensures
        after_ticks(v, ticks).wf(),
        after_ticks(v, ticks).mode == v.mode,
        after_ticks(v, ticks).disp.len() == v.disp.len(),
        after_ticks(v, ticks).peak[i] == v.peak[i],
        after_ticks(v, ticks).peak_hold_until[i] == v.peak_hold_until[i],
    decreases ticks.len(),
{
    if ticks.len() > 0 {
        let rest = ticks.drop_last();
        assert forall|k: int| 0 < k <= rest.len() implies (#[trigger] after_ticks(
            v,
            rest.take(k),
        )).disp[i].bits < v.peak[i].bits by {
            assert(rest.take(k) =~= ticks.take(k));
        }
        assert forall|k: int| 0 <= k < rest.len() implies fits(v, #[trigger] rest[k])
            && rest[k].clock.bits <= v.peak_hold_until[i].bits by {
            assert(rest[k] == ticks[k]);
        }
        lemma_cap_hangs(v, rest, i);
        let mid = after_ticks(v, rest);
        let last = ticks.last();
        assert(last == ticks[ticks.len() - 1]);
        lemma_tick_wf(mid, last);
        assert(ticks.take(ticks.len() as int) =~= ticks);
        assert(after_ticks(v, ticks).disp[i].bits < v.peak[i].bits);
    }
}

/// A tick never changes a label without marking the labels as changed.
pub proof fn lemma_tick_marks_labels(v: SpectrumView, t: Tick)
    ensures
        after_tick(v, t).labels == v.labels || after_tick(v, t).labels_dirty,
        v.labels_dirty ==> after_tick(v, t).labels_dirty,
{
}

/// Hysteresis: a tick leaves an occupant in its slot while it is among the best
/// `2 * n` hosts, so bars do not reshuffle.
pub proof fn lemma_tick_keeps_slot(v: SpectrumView, t: Tick, i: int)
    requires
        v.wf(),
        fits(v, t),
        v.mode == Mode::Hosts,
        0 <= i < v.host_slots.len(),
        v.host_slots[i] is Some,
        crate::hosts::best(ranked_addresses(survivors(v.hosts, t.hosts.decayed@)), 2 * v.n_hosts).contains(
            v.host_slots[i]->0,
        ),
    ensures
        after_tick(v, t).host_slots[i] == v.host_slots[i],
{
    crate::hosts::lemma_refresh_stable(
        v.host_slots,
        ranked_addresses(survivors(v.hosts, t.hosts.decayed@)),
        v.n_hosts,
        i,
    );
}

impl Spectrum {
    /// Create a signal processor with the requested initial mode.
    pub fn new(mode: Mode, n_hosts: usize) -> (r: Spectrum)
        ensures
            r@ == fresh(mode, n_hosts as nat),
            r@.wf(),
    {
        let n: usize = if n_hosts < 4 {
            4
        } else if n_hosts > 24 {
            24
        } else {
            n_hosts
        };
        let mut s = Spectrum {
            mode,
            labels: Vec::new(),
            mirrored: false,
            disp: Vec::new(),
            peak: Vec::new(),
            rate_in: Double { bits: 0 },
            rate_out: Double { bits: 0 },
            labels_dirty: true,
            meters: Meters {
                peak_hold_until: Vec::new(),
                acc: Vec::new(),
                rate_ema: Vec::new(),
                max_rate: Double { bits: RATE_FLOOR },
                clock: Single { bits: 0 },
                acc_in: 0,
                acc_out: 0,
                n_hosts: n,
                hosts: Vec::new(),
                host_slots: Vec::new(),
                host_refresh: Single { bits: 0 },
            },
        };
        assert(texts(s.labels@) =~= Seq::empty());
        s.set_mode(mode);
        assert(s@ =~= fresh(mode, n_hosts as nat));
        proof {
            crate::bands::lemma_labels_total(mode, n as nat);
        }
        s
    }

    /// Switch band layout and reset display state so old-mode energy does not
    /// leak into the new view.
    pub fn set_mode(&mut self, mode: Mode)
        ensures
            final(self)@ == after_mode(old(self)@, mode),
            old(self)@.wf() ==> final(self)@.wf(),
    {
        let ghost v = self@;
        self.mode = mode;
        self.mirrored = mode == Mode::Hybrid;
        self.labels = labels_for(mode, self.meters.n_hosts);
        proof {
            crate::bands::lemma_labels_total(mode, v.n_hosts);
        }
        if mode == Mode::Hosts {
            self.meters.host_slots = free_slots(self.meters.n_hosts);
        }
        assert(self.labels@.len() == texts(self.labels@).len());
        let bars = if self.mirrored {
            self.labels.len() * 2
        } else {
            self.labels.len()
        };
        self.disp = singles(bars);
        self.peak = singles(bars);
        self.meters.peak_hold_until = singles(bars);
        self.meters.acc = zeros(bars);
        self.meters.rate_ema = doubles(bars);
        self.meters.max_rate = Double { bits: RATE_FLOOR };
        self.labels_dirty = true;
        assert(self@ =~= after_mode(v, mode));
    }

    /// Bytes accumulated in each bar since the last tick.
    pub fn acc(&self) -> (r: &Vec<u64>)
        ensures
            r@ == self@.acc,
    {
        &self.meters.acc
    }

    /// Bytes accumulated since the last tick, inbound and outbound.
    pub fn acc_totals(&self) -> (r: (u64, u64))
        ensures
            r == (self@.acc_in, self@.acc_out),
    {
        (self.meters.acc_in, self.meters.acc_out)
    }

    /// Smoothed bytes per second of each bar.
    pub fn rate_ema(&self) -> (r: &Vec<Double>)
        ensures
            r@ == self@.rate_ema,
    {
        &self.meters.rate_ema
    }

    /// The auto-gain reference.
    pub fn max_rate(&self) -> (r: Double)
        ensures
            r == self@.max_rate,
    {
        self.meters.max_rate
    }

    /// The time of the last tick.
    pub fn clock(&self) -> (r: Single)
        ensures
            r == self@.clock,
    {
        self.meters.clock
    }

    /// The table of remote hosts.
    pub fn hosts(&self) -> (r: &Vec<HostTotal>)
        ensures
            r@ == self@.hosts,
    {
        &self.meters.hosts
    }

    /// Time left until the next refresh of the host slots.
    pub fn host_refresh(&self) -> (r: Single)
        ensures
            r == self@.host_refresh,
    {
        self.meters.host_refresh
    }

    /// Number of drawable bars (hybrid draws two per labelled band).
    pub fn bar_count(&self) -> (r: usize)
        requires
            self@.wf(),
        ensures
            r == bar_total(self@.mode, self@.n_hosts),
            r == self@.disp.len(),
    {
        assert(self.labels@.len() == texts(self.labels@).len());
        if self.mirrored {
            self.labels.len() * 2
        } else {
            self.labels.len()
        }
    }

    /// Number of labelled bands.
    pub fn band_count(&self) -> (r: usize)
        ensures
            r == self.labels@.len(),
            self@.wf() ==> r == band_total(self@.mode, self@.n_hosts),
    {
        assert(self.labels@.len() == texts(self.labels@).len());
        self.labels.len()
    }

    /// Add one packet's wire length into the accumulator for the active mode.
    pub fn ingest(&mut self, m: &PacketMeta)
        requires
            old(self)@.wf(),
        ensures
            final(self)@ == after_packet(old(self)@, *m),
            final(self)@.wf(),
    {
        let ghost v = self@;
        proof {
            lemma_packet_bar(v, *m);
        }
        let bytes = m.len as u64;
        if m.inbound {
            self.meters.acc_in = self.meters.acc_in.saturating_add(bytes);
        } else {
            self.meters.acc_out = self.meters.acc_out.saturating_add(bytes);
        }
        let bar: Option<usize> = match self.mode {
            Mode::Protocol => Some(proto_band(m)),
            Mode::Ports => Some(port_band(m)),
            Mode::Sizes => Some(size_band(m)),
            Mode::Hybrid => {
                let side: usize = if m.inbound {
                    0
                } else {
                    1
                };
                Some(group_band(m) * 2 + side)
            },
            Mode::Hosts => {
                // Hosts mode ranks the remote endpoint, not the local address.
                let far = if m.inbound {
                    m.src
                } else {
                    m.dst
                };
                credit_host(&mut self.meters.hosts, far, m.len);
                find_slot(&self.meters.host_slots, Some(far))
            },
        };
        if let Some(i) = bar {
            let count = self.meters.acc[i].saturating_add(bytes);
            self.meters.acc.set(i, count);
        }
        assert(self@ =~= after_packet(v, *m));
    }

    /// The auto-gain reference that a tick with these results leads to. The
    /// scaled rates of the tick are relative to it.
    pub fn reference(decayed: Double, bars: &Vec<BarStep>) -> (r: Double)
        requires
            decayed.is_number(),
            forall|i: int| 0 <= i < bars@.len() ==> (#[trigger] bars@[i]).rate.is_number(),
        ensures
            r == raised(decayed, bars@),
            r.is_number(),
    {
        let mut r = decayed.max(Double { bits: RATE_FLOOR });
        let mut i: usize = 0;
        while i < bars.len()
            invariant
                i <= bars@.len(),
                r == raised(decayed, bars@.take(i as int)),
                r.is_number(),
                forall|j: int| 0 <= j < bars@.len() ==> (#[trigger] bars@[j]).rate.is_number(),
            decreases bars@.len() - i,
        {
            assert(bars@.take(i + 1).drop_last() =~= bars@.take(i as int));
            r = r.max(bars[i].rate);
            i += 1;
        }
        assert(bars@.take(i as int) =~= bars@);
        r
    }

    /// The time step that a tick uses for `dt` seconds since the last one. `dt`
    /// is the pattern of any single-precision number, infinite and negative ones
    /// included.
    pub fn time_step(dt: u32) -> (r: Single)
        requires
            !is_nan(dt),
        ensures
            r == step_of(dt),
            r.is_number(),
    {
        if dt < STEP_MIN || dt >= 0x8000_0000 {
            Single { bits: STEP_MIN }
        } else if dt > STEP_MAX {
            Single { bits: STEP_MAX }
        } else {
            Single { bits: dt }
        }
    }

    /// Advance the signal chain: turn the outside results of this tick into new
    /// display values and peak caps, and start counting bytes anew.
    pub fn tick(&mut self, t: &Tick)
        requires
            old(self)@.wf(),
            fits(old(self)@, *t),
        ensures
            final(self)@ == after_tick(old(self)@, *t),
            final(self)@.wf(),
    {
        let ghost v = self@;
        let n = self.disp.len();
        self.meters.clock = t.clock;
        self.rate_in = t.rate_in;
        self.rate_out = t.rate_out;
        self.meters.acc_in = 0;
        self.meters.acc_out = 0;
        assert forall|j: int| 0 <= j < t.bars@.len() implies (#[trigger] t.bars@[j]).rate.is_number() by {
            assert(step_numbers(t.bars@[j]));
        }
        self.meters.max_rate = Spectrum::reference(t.decayed, &t.bars);
        let mut i: usize = 0;
        while i < n
            invariant
                i <= n,
                v == old(self)@,
                v.wf(),
                fits(v, *t),
                n == v.disp.len(),
                self@ == (SpectrumView {
                    rate_ema: self.meters.rate_ema@,
                    disp: self.disp@,
                    peak: self.peak@,
                    peak_hold_until: self.meters.peak_hold_until@,
                    acc: self.meters.acc@,
                    ..after_bars(v, *t)
                }),
                self.meters.rate_ema@.len() == n,
                self.disp@.len() == n,
                self.peak@.len() == n,
                self.meters.peak_hold_until@.len() == n,
                self.meters.acc@.len() == n,
                forall|j: int| 0 <= j < i ==> self.meters.rate_ema@[j] == after_bars(v, *t).rate_ema[j],
                forall|j: int| 0 <= j < i ==> self.disp@[j] == after_bars(v, *t).disp[j],
                forall|j: int| 0 <= j < i ==> self.peak@[j] == after_bars(v, *t).peak[j],
                forall|j: int|
                    0 <= j < i ==> self.meters.peak_hold_until@[j] == after_bars(v, *t).peak_hold_until[j],
                forall|j: int| 0 <= j < i ==> self.meters.acc@[j] == 0,
                forall|j: int| i <= j < n ==> self.disp@[j] == v.disp[j],
                forall|j: int| i <= j < n ==> self.peak@[j] == v.peak[j],
                forall|j: int| i <= j < n ==> self.meters.peak_hold_until@[j] == v.peak_hold_until[j],
            decreases n - i,
        {
            let step = t.bars[i];
            assert(step_numbers(step));
            assert(v.disp[i as int].is_number());
            assert(v.peak[i as int].is_number());
            assert(v.peak_hold_until[i as int].is_number());
            self.meters.rate_ema.set(i, step.ema);
            let level = if step.norm.exceeds(self.disp[i]) {
                step.attacked
            } else {
                step.released
            };
            self.disp.set(i, level);
            if !self.peak[i].exceeds(level) {
                self.peak.set(i, level);
                self.meters.peak_hold_until.set(i, t.hold_until);
            } else if self.meters.clock.exceeds(self.meters.peak_hold_until[i]) {
                self.peak.set(i, step.fallen);
            }
            self.meters.acc.set(i, 0);
            i += 1;
        }
        assert(self@ =~= after_bars(v, *t));
        proof {
            lemma_tick_wf(v, *t);
        }
        if self.mode == Mode::Hosts {
            self.host_tick(&t.hosts);
        }
    }

    /// Periodically refresh host slots while preserving stable bar positions.
    fn host_tick(&mut self, h: &HostTick)
        requires
            old(self)@.wf(),
            old(self)@.mode == Mode::Hosts,
            h.decayed@.len() == old(self)@.hosts.len(),
            all_numbers(h.decayed@),
            is_finite(h.left),
            left_of(h.left) is None ==> h.names@.len() == old(self)@.hosts.len(),
        ensures
            final(self)@ == after_hosts(old(self)@, *h),
    {
        let ghost v = self@;
        let left = decay_hosts(&self.meters.hosts, &h.decayed);
        if let Some(time) = time_left(h.left) {
            self.meters.hosts = left;
            self.meters.host_refresh = time;
            assert(self@ =~= after_hosts(v, *h));
            return;
        }
        self.meters.host_refresh = Single { bits: HOST_REFRESH };
        proof {
            crate::hosts::lemma_survivors_scores(v.hosts, h.decayed@);
        }
        let ranked = rank_hosts(&left);
        let changed = refresh_slots(&mut self.meters.host_slots, &ranked, self.meters.n_hosts);
        let ghost slots = self.meters.host_slots@;
        if changed {
            proof {
                crate::hosts::lemma_refresh_ranked(v.host_slots, ranked@, v.n_hosts, 0);
            }
            let mut labels: Vec<String> = Vec::new();
            let mut i: usize = 0;
            while i < self.meters.host_slots.len()
                invariant
                    i <= slots.len(),
                    slots == self.meters.host_slots@,
                    self.meters.hosts@ == v.hosts,
                    slots == refreshed(v.host_slots, ranked@, v.n_hosts),
                    slots.len() == v.host_slots.len(),
                    distinct_hosts(v.hosts),
                    h.decayed@.len() == v.hosts.len(),
                    h.names@.len() == v.hosts.len(),
                    forall|k: int|
                        0 <= k < ranked@.len() ==> addresses(
                            survivors(v.hosts, h.decayed@),
                        ).contains(#[trigger] ranked@[k]),
                    texts(labels@) == slots.map_values(
                        |slot: Option<Addr>| slot_label(v.hosts, texts(h.names@), slot),
                    ).take(i as int),
                decreases slots.len() - i,
            {
                let ghost before = labels@;
                let ghost target = slots.map_values(
                    |slot: Option<Addr>| slot_label(v.hosts, texts(h.names@), slot),
                );
                let label = match self.meters.host_slots[i] {
                    Some(a) => {
                        proof {
                            crate::hosts::lemma_refresh_ranked(
                                v.host_slots,
                                ranked@,
                                v.n_hosts,
                                i as int,
                            );
                            lemma_ranked_known(v.hosts, h.decayed@, ranked@, 2 * v.n_hosts, a);
                        }
                        match find_host(&self.meters.hosts, a) {
                            Some(k) => {
                                assert(texts(h.names@)[k as int] == h.names@[k as int]@);
                                shorten_ip(h.names[k].as_str())
                            },
                            None => "-".to_owned(),
                        }
                    },
                    None => "-".to_owned(),
                };
                assert(label@ == target[i as int]);
                labels.push(label);
                assert(texts(labels@) =~= texts(before).push(label@));
                assert(texts(labels@) =~= target.take(i + 1));
                i += 1;
            }
            self.labels = labels;
            self.disp = singles(self.meters.n_hosts);
            self.peak = singles(self.meters.n_hosts);
            self.meters.rate_ema = doubles(self.meters.n_hosts);
            self.labels_dirty = true;
        }
        self.meters.hosts = left;
        assert(self@ =~= after_hosts(v, *h));
    }

    /// Smoothed rate of a band for the readout under its label: that of its bar,
    /// or in the hybrid view the pair to add up, inbound first.
    pub fn band_rate(&self, band: usize) -> (r: (Double, Option<Double>))
        requires
            self@.wf(),
            band < band_total(self@.mode, self@.n_hosts),
        ensures
            self@.mode == Mode::Hybrid ==> r == (
                self@.rate_ema[2 * band],
                Some(self@.rate_ema[2 * band + 1]),
            ),
            self@.mode != Mode::Hybrid ==> r == (self@.rate_ema[band as int], None::<Double>),
    {
        if self.mirrored {
            (self.meters.rate_ema[band * 2], Some(self.meters.rate_ema[band * 2 + 1]))
        } else {
            (self.meters.rate_ema[band], None)
        }
    }
}

} // verus!
