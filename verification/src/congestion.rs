//! Delay-based congestion control: the send window, and the retransmission timeout.

use std::collections::HashMap;

use vstd::prelude::*;

use crate::time::{Duration, Instant, NANOS_PER_MILLI, NANOS_PER_SEC};

verus! {

broadcast use vstd::std_specs::hash::group_hash_axioms;

/// The reasons for which the controller refuses an event.
#[derive(Clone, Copy, Debug, PartialEq, Eq, Structural)]
pub enum Error {
    InsufficientWindowSize,
    UnknownSeqNum,
}

/// How a packet is sent: for the first time, or again.
#[derive(Clone, Copy, Debug, PartialEq, Eq, Structural)]
pub enum Transmit {
    Initial { bytes: u32 },
    Retransmission,
}

/// What an acknowledgement says of the path.
#[derive(Clone, Copy, Debug, PartialEq, Eq, Structural)]
pub struct Ack {
    pub delay: Duration,
    pub rtt: Duration,
    pub received_at: Instant,
}

/// The parameters of a controller.
#[derive(Clone, Copy, Debug, PartialEq, Eq, Structural)]
pub struct Config {
    /// The queueing delay to aim at.
    pub target_delay: Duration,
    /// The retransmission timeout before any measurement.
    pub initial_timeout: Duration,
    /// The least retransmission timeout that measurements lead to.
    pub min_timeout: Duration,
    /// The size of the largest packet; the window holds at least two of them.
    pub max_packet_size_bytes: u32,
    /// How much the window may grow in a round trip.
    pub max_window_size_inc_bytes: u32,
    /// How long a delay sample counts towards the base delay.
    pub delay_window: Duration,
}

impl Config {
    /// The target is not zero, and two packets fit in a window.
    pub open spec fn valid(self) -> bool {
        &&& self.target_delay.nanos > 0
        &&& 0 < self.max_packet_size_bytes <= u32::MAX / 2
    }

    /// The least size of the window.
    pub open spec fn min_window(self) -> u32 {
        (2 * self.max_packet_size_bytes) as u32
    }
}

impl Default for Config {
    fn default() -> (config: Self)
        ensures
            config.valid(),
            config.target_delay.nanos == 100 * NANOS_PER_MILLI,
            config.initial_timeout.nanos == NANOS_PER_SEC,
            config.min_timeout.nanos == 500 * NANOS_PER_MILLI,
            config.max_packet_size_bytes == 1024,
            config.max_window_size_inc_bytes == 1024,
            config.delay_window.nanos == 120 * NANOS_PER_SEC,
    {
        Config {
            target_delay: Duration { nanos: 100 * NANOS_PER_MILLI },
            initial_timeout: Duration { nanos: NANOS_PER_SEC },
            min_timeout: Duration { nanos: 500 * NANOS_PER_MILLI },
            max_packet_size_bytes: 1024,
            max_window_size_inc_bytes: 1024,
            delay_window: Duration { nanos: 120 * NANOS_PER_SEC },
        }
    }
}

/// What the controller knows of a packet.
#[derive(Clone, Copy, Debug, PartialEq, Eq, Structural)]
pub struct Transmission {
    pub bytes: u32,
    /// How often the packet was sent, counted up to the largest number of the type.
    pub count: u32,
    /// Whether the packet takes up space in the window.
    pub outstanding: bool,
}

/// A one-way delay, and when the acknowledgement that reported it arrived.
#[derive(Clone, Copy, Debug, PartialEq, Eq, Structural)]
pub struct DelaySample {
    pub delay: Duration,
    pub received_at: Instant,
}

/// The state of a controller.
#[verifier::ext_equal]
pub struct State {
    pub config: Config,
    pub timeout: Duration,
    pub rtt: Duration,
    pub rtt_variance: Duration,
    pub max_window: u32,
    pub transmissions: Map<u16, Transmission>,
    pub delays: Seq<DelaySample>,
}

/// The bytes outstanding under the sequence numbers below `n`.
pub open spec fn outstanding_below(transmissions: Map<u16, Transmission>, n: nat) -> nat
    decreases n,
{
    if n == 0 {
        0
    } else {
        outstanding_below(transmissions, (n - 1) as nat) + outstanding_of(
            transmissions,
            (n - 1) as u16,
        )
    }
}

/// The bytes that one sequence number has outstanding.
pub open spec fn outstanding_of(transmissions: Map<u16, Transmission>, seq_num: u16) -> nat {
    if transmissions.contains_key(seq_num) && transmissions[seq_num].outstanding {
        transmissions[seq_num].bytes as nat
    } else {
        0
    }
}

/// The samples that are no older than `window` at `now`.
pub open spec fn recent(samples: Seq<DelaySample>, now: Instant, window: Duration) -> Seq<
    DelaySample,
>
    decreases samples.len(),
{
    if samples.len() == 0 {
        samples
    } else {
        let before = recent(samples.drop_last(), now, window);
        if now.since(samples.last().received_at).nanos <= window.nanos {
            before.push(samples.last())
        } else {
            before
        }
    }
}

/// The least delay among the samples, or `bound` if none is less.
pub open spec fn least_delay(samples: Seq<DelaySample>, bound: u64) -> u64
    decreases samples.len(),
{
    if samples.len() == 0 {
        bound
    } else {
        let least = least_delay(samples.drop_last(), bound);
        if samples.last().delay.nanos < least {
            samples.last().delay.nanos
        } else {
            least
        }
    }
}

/// By how much the window changes when `bytes` are acknowledged `off_target` away from the target.
pub open spec fn window_change(config: Config, max_window: u32, bytes: u32, off_target: nat) -> nat {
    (config.max_window_size_inc_bytes * off_target * bytes) as nat / (config.target_delay.nanos
        * max_window) as nat
}

/// The window after `bytes` were acknowledged with the given queueing delay: larger while the
/// delay is below the target, smaller above it, never below two packets.
pub open spec fn adjusted_window(
    config: Config,
    max_window: u32,
    bytes: u32,
    queueing: u64,
) -> u32 {
    let target = config.target_delay.nanos;
    if queueing <= target {
        let size = max_window + window_change(config, max_window, bytes, (target - queueing) as nat);
        if size <= u32::MAX {
            size as u32
        } else {
            u32::MAX
        }
    } else {
        let size = max_window - window_change(config, max_window, bytes, (queueing - target) as nat);
        if size >= config.min_window() {
            size as u32
        } else {
            config.min_window()
        }
    }
}

/// The distance between two spans.
pub open spec fn gap(a: Duration, b: Duration) -> nat {
    if a.nanos >= b.nanos {
        (a.nanos - b.nanos) as nat
    } else {
        (b.nanos - a.nanos) as nat
    }
}

impl State {
    /// The state of a new controller.
    pub open spec fn initial(config: Config) -> State {
        State {
            config,
            timeout: config.initial_timeout,
            rtt: Duration { nanos: 0 },
            rtt_variance: Duration { nanos: 0 },
            max_window: config.min_window(),
            transmissions: Map::empty(),
            delays: Seq::empty(),
        }
    }

    /// Whether a packet with this sequence number was sent.
    pub open spec fn knows(self, seq_num: u16) -> bool {
        self.transmissions.contains_key(seq_num)
    }

    /// The bytes that take up space in the window.
    pub open spec fn in_flight(self) -> nat {
        outstanding_below(self.transmissions, 0x1_0000)
    }

    /// The bytes that still fit in the window.
    pub open spec fn available(self) -> nat {
        if self.max_window > self.in_flight() {
            (self.max_window - self.in_flight()) as nat
        } else {
            0
        }
    }

    /// The state after a packet was sent.
    pub open spec fn transmitted(self, seq_num: u16, transmit: Transmit) -> Result<State, Error> {
        match transmit {
            Transmit::Initial { bytes } => if bytes <= self.available() {
                Ok(
                    State {
                        transmissions: self.transmissions.insert(
                            seq_num,
                            Transmission { bytes, count: 1, outstanding: true },
                        ),
                        ..self
                    },
                )
            } else {
                Err(Error::InsufficientWindowSize)
            },
            Transmit::Retransmission => if self.knows(seq_num) {
                let sent = self.transmissions[seq_num];
                Ok(
                    State {
                        transmissions: self.transmissions.insert(
                            seq_num,
                            Transmission {
                                count: if sent.count < u32::MAX {
                                    (sent.count + 1) as u32
                                } else {
                                    sent.count
                                },
                                ..sent
                            },
                        ),
                        ..self
                    },
                )
            } else {
                Err(Error::UnknownSeqNum)
            },
        }
    }

    /// The round-trip estimate and the timeout after a measurement of `rtt`.
    pub open spec fn measured(self, rtt: Duration) -> State {
        let variance = (3 * self.rtt_variance.nanos + gap(self.rtt, rtt)) / 4;
        let smoothed = (7 * self.rtt.nanos + rtt.nanos) / 8;
        let timeout = smoothed + 4 * variance;
        State {
            rtt: Duration { nanos: smoothed as u64 },
            rtt_variance: Duration { nanos: variance as u64 },
            timeout: if timeout <= self.config.min_timeout.nanos {
                self.config.min_timeout
            } else if timeout <= u64::MAX {
                Duration { nanos: timeout as u64 }
            } else {
                Duration { nanos: u64::MAX }
            },
            ..self
        }
    }

    /// The state after a packet was acknowledged.
    ///
    /// The first acknowledgement frees the packet's bytes and adjusts the window by the delay in
    /// excess of the least recent one; it measures the round trip if the packet was sent only
    /// once. Later acknowledgements change nothing.
    pub open spec fn acknowledged(self, seq_num: u16, ack: Ack) -> Result<State, Error> {
        if !self.knows(seq_num) {
            Err(Error::UnknownSeqNum)
        } else if !self.transmissions[seq_num].outstanding {
            Ok(self)
        } else {
            let sent = self.transmissions[seq_num];
            let delays = recent(self.delays, ack.received_at, self.config.delay_window);
            let queueing = (ack.delay.nanos - least_delay(delays, ack.delay.nanos)) as u64;
            let freed = State {
                max_window: adjusted_window(self.config, self.max_window, sent.bytes, queueing),
                transmissions: self.transmissions.insert(
                    seq_num,
                    Transmission { outstanding: false, ..sent },
                ),
                delays: delays.push(
                    DelaySample { delay: ack.delay, received_at: ack.received_at },
                ),
                ..self
            };
            Ok(
                if sent.count == 1 {
                    freed.measured(ack.rtt)
                } else {
                    freed
                },
            )
        }
    }

    /// The state after a packet was found lost: the window halves, and the packet's bytes leave it
    /// unless the packet is sent again.
    pub open spec fn lost(self, seq_num: u16, retransmitting: bool) -> Result<State, Error> {
        if !self.knows(seq_num) {
            Err(Error::UnknownSeqNum)
        } else {
            let half = (self.max_window / 2) as u32;
            let sent = self.transmissions[seq_num];
            Ok(
                State {
                    max_window: if half >= self.config.min_window() {
                        half
                    } else {
                        self.config.min_window()
                    },
                    transmissions: if retransmitting {
                        self.transmissions
                    } else {
                        self.transmissions.insert(
                            seq_num,
                            Transmission { outstanding: false, ..sent },
                        )
                    },
                    ..self
                },
            )
        }
    }

    /// The state after a timeout: the window falls back to its least size, and the timeout doubles.
    pub open spec fn timed_out(self) -> State {
        State {
            max_window: self.config.min_window(),
            timeout: if 2 * self.timeout.nanos <= u64::MAX {
                Duration { nanos: (2 * self.timeout.nanos) as u64 }
            } else {
                Duration { nanos: u64::MAX }
            },
            ..self
        }
    }
}

/// A record under one sequence number changes the outstanding bytes by what that number has.
proof fn lemma_outstanding_insert(
    transmissions: Map<u16, Transmission>,
    seq_num: u16,
    sent: Transmission,
    n: nat,
)
    requires
        n <= 0x1_0000,
    ensures
        outstanding_below(transmissions.insert(seq_num, sent), n) == outstanding_below(
            transmissions,
            n,
        ) + (if seq_num < n {
            outstanding_of(transmissions.insert(seq_num, sent), seq_num) - outstanding_of(
                transmissions,
                seq_num,
            )
        } else {
            0
        }),
    decreases n,
{
    if n > 0 {
        lemma_outstanding_insert(transmissions, seq_num, sent, (n - 1) as nat);
    }
}

/// What one sequence number has outstanding is part of the whole.
pub(crate) proof fn lemma_outstanding_part(transmissions: Map<u16, Transmission>, seq_num: u16, n: nat)
    requires
        seq_num < n <= 0x1_0000,
    ensures
        outstanding_of(transmissions, seq_num) <= outstanding_below(transmissions, n),
    decreases n,
{
    if seq_num < n - 1 {
        lemma_outstanding_part(transmissions, seq_num, (n - 1) as nat);
    }
}

/// Nothing sent, nothing outstanding.
proof fn lemma_outstanding_empty(n: nat)
    ensures
        outstanding_below(Map::empty(), n) == 0,
    decreases n,
{
    if n > 0 {
        lemma_outstanding_empty((n - 1) as nat);
    }
}

/// A congestion controller.
#[derive(Clone, Debug)]
pub struct Controller {
    config: Config,
    timeout: Duration,
    rtt: Duration,
    rtt_variance: Duration,
    /// The bytes that take up space in the window.
    window_size_bytes: u32,
    max_window_size_bytes: u32,
    transmissions: HashMap<u16, Transmission>,
    delays: Vec<DelaySample>,
}

impl View for Controller {
    type V = State;

    closed spec fn view(&self) -> State {
        State {
            config: self.config,
            timeout: self.timeout,
            rtt: self.rtt,
            rtt_variance: self.rtt_variance,
            max_window: self.max_window_size_bytes,
            transmissions: self.transmissions@,
            delays: self.delays@,
        }
    }
}

impl Controller {
    /// The parameters are valid, the window holds at least two packets, and the bytes in flight
    /// are counted.
    pub closed spec fn wf(self) -> bool {
        &&& self.config.valid()
        &&& self.max_window_size_bytes >= self.config.min_window()
        &&& self.window_size_bytes == self@.in_flight()
    }

    /// A controller that has sent nothing.
    pub fn new(config: Config) -> (controller: Self)
        requires
            config.valid(),
        ensures
            controller.wf(),
            controller@ == State::initial(config),
            controller@.in_flight() == 0,
            controller@.available() == config.min_window(),
    {
        proof {
            lemma_outstanding_empty(0x1_0000);
        }
        let controller = Controller {
            config,
            timeout: config.initial_timeout,
            rtt: Duration { nanos: 0 },
            rtt_variance: Duration { nanos: 0 },
            window_size_bytes: 0,
            max_window_size_bytes: 2 * config.max_packet_size_bytes,
            transmissions: HashMap::new(),
            delays: Vec::new(),
        };
        assert(controller@ =~= State::initial(config));
        controller
    }

    /// The retransmission timeout.
    pub fn timeout(&self) -> (timeout: Duration)
        ensures
            timeout == self@.timeout,
    {
        self.timeout
    }

    /// The bytes that still fit in the window.
    pub fn bytes_available_in_window(&self) -> (bytes: u32)
        requires
            self.wf(),
        ensures
            bytes == self@.available(),
    {
        if self.max_window_size_bytes > self.window_size_bytes {
            self.max_window_size_bytes - self.window_size_bytes
        } else {
            0
        }
    }

    /// Accounts for a packet that is sent.
    pub fn on_transmit(&mut self, seq_num: u16, transmit: Transmit) -> (result: Result<(), Error>)
        requires
            old(self).wf(),
        ensures
            final(self).wf(),
            match old(self)@.transmitted(seq_num, transmit) {
                Ok(state) => result is Ok && final(self)@ == state,
                Err(error) => result == Err::<(), Error>(error) && final(self)@ == old(self)@,
            },
    {
        match transmit {
            Transmit::Initial { bytes } => {
                if bytes > self.bytes_available_in_window() {
                    return Err(Error::InsufficientWindowSize);
                }
                let replaced: u32 = match self.transmissions.get(&seq_num) {
                    Some(sent) => if sent.outstanding {
                        sent.bytes
                    } else {
                        0
                    },
                    None => 0,
                };
                let sent = Transmission { bytes, count: 1, outstanding: true };
                proof {
                    lemma_outstanding_insert(self.transmissions@, seq_num, sent, 0x1_0000);
                    lemma_outstanding_part(self.transmissions@, seq_num, 0x1_0000);
                }
                self.window_size_bytes = self.window_size_bytes - replaced + bytes;
                self.transmissions.insert(seq_num, sent);
                Ok(())
            },
            Transmit::Retransmission => {
                let sent = match self.transmissions.get(&seq_num) {
                    Some(sent) => *sent,
                    None => {
                        return Err(Error::UnknownSeqNum);
                    },
                };
                let again = Transmission {
                    bytes: sent.bytes,
                    count: if sent.count < u32::MAX {
                        sent.count + 1
                    } else {
                        sent.count
                    },
                    outstanding: sent.outstanding,
                };
                proof {
                    lemma_outstanding_insert(self.transmissions@, seq_num, again, 0x1_0000);
                }
                self.transmissions.insert(seq_num, again);
                Ok(())
            },
        }
    }

    /// The samples that are no older than the delay window at `now`.
    fn recent_delays(&self, now: Instant) -> (samples: Vec<DelaySample>)
        ensures
            samples@ == recent(self.delays@, now, self.config.delay_window),
    {
        let mut samples: Vec<DelaySample> = Vec::new();
        let mut i: usize = 0;
        while i < self.delays.len()
            invariant
                i <= self.delays@.len(),
                samples@ == recent(self.delays@.take(i as int), now, self.config.delay_window),
            decreases self.delays@.len() - i,
        {
            let sample = self.delays[i];
            assert(self.delays@.take(i + 1).drop_last() == self.delays@.take(i as int));
            if now.duration_since(sample.received_at).nanos <= self.config.delay_window.nanos {
                samples.push(sample);
            }
            i = i + 1;
        }
        assert(self.delays@.take(i as int) == self.delays@);
        samples
    }

    /// The least delay among the samples, or `bound` if none is less.
    fn base_delay(samples: &Vec<DelaySample>, bound: u64) -> (least: u64)
        ensures
            least == least_delay(samples@, bound),
            least <= bound,
    {
        let mut least: u64 = bound;
        let mut i: usize = 0;
        while i < samples.len()
            invariant
                i <= samples@.len(),
                least == least_delay(samples@.take(i as int), bound),
                least <= bound,
            decreases samples@.len() - i,
        {
            assert(samples@.take(i + 1).drop_last() == samples@.take(i as int));
            if samples[i].delay.nanos < least {
                least = samples[i].delay.nanos;
            }
            i = i + 1;
        }
        assert(samples@.take(i as int) == samples@);
        least
    }

    /// The window after `bytes` were acknowledged with the given queueing delay.
    fn window_after(&self, bytes: u32, queueing: u64) -> (size: u32)
        requires
            self.wf(),
        ensures
            size == adjusted_window(self.config, self.max_window_size_bytes, bytes, queueing),
            size >= self.config.min_window(),
    {
        let target: u64 = self.config.target_delay.nanos;
        let off_target: u64 = if queueing <= target {
            target - queueing
        } else {
            queueing - target
        };
        let inc: u32 = self.config.max_window_size_inc_bytes;
        let max_window: u32 = self.max_window_size_bytes;
        assert(inc * off_target <= u32::MAX * u64::MAX) by (nonlinear_arith)
            requires
                0 <= inc <= u32::MAX,
                0 <= off_target <= u64::MAX,
        ;
        assert(0 <= inc * off_target * bytes <= u32::MAX * u64::MAX * u32::MAX)
            by (nonlinear_arith)
            requires
                0 <= inc * off_target <= u32::MAX * u64::MAX,
                0 <= bytes <= u32::MAX,
        ;
        assert(0 < target * max_window <= u64::MAX * u32::MAX) by (nonlinear_arith)
            requires
                0 < target <= u64::MAX,
                0 < max_window <= u32::MAX,
        ;
        let change: u128 = (inc as u128 * off_target as u128 * bytes as u128) / (target as u128
            * max_window as u128);
        assert(change == window_change(self.config, max_window, bytes, off_target as nat));
        if queueing <= target {
            let room: u32 = u32::MAX - max_window;
            if change <= room as u128 {
                max_window + change as u32
            } else {
                u32::MAX
            }
        } else {
            let excess: u32 = max_window - 2 * self.config.max_packet_size_bytes;
            if change <= excess as u128 {
                max_window - change as u32
            } else {
                2 * self.config.max_packet_size_bytes
            }
        }
    }

    /// Takes a measurement of the round trip into the estimate and the timeout.
    fn measure(&mut self, rtt: Duration)
        requires
            old(self).wf(),
        ensures
            final(self).wf(),
            final(self)@ == old(self)@.measured(rtt),
    {
        let gap: u64 = if self.rtt.nanos >= rtt.nanos {
            self.rtt.nanos - rtt.nanos
        } else {
            rtt.nanos - self.rtt.nanos
        };
        let variance: u128 = (3 * self.rtt_variance.nanos as u128 + gap as u128) / 4;
        let smoothed: u128 = (7 * self.rtt.nanos as u128 + rtt.nanos as u128) / 8;
        let timeout: u128 = smoothed + 4 * variance;
        self.rtt = Duration { nanos: smoothed as u64 };
        self.rtt_variance = Duration { nanos: variance as u64 };
        self.timeout = if timeout <= self.config.min_timeout.nanos as u128 {
            self.config.min_timeout
        } else if timeout <= u64::MAX as u128 {
            Duration { nanos: timeout as u64 }
        } else {
            Duration { nanos: u64::MAX }
        };
    }

    /// Accounts for an acknowledgement.
    pub fn on_ack(&mut self, seq_num: u16, ack: Ack) -> (result: Result<(), Error>)
        requires
            old(self).wf(),
        ensures
            final(self).wf(),
            match old(self)@.acknowledged(seq_num, ack) {
                Ok(state) => result is Ok && final(self)@ == state,
                Err(error) => result == Err::<(), Error>(error) && final(self)@ == old(self)@,
            },
    {
        let sent = match self.transmissions.get(&seq_num) {
            Some(sent) => *sent,
            None => {
                return Err(Error::UnknownSeqNum);
            },
        };
        if !sent.outstanding {
            return Ok(());
        }
        let mut delays = self.recent_delays(ack.received_at);
        let queueing: u64 = ack.delay.nanos - Self::base_delay(&delays, ack.delay.nanos);
        let max_window: u32 = self.window_after(sent.bytes, queueing);
        delays.push(DelaySample { delay: ack.delay, received_at: ack.received_at });
        let freed = Transmission { bytes: sent.bytes, count: sent.count, outstanding: false };
        proof {
            lemma_outstanding_insert(self.transmissions@, seq_num, freed, 0x1_0000);
            lemma_outstanding_part(self.transmissions@, seq_num, 0x1_0000);
        }
        self.max_window_size_bytes = max_window;
        self.window_size_bytes = self.window_size_bytes - sent.bytes;
        self.transmissions.insert(seq_num, freed);
        self.delays = delays;
        if sent.count == 1 {
            self.measure(ack.rtt);
        }
        Ok(())
    }

    /// Accounts for a packet found lost.
    pub fn on_lost_packet(&mut self, seq_num: u16, retransmitting: bool) -> (result: Result<
        (),
        Error,
    >)
        requires
            old(self).wf(),
        ensures
            final(self).wf(),
            match old(self)@.lost(seq_num, retransmitting) {
                Ok(state) => result is Ok && final(self)@ == state,
                Err(error) => result == Err::<(), Error>(error) && final(self)@ == old(self)@,
            },
    {
        let sent = match self.transmissions.get(&seq_num) {
            Some(sent) => *sent,
            None => {
                return Err(Error::UnknownSeqNum);
            },
        };
        let half: u32 = self.max_window_size_bytes / 2;
        let min_window: u32 = 2 * self.config.max_packet_size_bytes;
        self.max_window_size_bytes = if half >= min_window {
            half
        } else {
            min_window
        };
        if !retransmitting {
            let freed = Transmission { bytes: sent.bytes, count: sent.count, outstanding: false };
            proof {
                lemma_outstanding_insert(self.transmissions@, seq_num, freed, 0x1_0000);
                lemma_outstanding_part(self.transmissions@, seq_num, 0x1_0000);
            }
            if sent.outstanding {
                self.window_size_bytes = self.window_size_bytes - sent.bytes;
            }
            self.transmissions.insert(seq_num, freed);
        }
        Ok(())
    }

    /// Accounts for a timeout.
    pub fn on_timeout(&mut self)
        requires
            old(self).wf(),
        ensures
            final(self).wf(),
            final(self)@ == old(self)@.timed_out(),
    {
        self.max_window_size_bytes = 2 * self.config.max_packet_size_bytes;
        self.timeout = if self.timeout.nanos <= u64::MAX / 2 {
            Duration { nanos: 2 * self.timeout.nanos }
        } else {
            Duration { nanos: u64::MAX }
        };
    }
}

/// A packet sent for the first time takes up exactly its bytes, and the window is never overrun by
/// it: what is in flight afterwards fits.
pub proof fn law_initial_transmit_takes_its_bytes(state: State, seq_num: u16, bytes: u32)
    requires
        bytes <= state.available(),
        outstanding_of(state.transmissions, seq_num) == 0,
    ensures
        match state.transmitted(seq_num, Transmit::Initial { bytes }) {
            Ok(after) => {
                &&& after.in_flight() == state.in_flight() + bytes
                &&& bytes > 0 ==> after.in_flight() <= after.max_window
                &&& after.available() == state.available() - bytes
            },
            Err(_) => false,
        },
{
    let sent = Transmission { bytes, count: 1, outstanding: true };
    lemma_outstanding_insert(state.transmissions, seq_num, sent, 0x1_0000);
}

/// A packet sent again takes up nothing.
pub proof fn law_retransmission_takes_nothing(state: State, seq_num: u16)
    requires
        state.knows(seq_num),
    ensures
        match state.transmitted(seq_num, Transmit::Retransmission) {
            Ok(after) => after.in_flight() == state.in_flight() && after.available()
                == state.available(),
            Err(_) => false,
        },
{
    let after = state.transmitted(seq_num, Transmit::Retransmission)->Ok_0;
    lemma_outstanding_insert(
        state.transmissions,
        seq_num,
        after.transmissions[seq_num],
        0x1_0000,
    );
}

/// The first acknowledgement of a packet frees exactly its bytes, and a second one frees nothing.
pub proof fn law_ack_frees_bytes_once(state: State, seq_num: u16, ack: Ack, again: Ack)
    requires
        state.knows(seq_num),
    ensures
        match state.acknowledged(seq_num, ack) {
            Ok(after) => {
                &&& after.in_flight() == state.in_flight() - outstanding_of(
                    state.transmissions,
                    seq_num,
                )
                &&& after.acknowledged(seq_num, again) == Ok::<State, Error>(after)
            },
            Err(_) => false,
        },
{
    let sent = state.transmissions[seq_num];
    lemma_outstanding_insert(
        state.transmissions,
        seq_num,
        Transmission { outstanding: false, ..sent },
        0x1_0000,
    );
}

/// Whatever happens, the window holds at least two packets.
pub proof fn law_window_keeps_its_floor(
    state: State,
    seq_num: u16,
    transmit: Transmit,
    ack: Ack,
    retransmitting: bool,
)
    requires
        state.config.valid(),
        state.max_window >= state.config.min_window(),
    ensures
        state.timed_out().max_window >= state.config.min_window(),
        match state.transmitted(seq_num, transmit) {
            Ok(after) => after.max_window >= state.config.min_window(),
            Err(_) => true,
        },
        match state.acknowledged(seq_num, ack) {
            Ok(after) => after.max_window >= state.config.min_window(),
            Err(_) => true,
        },
        match state.lost(seq_num, retransmitting) {
            Ok(after) => after.max_window >= state.config.min_window(),
            Err(_) => true,
        },
{
}

/// A delay at or below the target never shrinks the window, and one above it never widens it.
pub proof fn law_window_follows_delay(config: Config, max_window: u32, bytes: u32, queueing: u64)
    requires
        config.valid(),
        max_window >= config.min_window(),
    ensures
        queueing <= config.target_delay.nanos ==> adjusted_window(
            config,
            max_window,
            bytes,
            queueing,
        ) >= max_window,
        queueing >= config.target_delay.nanos ==> adjusted_window(
            config,
            max_window,
            bytes,
            queueing,
        ) <= max_window,
{
    if queueing == config.target_delay.nanos {
        assert(config.max_window_size_inc_bytes * 0 * bytes == 0) by (nonlinear_arith);
        assert(0 < config.target_delay.nanos * max_window) by (nonlinear_arith)
            requires
                0 < config.target_delay.nanos,
                0 < max_window,
        ;
        assert(window_change(config, max_window, bytes, 0) == 0);
    }
}

/// A controller has in flight what its packets have outstanding: nothing if none has anything, and
/// as much as another controller if each has as much as there.
pub proof fn law_in_flight_is_what_is_outstanding(one: State, other: State)
    ensures
        (forall|seq_num: u16| #[trigger] outstanding_of(one.transmissions, seq_num) == 0)
            ==> one.in_flight() == 0 && one.available() == one.max_window,
        (forall|seq_num: u16| #[trigger]
            outstanding_of(one.transmissions, seq_num) == outstanding_of(
                other.transmissions,
                seq_num,
            )) ==> one.in_flight() == other.in_flight(),
        forall|seq_num: u16| #[trigger]
            outstanding_of(one.transmissions, seq_num) <= one.in_flight(),
{
    if forall|seq_num: u16| #[trigger] outstanding_of(one.transmissions, seq_num) == 0 {
        lemma_outstanding_none(one.transmissions, 0x1_0000);
    }
    if forall|seq_num: u16| #[trigger]
        outstanding_of(one.transmissions, seq_num) == outstanding_of(other.transmissions, seq_num) {
        lemma_outstanding_alike(one.transmissions, other.transmissions, 0x1_0000);
    }
    assert forall|seq_num: u16| #[trigger]
        outstanding_of(one.transmissions, seq_num) <= one.in_flight() by {
        lemma_outstanding_part(one.transmissions, seq_num, 0x1_0000);
    }
}

/// Where no number has anything outstanding, the sum is zero.
proof fn lemma_outstanding_none(transmissions: Map<u16, Transmission>, n: nat)
    requires
        n <= 0x1_0000,
        forall|seq_num: u16| #[trigger] outstanding_of(transmissions, seq_num) == 0,
    ensures
        outstanding_below(transmissions, n) == 0,
    decreases n,
{
    if n > 0 {
        lemma_outstanding_none(transmissions, (n - 1) as nat);
    }
}

/// Where each number has as much outstanding, the sums agree.
proof fn lemma_outstanding_alike(
    one: Map<u16, Transmission>,
    other: Map<u16, Transmission>,
    n: nat,
)
    requires
        n <= 0x1_0000,
        forall|seq_num: u16| #[trigger]
            outstanding_of(one, seq_num) == outstanding_of(other, seq_num),
    ensures
        outstanding_below(one, n) == outstanding_below(other, n),
    decreases n,
{
    if n > 0 {
        lemma_outstanding_alike(one, other, (n - 1) as nat);
        assert(outstanding_of(one, (n - 1) as u16) == outstanding_of(other, (n - 1) as u16));
    }
}

/// A packet that is sent is known from then on with its bytes, the packets sent before stay as
/// they are, and sending alone changes neither the window nor the timeout.
pub proof fn law_transmit_notes_one_packet(state: State, seq_num: u16, bytes: u32)
    requires
        bytes <= state.available(),
    ensures
        match state.transmitted(seq_num, Transmit::Initial { bytes }) {
            Ok(after) => {
                &&& after.knows(seq_num)
                &&& after.transmissions[seq_num].bytes == bytes
                &&& after.transmissions[seq_num].outstanding
                &&& after.transmissions[seq_num].count == 1
                &&& after.transmissions.remove(seq_num) == state.transmissions.remove(seq_num)
                &&& after.max_window == state.max_window
                &&& after.timeout == state.timeout
                &&& after.rtt == state.rtt
                &&& after.rtt_variance == state.rtt_variance
                &&& after.delays == state.delays
                &&& after.config == state.config
            },
            Err(_) => false,
        },
{
    let after = state.transmitted(seq_num, Transmit::Initial { bytes })->Ok_0;
    assert(after.transmissions.remove(seq_num) =~= state.transmissions.remove(seq_num));
}

/// A packet for which there is no space is refused, and so is any event of a packet never sent.
pub proof fn law_controller_refuses(
    state: State,
    seq_num: u16,
    bytes: u32,
    ack: Ack,
    retransmitting: bool,
)
    ensures
        state.in_flight() + bytes > state.max_window && bytes > 0 ==> state.transmitted(
            seq_num,
            Transmit::Initial { bytes },
        ) == Err::<State, Error>(Error::InsufficientWindowSize),
        state.in_flight() + bytes <= state.max_window ==> state.transmitted(
            seq_num,
            Transmit::Initial { bytes },
        ) is Ok,
        !state.transmissions.contains_key(seq_num) ==> {
            &&& state.transmitted(seq_num, Transmit::Retransmission) == Err::<State, Error>(
                Error::UnknownSeqNum,
            )
            &&& state.acknowledged(seq_num, ack) == Err::<State, Error>(Error::UnknownSeqNum)
            &&& state.lost(seq_num, retransmitting) == Err::<State, Error>(Error::UnknownSeqNum)
        },
        state.transmissions.contains_key(seq_num) ==> {
            &&& state.transmitted(seq_num, Transmit::Retransmission) is Ok
            &&& state.acknowledged(seq_num, ack) is Ok
            &&& state.lost(seq_num, retransmitting) is Ok
        },
{
}

/// Sending a packet again touches nothing but the count of how often it was sent, which leaves
/// one behind for good: from then on its acknowledgement measures no round trip.
pub proof fn law_round_trip_is_measured_only_if_sent_once(state: State, seq_num: u16, ack: Ack)
    requires
        state.knows(seq_num),
        state.transmissions[seq_num].count >= 1,
    ensures
        ({
            let again = state.transmitted(seq_num, Transmit::Retransmission)->Ok_0;
            let sent = state.transmissions[seq_num];
            &&& again.transmissions[seq_num].count > 1
            &&& again.transmissions[seq_num].bytes == sent.bytes
            &&& again.transmissions[seq_num].outstanding == sent.outstanding
            &&& again.transmissions.remove(seq_num) == state.transmissions.remove(seq_num)
            &&& again.max_window == state.max_window
            &&& again.timeout == state.timeout
            &&& again.rtt == state.rtt
            &&& again.rtt_variance == state.rtt_variance
            &&& again.delays == state.delays
            &&& again.config == state.config
        }),
        state.transmissions[seq_num].count > 1 ==> {
            let after = state.acknowledged(seq_num, ack)->Ok_0;
            &&& after.rtt == state.rtt
            &&& after.rtt_variance == state.rtt_variance
            &&& after.timeout == state.timeout
        },
{
    let again = state.transmitted(seq_num, Transmit::Retransmission)->Ok_0;
    assert(again.transmissions.remove(seq_num) =~= state.transmissions.remove(seq_num));
}

/// A measurement moves the estimate an eighth of the way to the sample and the variance a quarter
/// of the way to the deviation, rounded down; the timeout is the estimate and four times the
/// variance, but at least the configured one.
pub proof fn law_measurement(state: State, seq_num: u16, ack: Ack)
    requires
        state.knows(seq_num),
        state.transmissions[seq_num].outstanding,
        state.transmissions[seq_num].count == 1,
    ensures
        ({
            let after = state.acknowledged(seq_num, ack)->Ok_0;
            let sum = 7 * state.rtt.nanos + ack.rtt.nanos;
            let deviation = if state.rtt.nanos >= ack.rtt.nanos {
                state.rtt.nanos - ack.rtt.nanos
            } else {
                ack.rtt.nanos - state.rtt.nanos
            };
            let spread = 3 * state.rtt_variance.nanos + deviation;
            let timeout = after.rtt.nanos + 4 * after.rtt_variance.nanos;
            &&& 8 * after.rtt.nanos <= sum < 8 * after.rtt.nanos + 8
            &&& 4 * after.rtt_variance.nanos <= spread < 4 * after.rtt_variance.nanos + 4
            &&& after.timeout.nanos >= state.config.min_timeout.nanos
            &&& after.timeout.nanos > state.config.min_timeout.nanos ==> after.timeout.nanos
                == timeout || after.timeout.nanos == u64::MAX < timeout
            &&& after.timeout.nanos == state.config.min_timeout.nanos ==> timeout
                <= after.timeout.nanos || after.timeout.nanos == u64::MAX
        }),
{
}

/// An acknowledgement that counts adds its delay as the latest sample, and lets only samples go
/// that are older than the delay window. It changes the record of its own packet alone, of which
/// it keeps the bytes and the count.
pub proof fn law_ack_notes_its_delay(state: State, seq_num: u16, ack: Ack, sample: DelaySample)
    requires
        state.knows(seq_num),
        state.transmissions[seq_num].outstanding,
    ensures
        ({
            let after = state.acknowledged(seq_num, ack)->Ok_0;
            let age = if ack.received_at.nanos >= sample.received_at.nanos {
                ack.received_at.nanos - sample.received_at.nanos
            } else {
                0
            };
            &&& after.delays.len() > 0
            &&& after.delays.last().delay == ack.delay
            &&& after.delays.last().received_at == ack.received_at
            &&& after.delays.drop_last().contains(sample) <==> state.delays.contains(sample) && age
                <= state.config.delay_window.nanos
            &&& after.config == state.config
            &&& after.transmissions.remove(seq_num) == state.transmissions.remove(seq_num)
            &&& after.transmissions[seq_num].bytes == state.transmissions[seq_num].bytes
            &&& after.transmissions[seq_num].count == state.transmissions[seq_num].count
            &&& !after.transmissions[seq_num].outstanding
        }),
{
    let after = state.acknowledged(seq_num, ack)->Ok_0;
    let kept = recent(state.delays, ack.received_at, state.config.delay_window);
    assert(after.delays.drop_last() == kept);
    lemma_recent(state.delays, ack.received_at, state.config.delay_window, sample);
    assert(after.transmissions.remove(seq_num) =~= state.transmissions.remove(seq_num));
}

/// The recent samples are those of the right age.
proof fn lemma_recent(
    samples: Seq<DelaySample>,
    now: Instant,
    window: Duration,
    sample: DelaySample,
)
    ensures
        recent(samples, now, window).contains(sample) <==> samples.contains(sample) && now.since(
            sample.received_at,
        ).nanos <= window.nanos,
    decreases samples.len(),
{
    if samples.len() > 0 {
        let rest = samples.drop_last();
        let before = recent(rest, now, window);
        lemma_recent(rest, now, window, sample);
        assert(samples == rest.push(samples.last()));
        if samples.contains(sample) {
            let i = choose|i: int| 0 <= i < samples.len() && samples[i] == sample;
            if i < rest.len() {
                assert(rest[i] == sample);
            }
        }
        if rest.contains(sample) {
            let i = choose|i: int| 0 <= i < rest.len() && rest[i] == sample;
            assert(samples[i] == sample);
        }
        assert(samples[samples.len() - 1] == samples.last());
        let after = recent(samples, now, window);
        if before.contains(sample) {
            let i = choose|i: int| 0 <= i < before.len() && before[i] == sample;
            assert(after[i] == sample);
        }
        if after.contains(sample) && after != before {
            let i = choose|i: int| 0 <= i < after.len() && after[i] == sample;
            if i < before.len() {
                assert(before[i] == sample);
            }
        }
        if now.since(samples.last().received_at).nanos <= window.nanos {
            assert(after[after.len() - 1] == samples.last());
        }
    }
}

/// The base delay is the least of the samples and the bound: none is less, and it is one of them.
pub proof fn law_base_delay_is_least(samples: Seq<DelaySample>, bound: u64)
    ensures
        least_delay(samples, bound) <= bound,
        forall|i: int|
            0 <= i < samples.len() ==> least_delay(samples, bound) <= (
            #[trigger] samples[i]).delay.nanos,
        least_delay(samples, bound) == bound || exists|i: int|
            0 <= i < samples.len() && (#[trigger] samples[i]).delay.nanos == least_delay(
                samples,
                bound,
            ),
    decreases samples.len(),
{
    if samples.len() > 0 {
        let rest = samples.drop_last();
        law_base_delay_is_least(rest, bound);
        let least = least_delay(samples, bound);
        assert forall|i: int| 0 <= i < samples.len() implies least <= (
        #[trigger] samples[i]).delay.nanos by {
            if i < rest.len() {
                assert(least_delay(rest, bound) <= rest[i].delay.nanos);
            }
        }
        if least != bound {
            if least == least_delay(rest, bound) {
                let i = choose|i: int|
                    0 <= i < rest.len() && (#[trigger] rest[i]).delay.nanos == least;
                assert(samples[i].delay.nanos == least);
            } else {
                assert(samples[samples.len() - 1].delay.nanos == least);
            }
        }
    }
}

/// An acknowledgement that counts moves the window by the bytes it frees, in the proportion in
/// which its queueing delay, the delay above the least recent one, misses the target: a whole
/// window of bytes without queueing widens it by the configured step.
pub proof fn law_ack_moves_the_window(state: State, seq_num: u16, ack: Ack)
    requires
        state.config.valid(),
        state.max_window >= state.config.min_window(),
        state.knows(seq_num),
        state.transmissions[seq_num].outstanding,
    ensures
        ({
            let after = state.acknowledged(seq_num, ack)->Ok_0;
            let kept = after.delays.drop_last();
            let queueing = ack.delay.nanos - least_delay(kept, ack.delay.nanos);
            let target = state.config.target_delay.nanos;
            let off_target = if queueing <= target {
                target - queueing
            } else {
                queueing - target
            };
            let moved = if after.max_window >= state.max_window {
                after.max_window - state.max_window
            } else {
                state.max_window - after.max_window
            };
            let weight = state.config.max_window_size_inc_bytes * off_target
                * state.transmissions[seq_num].bytes;
            let unit = target * state.max_window;
            &&& queueing <= target ==> after.max_window >= state.max_window
            &&& queueing >= target ==> after.max_window <= state.max_window
            &&& moved * unit <= weight
            &&& after.max_window == u32::MAX || after.max_window == 2
                * state.config.max_packet_size_bytes || weight < (moved + 1) * unit
        }),
{
    let after = state.acknowledged(seq_num, ack)->Ok_0;
    let kept = recent(state.delays, ack.received_at, state.config.delay_window);
    assert(after.delays.drop_last() == kept);
    law_base_delay_is_least(kept, ack.delay.nanos);
    let bytes = state.transmissions[seq_num].bytes;
    let queueing = (ack.delay.nanos - least_delay(kept, ack.delay.nanos)) as u64;
    let target = state.config.target_delay.nanos;
    law_window_follows_delay(state.config, state.max_window, bytes, queueing);
    let off_target = if queueing <= target {
        (target - queueing) as nat
    } else {
        (queueing - target) as nat
    };
    let inc = state.config.max_window_size_inc_bytes;
    let weight = inc * off_target * bytes;
    let unit = target * state.max_window;
    assert(weight >= 0) by (nonlinear_arith)
        requires
            weight == inc * off_target * bytes,
            inc >= 0,
            off_target >= 0,
            bytes >= 0,
    ;
    assert(unit > 0) by (nonlinear_arith)
        requires
            unit == target * state.max_window,
            target > 0,
            state.max_window > 0,
    ;
    let change = window_change(state.config, state.max_window, bytes, off_target) as int;
    assert(change * unit <= weight < (change + 1) * unit) by (nonlinear_arith)
        requires
            change == weight / unit,
            weight >= 0,
            unit > 0,
    ;
    let moved = if after.max_window >= state.max_window {
        after.max_window - state.max_window
    } else {
        state.max_window - after.max_window
    };
    assert(0 <= moved <= change);
    assert(moved * unit <= change * unit) by (nonlinear_arith)
        requires
            0 <= moved <= change,
            unit > 0,
    ;
}

/// A loss halves the window, down to two packets. The bytes of the packet leave the window unless
/// it is sent again, and nothing else changes.
pub proof fn law_loss_halves_the_window(state: State, seq_num: u16, retransmitting: bool)
    requires
        state.config.valid(),
        state.knows(seq_num),
    ensures
        ({
            let after = state.lost(seq_num, retransmitting)->Ok_0;
            let least = 2 * state.config.max_packet_size_bytes;
            &&& after.max_window == least || 2 * after.max_window <= state.max_window <= 2
                * after.max_window + 1
            &&& after.max_window >= least
            &&& after.max_window == least ==> state.max_window <= 2 * least + 1
            &&& after.in_flight() == state.in_flight() - (if retransmitting {
                0
            } else {
                outstanding_of(state.transmissions, seq_num) as int
            })
            &&& outstanding_of(after.transmissions, seq_num) == if retransmitting {
                outstanding_of(state.transmissions, seq_num)
            } else {
                0
            }
            &&& after.transmissions.remove(seq_num) == state.transmissions.remove(seq_num)
            &&& after.knows(seq_num)
            &&& after.transmissions[seq_num].bytes == state.transmissions[seq_num].bytes
            &&& after.transmissions[seq_num].count == state.transmissions[seq_num].count
            &&& after.timeout == state.timeout
            &&& after.rtt == state.rtt
            &&& after.rtt_variance == state.rtt_variance
            &&& after.delays == state.delays
            &&& after.config == state.config
        }),
{
    let after = state.lost(seq_num, retransmitting)->Ok_0;
    let sent = state.transmissions[seq_num];
    lemma_outstanding_insert(
        state.transmissions,
        seq_num,
        Transmission { outstanding: false, ..sent },
        0x1_0000,
    );
    assert(after.transmissions.remove(seq_num) =~= state.transmissions.remove(seq_num));
}

/// A timeout doubles the timeout, as far as it can be counted, and leaves room for two packets;
/// what is in flight stays so.
pub proof fn law_timeout_backs_off(state: State)
    requires
        state.config.valid(),
    ensures
        ({
            let after = state.timed_out();
            &&& after.max_window == 2 * state.config.max_packet_size_bytes
            &&& after.timeout.nanos == 2 * state.timeout.nanos || after.timeout.nanos == u64::MAX
                < 2 * state.timeout.nanos
            &&& after.in_flight() == state.in_flight()
            &&& after.transmissions == state.transmissions
            &&& after.rtt == state.rtt
            &&& after.rtt_variance == state.rtt_variance
            &&& after.delays == state.delays
            &&& after.config == state.config
        }),
{
}

/// A new controller has nothing in flight, room for two packets, and the configured timeout.
pub proof fn law_new_controller(config: Config, seq_num: u16)
    requires
        config.valid(),
    ensures
        ({
            let state = State::initial(config);
            &&& !state.knows(seq_num)
            &&& state.in_flight() == 0
            &&& state.available() == 2 * config.max_packet_size_bytes
            &&& state.timeout == config.initial_timeout
            &&& state.config == config
        }),
{
    lemma_outstanding_empty(0x1_0000);
}

} // verus!
