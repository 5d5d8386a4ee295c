//! Bookkeeping of exchanges with the firmware: commands are encoded,
//! framed with the next sequence number and queued for the writer; frames
//! that arrive are decoded and matched to the exchange that awaits them.
//! Reading and writing the transport is left to the caller.
use vstd::prelude::*;
use crate::command::field_entries;
use crate::data::MessageDef;
use crate::data::Registry;
use crate::frame::Frame;
use crate::frame::FrameDecoder;
use crate::frame::MAX_PAYLOAD;
use crate::frame::encode_frame;
use crate::frame::frame_check;
use crate::frame::frame_payload;
use crate::frame::frame_sequence;
use crate::frame::frame_spec;
use crate::frame::resync_skip;
use crate::message::Decoded;
use crate::message::FieldValue;
use crate::message::MessageError;
use crate::message::ValueModel;
use crate::message::args_match;
use crate::message::encode_command;
use crate::message::encode_values;
use crate::message::lengths_fit;
use crate::message::message_result;
use crate::message::named_view;
use crate::varint::encode_spec;

verus! {

/// When an exchange has to happen. `Command` bounds, in firmware clock
/// ticks, when the firmware may and must run the command; `Send` records,
/// in host microseconds, when a round-trip request was sent and answered.
#[derive(Debug, Clone, Copy, PartialEq, Eq, Structural)]
pub enum Clock {
    Command { minimum: u64, required: u64 },
    Send { sent: u64, received: u64 },
}

/// Conditions reported to the caller, who decides what to do about them.
#[derive(Debug, Clone, PartialEq, Eq)]
pub enum Error {
    TimerTooClose,
    /// The named command's required clock passed before it completed.
    MissedSchedule(String),
    AdcOutOfRange,
    /// A command was scheduled in the past.
    TimeParadox,
    /// The named exchange got no answer within the caller's timeout.
    Timeout(String),
}

/// A command sent and not yet answered.
#[derive(Debug, Clone)]
pub struct PendingExchange {
    pub sequence: u8,
    /// Name of the command.
    pub name: String,
    /// Host time at which it was queued.
    pub sent_at: u64,
    pub clock: Clock,
}

/// Why a command was not queued.
#[derive(Debug, Clone, Copy, PartialEq, Eq, Structural)]
pub enum SendError {
    /// No command has this name.
    NotFound,
    /// The values do not fit the command's fields.
    Encode(MessageError),
    /// The encoded command does not fit in one frame.
    PayloadTooLong,
    /// The command's required clock is already past.
    TimeParadox,
    /// The next sequence number still belongs to an unanswered exchange;
    /// try again once it is answered or expired.
    Busy,
}

/// Something that arrived from the firmware.
#[derive(Debug)]
pub enum Inbound {
    /// The answer to a pending exchange, which is now closed.
    Response { exchange: PendingExchange, id: u8, message: Decoded },
    /// A message that answers no pending exchange.
    Notification { sequence: u8, id: u8, message: Decoded },
    /// A valid frame whose payload could not be decoded.
    Error { sequence: u8, error: MessageError },
}

/// An exchange removed because its deadline passed.
#[derive(Debug)]
pub struct Expired {
    pub exchange: PendingExchange,
    pub reason: Error,
}

/// The state of one session with the firmware.
#[derive(Debug)]
pub struct ProtocolQueue {
    pub registry: Registry,
    pub decoder: FrameDecoder,
    /// Sequence number of the next command, below 16.
    pub next_seq: u8,
    pub pending: Vec<PendingExchange>,
    /// Framed commands not yet taken by the writer, in the order queued.
    pub outbox: Vec<u8>,
}

/// Some pending exchange has sequence number `s`.
pub open spec fn seq_in_use(p: Seq<PendingExchange>, s: u8) -> bool {
    exists|i: int| 0 <= i < p.len() && (#[trigger] p[i]).sequence == s
}

/// Some command is named `name`.
pub open spec fn has_command(cs: Seq<MessageDef>, name: Seq<char>) -> bool {
    exists|i: int| 0 <= i < cs.len() && (#[trigger] cs[i]).command.name@ == name
}

/// The clock is a schedule whose required time is before `now`.
pub open spec fn past_deadline(c: Clock, now: u64) -> bool {
    c matches Clock::Command { required, .. } && required < now
}

/// The exchange's scheduled command should already have run.
pub open spec fn missed_schedule(x: PendingExchange, now: u64) -> bool {
    past_deadline(x.clock, now)
}

/// The exchange has waited longer than `timeout`.
pub open spec fn timed_out(x: PendingExchange, now: u64, timeout: u64) -> bool {
    now >= x.sent_at && now - x.sent_at > timeout
}

pub open spec fn is_expired(x: PendingExchange, now: u64, timeout: u64) -> bool {
    missed_schedule(x, now) || timed_out(x, now, timeout)
}

/// The exchanges of `p` that have not expired, in order.
pub open spec fn keep_live(p: Seq<PendingExchange>, now: u64, timeout: u64) -> Seq<PendingExchange>
    decreases p.len(),
{
    if p.len() == 0 {
        Seq::empty()
    } else {
        let r = keep_live(p.drop_last(), now, timeout);
        if is_expired(p.last(), now, timeout) {
            r
        } else {
            r.push(p.last())
        }
    }
}

/// The exchanges of `p` that have expired, in order.
pub open spec fn take_expired(p: Seq<PendingExchange>, now: u64, timeout: u64) -> Seq<PendingExchange>
    decreases p.len(),
{
    if p.len() == 0 {
        Seq::empty()
    } else {
        let r = take_expired(p.drop_last(), now, timeout);
        if is_expired(p.last(), now, timeout) {
            r.push(p.last())
        } else {
            r
        }
    }
}

/// The reason given for an expired exchange names it: a missed schedule
/// when its required clock passed, a timeout otherwise.
pub open spec fn reason_fits(e: Expired, now: u64) -> bool {
    if missed_schedule(e.exchange, now) {
        e.reason matches Error::MissedSchedule(n) && n@ == e.exchange.name@
    } else {
        e.reason matches Error::Timeout(n) && n@ == e.exchange.name@
    }
}

/// The byte sequences one after the other.
pub open spec fn concat_all(fs: Seq<Seq<u8>>) -> Seq<u8>
    decreases fs.len(),
{
    if fs.len() == 0 {
        Seq::empty()
    } else {
        concat_all(fs.drop_last()) + fs.last()
    }
}

/// Output keeps the order in which it was queued: when each of a run of
/// sends appends its frame to the outbox, as `send` does, the outbox ends
/// with the frames one after the other in the order they were sent.
pub proof fn lemma_outbox_order(outboxes: Seq<Seq<u8>>, frames: Seq<Seq<u8>>)
    requires
        outboxes.len() == frames.len() + 1,
        forall|i: int| 0 <= i < frames.len() ==> #[trigger] outboxes[i + 1] == outboxes[i] + frames[i],
    ensures
        outboxes.last() == outboxes[0] + concat_all(frames),
    decreases frames.len(),
{
    if frames.len() > 0 {
        let n = frames.len();
        assert forall|i: int| 0 <= i < frames.drop_last().len() implies #[trigger] outboxes.drop_last()[i + 1]
            == outboxes.drop_last()[i] + frames.drop_last()[i] by {
            assert(outboxes[i + 1] == outboxes[i] + frames[i]);
        }
        lemma_outbox_order(outboxes.drop_last(), frames.drop_last());
        assert(outboxes[n as int] == outboxes[n - 1] + frames[n - 1]);
        assert(outboxes.last() =~= outboxes[0] + concat_all(frames));
    } else {
        assert(outboxes[0] + concat_all(frames) =~= outboxes[0]);
    }
}

/// What sending the command `def` with `values` at `now` comes to, from
/// `q`: the error, or the payload to frame.
pub open spec fn send_outcome(
    q: ProtocolQueue,
    def: MessageDef,
    values: Seq<(String, FieldValue)>,
    clock: Clock,
    now: u64,
) -> Result<Seq<u8>, SendError> {
    let fs = field_entries(def.command.fields);
    let vs = named_view(values);
    let payload = encode_spec(def.id as i32) + encode_values(vs);
    if !args_match(fs, vs) {
        Err(SendError::Encode(MessageError::ArgumentMismatch))
    } else if !lengths_fit(vs) {
        Err(SendError::Encode(MessageError::TooLong))
    } else if payload.len() > MAX_PAYLOAD {
        Err(SendError::PayloadTooLong)
    } else if past_deadline(clock, now) {
        Err(SendError::TimeParadox)
    } else if seq_in_use(q.pending@, q.next_seq) {
        Err(SendError::Busy)
    } else {
        Ok(payload)
    }
}

impl ProtocolQueue {
    /// The registry is well formed and the sequence number has four bits.
    pub open spec fn wf(&self) -> bool {
        &&& self.registry.wf()
        &&& self.next_seq < 16
    }

    /// A session over `registry`, with nothing sent or received.
    pub fn new(registry: Registry) -> (r: ProtocolQueue)
        requires
            registry.wf(),
        ensures
            r.wf(),
            r.registry == registry,
            r.decoder.buf@.len() == 0,
            r.decoder.discarded == 0,
            r.next_seq == 0,
            r.pending@.len() == 0,
            r.outbox@.len() == 0,
    {
        ProtocolQueue {
            registry,
            decoder: FrameDecoder::new(),
            next_seq: 0,
            pending: Vec::new(),
            outbox: Vec::new(),
        }
    }

    fn sequence_in_use(&self, s: u8) -> (r: bool)
        ensures
            r == seq_in_use(self.pending@, s),
    {
        let mut i: usize = 0;
        while i < self.pending.len()
            invariant
                i <= self.pending@.len(),
                forall|j: int| 0 <= j < i ==> (#[trigger] self.pending@[j]).sequence != s,
            decreases self.pending@.len() - i,
        {
            if self.pending[i].sequence == s {
                return true;
            }
            i += 1;
        }
        false
    }

    /// Queues the command `name` with `values`: it is encoded, framed with
    /// the next sequence number and appended to the outbox, and an exchange
    /// is opened for it. On an error nothing changes.
    pub fn send(&mut self, name: &str, values: &Vec<(String, FieldValue)>, clock: Clock, now: u64) -> (r: Result<u8, SendError>)
        requires
            old(self).wf(),
        ensures
            final(self).wf(),
            final(self).registry == old(self).registry,
            final(self).decoder == old(self).decoder,
            r is Err ==> final(self).pending == old(self).pending && final(self).outbox
                == old(self).outbox && final(self).next_seq == old(self).next_seq,
            !has_command(old(self).registry.commands@, name@) ==> r == Err::<u8, SendError>(
                SendError::NotFound,
            ),
            forall|i: int|
                0 <= i < old(self).registry.commands@.len() && (#[trigger] old(
                    self,
                ).registry.commands@[i]).command.name@ == name@ ==> match send_outcome(
                    *old(self),
                    old(self).registry.commands@[i],
                    values@,
                    clock,
                    now,
                ) {
                    Err(e) => r == Err::<u8, SendError>(e),
                    Ok(payload) => {
                        &&& r == Ok::<u8, SendError>(old(self).next_seq)
                        &&& final(self).outbox@ == old(self).outbox@ + frame_spec(
                            old(self).next_seq,
                            payload,
                        )
                        &&& final(self).next_seq == (old(self).next_seq + 1) % 16
                        &&& final(self).pending@.len() == old(self).pending@.len() + 1
                        &&& final(self).pending@.drop_last() == old(self).pending@
                        &&& final(self).pending@.last().sequence == old(self).next_seq
                        &&& final(self).pending@.last().name@ == name@
                        &&& final(self).pending@.last().sent_at == now
                        &&& final(self).pending@.last().clock == clock
                    },
                },
    {
        let ghost pre = *self;
        let def = match self.registry.lookup_command(name) {
            Some(d) => d,
            None => {
                return Err(SendError::NotFound);
            },
        };
        proof {
            let j = choose|j: int| 0 <= j < pre.registry.commands@.len() && pre.registry.commands@[j] == *def;
            assert forall|i: int|
                0 <= i < pre.registry.commands@.len() && (#[trigger] pre.registry.commands@[i]).command.name@ == name@
                implies pre.registry.commands@[i] == *def by {
                let mv = crate::data::messages_view(pre.registry.commands@);
                assert(mv[i].1.name == mv[j].1.name);
            }
        }
        let payload = match encode_command(def, values) {
            Ok(p) => p,
            Err(e) => {
                return Err(SendError::Encode(e));
            },
        };
        if payload.len() > MAX_PAYLOAD {
            return Err(SendError::PayloadTooLong);
        }
        if let Clock::Command { required, .. } = clock {
            if required < now {
                return Err(SendError::TimeParadox);
            }
        }
        if self.sequence_in_use(self.next_seq) {
            return Err(SendError::Busy);
        }
        let seq = self.next_seq;
        let frame = encode_frame(seq, payload.as_slice());
        let ghost start = self.outbox@;
        let mut i: usize = 0;
        while i < frame.len()
            invariant
                i <= frame@.len(),
                self.outbox@ == start + frame@.take(i as int),
                self.registry == pre.registry,
                self.decoder == pre.decoder,
                self.pending == pre.pending,
                self.next_seq == pre.next_seq,
            decreases frame@.len() - i,
        {
            self.outbox.push(frame[i]);
            i += 1;
            assert(self.outbox@ =~= start + frame@.take(i as int));
        }
        assert(frame@.take(i as int) =~= frame@);
        self.pending.push(PendingExchange { sequence: seq, name: name.to_owned(), sent_at: now, clock });
        self.next_seq = (seq + 1) % 16;
        assert(self.pending@.drop_last() =~= pre.pending@);
        Ok(seq)
    }

    /// Hands received bytes to the frame decoder.
    pub fn receive(&mut self, data: &[u8])
        ensures
            final(self).decoder.buf@ == old(self).decoder.buf@ + data@,
            final(self).decoder.discarded == old(self).decoder.discarded,
            final(self).registry == old(self).registry,
            final(self).pending == old(self).pending,
            final(self).outbox == old(self).outbox,
            final(self).next_seq == old(self).next_seq,
    {
        self.decoder.push(data);
    }

    /// Takes the bytes queued for the transport, in the order queued.
    pub fn take_output(&mut self) -> (r: Vec<u8>)
        ensures
            r@ == old(self).outbox@,
            final(self).outbox@.len() == 0,
            final(self).registry == old(self).registry,
            final(self).decoder == old(self).decoder,
            final(self).pending == old(self).pending,
            final(self).next_seq == old(self).next_seq,
    {
        self.outbox.split_off(0)
    }

    /// Closes the first pending exchange with sequence number `sequence`.
    pub fn resolve(&mut self, sequence: u8) -> (r: Option<PendingExchange>)
        ensures
            r is None <==> !seq_in_use(old(self).pending@, sequence),
            r is None ==> final(self).pending == old(self).pending,
            r matches Some(x) ==> exists|k: int|
                0 <= k < old(self).pending@.len() && old(self).pending@[k] == x && x.sequence
                    == sequence && final(self).pending@ == old(self).pending@.remove(k) && forall|j: int|
                    0 <= j < k ==> (#[trigger] old(self).pending@[j]).sequence != sequence,
            final(self).registry == old(self).registry,
            final(self).decoder == old(self).decoder,
            final(self).outbox == old(self).outbox,
            final(self).next_seq == old(self).next_seq,
    {
        let mut i: usize = 0;
        while i < self.pending.len()
            invariant
                i <= self.pending@.len(),
                self.pending == old(self).pending,
                self.registry == old(self).registry,
                self.decoder == old(self).decoder,
                self.outbox == old(self).outbox,
                self.next_seq == old(self).next_seq,
                forall|j: int| 0 <= j < i ==> (#[trigger] self.pending@[j]).sequence != sequence,
            decreases self.pending@.len() - i,
        {
            if self.pending[i].sequence == sequence {
                let x = self.pending.remove(i);
                return Some(x);
            }
            i += 1;
        }
        None
    }

    /// Takes the next frame that has arrived and decodes it. A frame whose
    /// sequence number belongs to a pending exchange closes that exchange;
    /// any other decoded frame is a notification.
    pub fn poll(&mut self) -> (r: Option<Inbound>)
        requires
            old(self).wf(),
        ensures
            final(self).wf(),
            final(self).registry == old(self).registry,
            final(self).outbox == old(self).outbox,
            final(self).next_seq == old(self).next_seq,
            exists|f: Option<Frame>| FrameDecoder::next_frame_post(old(self).decoder, final(self).decoder, f),
            ({
                let b = old(self).decoder.buf@;
                let rest = b.skip(resync_skip(b) as int);
                match frame_check(rest) {
                    Err(_) => r is None && final(self).pending == old(self).pending,
                    Ok(_) => {
                        let sq = frame_sequence(rest);
                        match message_result(old(self).registry.responses@, frame_payload(rest)) {
                            Err(e) => r == Some(Inbound::Error { sequence: sq, error: e })
                                && final(self).pending == old(self).pending,
                            Ok((id, vals, trailing)) => if seq_in_use(old(self).pending@, sq) {
                                &&& r matches Some(Inbound::Response { exchange, id: x, message })
                                    && x == id && named_view(message.values@) == vals
                                    && message.trailing == trailing && exchange.sequence == sq
                                    && exists|k: int|
                                    0 <= k < old(self).pending@.len() && old(self).pending@[k]
                                        == exchange && final(self).pending@ == old(
                                        self,
                                    ).pending@.remove(k)
                            } else {
                                &&& r matches Some(Inbound::Notification { sequence, id: x, message })
                                    && sequence == sq && x == id && named_view(message.values@)
                                    == vals && message.trailing == trailing
                                &&& final(self).pending == old(self).pending
                            },
                        }
                    },
                }
            }),
    {
        let ghost pre = *self;
        let frame = match self.decoder.next_frame() {
            Some(f) => f,
            None => {
                assert(FrameDecoder::next_frame_post(pre.decoder, self.decoder, None::<Frame>));
                return None;
            },
        };
        assert(FrameDecoder::next_frame_post(pre.decoder, self.decoder, Some(frame)));
        match self.registry.decode_message(frame.payload.as_slice()) {
            Err(e) => Some(Inbound::Error { sequence: frame.sequence, error: e }),
            Ok((id, message)) => match self.resolve(frame.sequence) {
                Some(exchange) => Some(Inbound::Response { exchange, id, message }),
                None => Some(Inbound::Notification { sequence: frame.sequence, id, message }),
            },
        }
    }

    /// Removes the exchanges whose deadline has passed at `now`: a schedule
    /// whose required clock is before `now`, or a wait longer than
    /// `timeout`. An answer that arrives later is a notification.
    pub fn expire(&mut self, now: u64, timeout: u64) -> (r: Vec<Expired>)
        ensures
            final(self).pending@ == keep_live(old(self).pending@, now, timeout),
            Seq::new(r@.len(), |i: int| r@[i].exchange) == take_expired(old(self).pending@, now, timeout),
            forall|i: int| 0 <= i < r@.len() ==> reason_fits(#[trigger] r@[i], now),
            final(self).registry == old(self).registry,
            final(self).decoder == old(self).decoder,
            final(self).outbox == old(self).outbox,
            final(self).next_seq == old(self).next_seq,
    {
        let ghost all = self.pending@;
        let total = self.pending.len();
        let mut rest = self.pending.split_off(0);
        let mut expired: Vec<Expired> = Vec::new();
        let mut k: usize = 0;
        assert(all.take(0) =~= Seq::<PendingExchange>::empty());
        assert(Seq::new(expired@.len(), |i: int| expired@[i].exchange) =~= Seq::<PendingExchange>::empty());
        while rest.len() > 0
            invariant
                k <= all.len(),
                total == all.len(),
                rest@ == all.skip(k as int),
                self.pending@ == keep_live(all.take(k as int), now, timeout),
                Seq::new(expired@.len(), |i: int| expired@[i].exchange) == take_expired(all.take(k as int), now, timeout),
                forall|i: int| 0 <= i < expired@.len() ==> reason_fits(#[trigger] expired@[i], now),
                self.registry == old(self).registry,
                self.decoder == old(self).decoder,
                self.outbox == old(self).outbox,
                self.next_seq == old(self).next_seq,
            decreases rest@.len(),
        {
            let x = rest.remove(0);
            assert(all.take(k + 1).drop_last() =~= all.take(k as int));
            assert(all.take(k + 1).last() == x);
            assert(rest@ =~= all.skip(k + 1));
            let missed = match x.clock {
                Clock::Command { required, .. } => required < now,
                Clock::Send { .. } => false,
            };
            let late = now >= x.sent_at && now - x.sent_at > timeout;
            if missed || late {
                let ghost before = Seq::new(expired@.len(), |i: int| expired@[i].exchange);
                let label = x.name.clone();
                let reason = if missed {
                    Error::MissedSchedule(label)
                } else {
                    Error::Timeout(label)
                };
                expired.push(Expired { exchange: x, reason });
                assert(Seq::new(expired@.len(), |i: int| expired@[i].exchange) =~= before.push(x));
            } else {
                self.pending.push(x);
            }
            k += 1;
        }
        assert(all.take(k as int) =~= all);
        expired
    }

    /// Closes every pending exchange, as when the transport fails; gives
    /// them back so that each can be reported as aborted.
    pub fn abort_all(&mut self) -> (r: Vec<PendingExchange>)
        ensures
            r@ == old(self).pending@,
            final(self).pending@.len() == 0,
            final(self).registry == old(self).registry,
            final(self).decoder == old(self).decoder,
            final(self).outbox == old(self).outbox,
            final(self).next_seq == old(self).next_seq,
    {
        self.pending.split_off(0)
    }
}

} // verus!
