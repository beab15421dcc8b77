//! Capturing: what to open, which captures to accept, and what to do with each frame.

use crate::inventory::{
    after_frame, handle_packet, has_room, inventory_of, DeviceStats, Inventory,
};
use rustc_hash::FxHashMap;
use vstd::prelude::*;

verus! {

// ---------------------------------------------------------------------------
// What to open
// ---------------------------------------------------------------------------

/// Where the frames come from.
#[derive(Clone, Copy, Debug, PartialEq, Eq)]
pub enum CapturePlan {
    /// A capture file.
    File,
    /// An interface, through one socket.
    Live,
    /// An interface, through this many sockets that share the traffic.
    LiveFanout(usize),
    /// Nothing to read from.
    Nothing,
}

/// Chooses where the frames come from. A file goes before an interface, and sockets share the
/// traffic only where there is more than one.
pub fn plan_capture(has_file: bool, has_interface: bool, threads: usize) -> (plan: CapturePlan)
    ensures
        plan == (if has_file {
            CapturePlan::File
        } else if !has_interface {
            CapturePlan::Nothing
        } else if threads > 1 {
            CapturePlan::LiveFanout(threads)
        } else {
            CapturePlan::Live
        }),
{
    if has_file {
        CapturePlan::File
    } else if has_interface {
        if threads > 1 {
            CapturePlan::LiveFanout(threads)
        } else {
            CapturePlan::Live
        }
    } else {
        CapturePlan::Nothing
    }
}

/// The link type of captures whose frames begin with an Ethernet header.
pub const LINKTYPE_ETHERNET: i32 = 1;

/// Why a capture with another link type is refused.
pub open spec fn refusal(name: Seq<char>) -> Seq<char> {
    "Datalink no soportado: "@ + name
        + " (esperado Ethernet, LINKTYPE_ETHERNET=1).\nEsta herramienta lee las MACs de la cabecera Ethernet. Capturas con 'tcpdump -i any' (LINUX_SLL) o sin capa 2 (RAW) no sirven; capturá sobre una interfaz Ethernet concreta."@
}

/// Accepts Ethernet captures only: in others the MACs are not in the first twelve bytes.
pub fn check_datalink(link_type: i32, name: &str) -> (r: Result<(), String>)
    ensures
        r is Ok <==> link_type == LINKTYPE_ETHERNET,
        r matches Err(message) ==> message@ == refusal(name@),
{
    if link_type != LINKTYPE_ETHERNET {
        let mut message = String::new();
        message.append("Datalink no soportado: ");
        message.append(name);
        message.append(
            " (esperado Ethernet, LINKTYPE_ETHERNET=1).\nEsta herramienta lee las MACs de la cabecera Ethernet. Capturas con 'tcpdump -i any' (LINUX_SLL) o sin capa 2 (RAW) no sirven; capturá sobre una interfaz Ethernet concreta.",
        );
        assert(message@ =~= refusal(name@));
        return Err(message);
    }
    Ok(())
}

// ---------------------------------------------------------------------------
// The capture loop
// ---------------------------------------------------------------------------

/// What came of waiting for the next frame.
#[derive(Clone, Copy)]
pub enum CaptureEvent<'a> {
    /// The user, or the time limit, asked to stop.
    StopRequested,
    /// A frame.
    Packet(&'a [u8]),
    /// No frame in time: nothing is wrong.
    Timeout,
    /// The capture file has ended.
    EndOfCapture,
    /// The capture failed.
    Failed,
}

/// What to do next.
#[derive(Clone, Copy, Debug, PartialEq, Eq)]
pub enum CaptureAction {
    /// Wait for the next frame.
    Continue,
    /// Say how many frames there were so far, and wait for the next one.
    Progress(u64),
    /// Stop: the inventory is complete.
    Finish,
    /// Report the failure and stop: the inventory is what was counted until then.
    Abort,
}

/// How many frames lie between two reports of progress.
pub const PROGRESS_INTERVAL: u64 = 500_000;

/// A capture in progress.
pub struct CaptureSession {
    /// What was counted so far.
    pub inventory: Inventory,
    /// How many frames came so far.
    pub packets: u64,
    /// Whether group addresses are counted.
    pub include_multicast: bool,
    /// Whether progress is kept quiet.
    pub quiet: bool,
}

/// An event ends the capture.
pub open spec fn ends_capture(event: CaptureEvent) -> bool {
    event is StopRequested || event is EndOfCapture || event is Failed
}

/// What to do after an event, when `packets` frames have come, that of the event with them.
pub open spec fn action_for(event: CaptureEvent, packets: u64, quiet: bool) -> CaptureAction {
    match event {
        CaptureEvent::StopRequested => CaptureAction::Finish,
        CaptureEvent::Packet(_) => if !quiet && packets % PROGRESS_INTERVAL == 0 {
            CaptureAction::Progress(packets)
        } else {
            CaptureAction::Continue
        },
        CaptureEvent::Timeout => CaptureAction::Continue,
        CaptureEvent::EndOfCapture => CaptureAction::Finish,
        CaptureEvent::Failed => CaptureAction::Abort,
    }
}

impl CaptureSession {
    /// No device was seen more often than there were frames.
    pub open spec fn wf(self) -> bool {
        forall|mac: [u8; 6]| #[trigger]
            self.inventory@.contains_key(mac) ==> self.inventory@[mac].src_count <= self.packets
                && self.inventory@[mac].dst_count <= self.packets
    }

    /// A capture before its first frame.
    pub fn new(include_multicast: bool, quiet: bool) -> (r: Self)
        ensures
            r.wf(),
            r.inventory@ == Map::<[u8; 6], DeviceStats>::empty(),
            r.packets == 0,
            r.include_multicast == include_multicast,
            r.quiet == quiet,
    {
        CaptureSession { inventory: FxHashMap::default(), packets: 0, include_multicast, quiet }
    }

    /// Whether an event can be taken: a frame needs room in the counters.
    pub open spec fn can_take(self, event: CaptureEvent) -> bool {
        match event {
            CaptureEvent::Packet(data) => self.packets < u64::MAX && has_room(
                self.inventory@,
                data@,
                self.include_multicast,
            ),
            _ => true,
        }
    }

    /// What an event makes of a capture: only a frame changes anything.
    pub open spec fn becomes(self, event: CaptureEvent, next: CaptureSession) -> bool {
        &&& next.include_multicast == self.include_multicast
        &&& next.quiet == self.quiet
        &&& match event {
            CaptureEvent::Packet(data) => next.inventory@ == after_frame(
                self.inventory@,
                data@,
                self.include_multicast,
            ) && next.packets == self.packets + 1,
            _ => next.inventory@ == self.inventory@ && next.packets == self.packets,
        }
    }

    /// Takes an event and says what to do next. Only a frame changes anything.
    pub fn step(&mut self, event: CaptureEvent) -> (action: CaptureAction)
        requires
            old(self).can_take(event),
        ensures
            old(self).becomes(event, *final(self)),
            action == action_for(event, final(self).packets, old(self).quiet),
            old(self).wf() ==> final(self).wf(),
    {
        match event {
            CaptureEvent::StopRequested => CaptureAction::Finish,
            CaptureEvent::Packet(data) => {
                handle_packet(data, &mut self.inventory, self.include_multicast);
                self.packets = self.packets + 1;
                if !self.quiet && self.packets % PROGRESS_INTERVAL == 0 {
                    CaptureAction::Progress(self.packets)
                } else {
                    CaptureAction::Continue
                }
            },
            CaptureEvent::Timeout => CaptureAction::Continue,
            CaptureEvent::EndOfCapture => CaptureAction::Finish,
            CaptureEvent::Failed => CaptureAction::Abort,
        }
    }
}

// ---------------------------------------------------------------------------
// Statistics
// ---------------------------------------------------------------------------

/// What a socket says of its traffic.
#[derive(Clone, Copy, Debug, PartialEq, Eq)]
pub struct SocketStats {
    /// Frames that arrived.
    pub received: u32,
    /// Frames that were lost because the buffer was full.
    pub dropped: u32,
    /// Frames that the interface or its driver lost.
    pub if_dropped: u32,
}

/// The same, summed over the sockets of a capture.
#[derive(Clone, Copy, Debug, PartialEq, Eq)]
pub struct CapStats {
    pub received: u64,
    pub dropped: u64,
    pub if_dropped: u64,
}

impl Default for CapStats {
    fn default() -> (r: Self)
        ensures
            r == (CapStats { received: 0, dropped: 0, if_dropped: 0 }),
    {
        CapStats { received: 0, dropped: 0, if_dropped: 0 }
    }
}

impl CapStats {
    /// The sums stay in range when those of one more socket are added.
    pub open spec fn has_room_for(self, stats: SocketStats) -> bool {
        &&& self.received + stats.received <= u64::MAX
        &&& self.dropped + stats.dropped <= u64::MAX
        &&& self.if_dropped + stats.if_dropped <= u64::MAX
    }

    /// The sums with those of one more socket.
    pub open spec fn plus(self, stats: SocketStats) -> CapStats {
        CapStats {
            received: (self.received + stats.received) as u64,
            dropped: (self.dropped + stats.dropped) as u64,
            if_dropped: (self.if_dropped + stats.if_dropped) as u64,
        }
    }

    /// Adds what one more socket says.
    pub fn add_socket(&mut self, stats: &SocketStats)
        requires
            old(self).has_room_for(*stats),
        ensures
            *final(self) == old(self).plus(*stats),
    {
        self.received = self.received + stats.received as u64;
        self.dropped = self.dropped + stats.dropped as u64;
        self.if_dropped = self.if_dropped + stats.if_dropped as u64;
    }

    /// Whether frames were lost, so that the inventory may be incomplete.
    pub fn lost_packets(&self) -> (r: bool)
        ensures
            r == (self.dropped > 0 || self.if_dropped > 0),
    {
        self.dropped > 0 || self.if_dropped > 0
    }
}

// ---------------------------------------------------------------------------
// Laws
// ---------------------------------------------------------------------------

/// The frames of a sequence of events, up to the event that ends the capture.
pub open spec fn frames_of(events: Seq<CaptureEvent>) -> Seq<Seq<u8>>
    decreases events.len(),
{
    if events.len() == 0 || ends_capture(events[0]) {
        Seq::empty()
    } else {
        match events[0] {
            CaptureEvent::Packet(data) => seq![data@] + frames_of(events.drop_first()),
            _ => frames_of(events.drop_first()),
        }
    }
}

/// The inventory after a sequence of events, up to the event that ends the capture.
pub open spec fn inventory_after(
    inventory: Map<[u8; 6], DeviceStats>,
    events: Seq<CaptureEvent>,
    include_multicast: bool,
) -> Map<[u8; 6], DeviceStats>
    decreases events.len(),
{
    if events.len() == 0 || ends_capture(events[0]) {
        inventory
    } else {
        match events[0] {
            CaptureEvent::Packet(data) => inventory_after(
                after_frame(inventory, data@, include_multicast),
                events.drop_first(),
                include_multicast,
            ),
            _ => inventory_after(inventory, events.drop_first(), include_multicast),
        }
    }
}

/// A capture in which no device was seen more often than there were frames can take any event
/// until 2^64 - 1 frames have come.
pub proof fn law_session_has_room(session: CaptureSession, event: CaptureEvent)
    requires
        session.wf(),
        session.packets < u64::MAX,
    ensures
        session.can_take(event),
{
}

/// The states of a capture from one event to the next. No event but the last ends it.
pub open spec fn is_run(states: Seq<CaptureSession>, events: Seq<CaptureEvent>) -> bool {
    &&& states.len() == events.len() + 1
    &&& forall|i: int|
        0 <= i < events.len() ==> states[i].becomes(#[trigger] events[i], states[i + 1])
    &&& forall|i: int| 0 <= i < events.len() - 1 ==> !ends_capture(#[trigger] events[i])
}

/// A capture takes each frame once, and ends with the inventory of what it started with and these
/// frames.
pub proof fn law_run_takes_each_frame(states: Seq<CaptureSession>, events: Seq<CaptureEvent>)
    requires
        is_run(states, events),
    ensures
        states.last().inventory@ == inventory_after(
            states[0].inventory@,
            events,
            states[0].include_multicast,
        ),
        states.last().packets == states[0].packets + frames_of(events).len(),
        states.last().include_multicast == states[0].include_multicast,
    decreases events.len(),
{
    if events.len() > 0 {
        let (later, rest) = (states.drop_first(), events.drop_first());
        assert(states[0].becomes(events[0], states[1]));
        assert forall|i: int| 0 <= i < rest.len() implies later[i].becomes(
            #[trigger] rest[i],
            later[i + 1],
        ) by {
            assert(states[i + 1].becomes(events[i + 1], states[i + 2]));
        }
        assert forall|i: int| 0 <= i < rest.len() - 1 implies !ends_capture(#[trigger] rest[i]) by {
            assert(!ends_capture(events[i + 1]));
        }
        law_run_takes_each_frame(later, rest);
        if events.len() > 1 {
            assert(!ends_capture(events[0]));
        }
    }
}

/// A sequence of events without its timeouts.
pub open spec fn without_timeouts(events: Seq<CaptureEvent>) -> Seq<CaptureEvent>
    decreases events.len(),
{
    if events.len() == 0 {
        Seq::empty()
    } else if events[0] is Timeout {
        without_timeouts(events.drop_first())
    } else {
        seq![events[0]] + without_timeouts(events.drop_first())
    }
}

/// A timeout neither ends a capture nor counts as a frame nor changes anything: two captures that
/// start alike and see the same events but for timeouts end with the same inventory after the
/// same number of frames.
pub proof fn law_timeouts_change_nothing(
    states_a: Seq<CaptureSession>,
    events_a: Seq<CaptureEvent>,
    states_b: Seq<CaptureSession>,
    events_b: Seq<CaptureEvent>,
)
    requires
        is_run(states_a, events_a),
        is_run(states_b, events_b),
        without_timeouts(events_a) == without_timeouts(events_b),
        states_a[0].inventory@ == states_b[0].inventory@,
        states_a[0].include_multicast == states_b[0].include_multicast,
        states_a[0].packets == states_b[0].packets,
    ensures
        states_a.last().inventory@ == states_b.last().inventory@,
        states_a.last().packets == states_b.last().packets,
{
    let (inventory, include_multicast) = (states_a[0].inventory@, states_a[0].include_multicast);
    law_run_takes_each_frame(states_a, events_a);
    law_run_takes_each_frame(states_b, events_b);
    lemma_without_timeouts(inventory, events_a, include_multicast);
    lemma_without_timeouts(inventory, events_b, include_multicast);
}

/// Events have the same frames and leave the same inventory without their timeouts.
proof fn lemma_without_timeouts(
    inventory: Map<[u8; 6], DeviceStats>,
    events: Seq<CaptureEvent>,
    include_multicast: bool,
)
    ensures
        frames_of(without_timeouts(events)) == frames_of(events),
        inventory_after(inventory, without_timeouts(events), include_multicast) == inventory_after(
            inventory,
            events,
            include_multicast,
        ),
    decreases events.len(),
{
    if events.len() > 0 {
        let rest = events.drop_first();
        if !(events[0] is Timeout) {
            assert(without_timeouts(events).drop_first() =~= without_timeouts(rest));
        }
        match events[0] {
            CaptureEvent::Packet(data) => {
                lemma_without_timeouts(
                    after_frame(inventory, data@, include_multicast),
                    rest,
                    include_multicast,
                );
            },
            _ => {
                lemma_without_timeouts(inventory, rest, include_multicast);
            },
        }
    }
}

/// Events end a capture exactly when the action for them is to stop.
pub proof fn law_stop_is_final(event: CaptureEvent, packets: u64, quiet: bool)
    ensures
        ends_capture(event) <==> action_for(event, packets, quiet) is Finish || action_for(
            event,
            packets,
            quiet,
        ) is Abort,
{
}

/// However a capture ends, its inventory is that of all frames that came before: a stop request
/// or a failure loses nothing.
pub proof fn law_capture_keeps_all_frames(
    done: Seq<Seq<u8>>,
    events: Seq<CaptureEvent>,
    include_multicast: bool,
)
    ensures
        inventory_after(inventory_of(done, include_multicast), events, include_multicast)
            == inventory_of(done + frames_of(events), include_multicast),
    decreases events.len(),
{
    if events.len() == 0 || ends_capture(events[0]) {
        assert(done + frames_of(events) =~= done);
    } else {
        match events[0] {
            CaptureEvent::Packet(data) => {
                let more = done.push(data@);
                assert(more.drop_last() =~= done);
                law_capture_keeps_all_frames(more, events.drop_first(), include_multicast);
                assert(done + frames_of(events) =~= more + frames_of(events.drop_first()));
            },
            _ => {
                law_capture_keeps_all_frames(done, events.drop_first(), include_multicast);
            },
        }
    }
}

/// Where the frames come from: from the file where there is one, else from the interface, through
/// as many sockets as are asked for where that is two or more.
pub proof fn law_plan_capture(has_file: bool, has_interface: bool, threads: usize, plan: CapturePlan)
    ensures
        call_requires(plan_capture, (has_file, has_interface, threads)),
        call_ensures(plan_capture, (has_file, has_interface, threads), plan) ==> {
            &&& plan is File <==> has_file
            &&& plan is Nothing <==> !(has_file || has_interface)
            &&& plan is Live <==> !has_file && has_interface && threads <= 1
            &&& plan matches CapturePlan::LiveFanout(n) ==> n == threads && n >= 2
        },
{
}

/// Only the link type 1 is accepted. The refusal of any other names it, and is otherwise the same
/// for all.
pub proof fn law_check_datalink(link_type: i32, name: &str, r: Result<(), String>)
    ensures
        LINKTYPE_ETHERNET == 1,
        call_requires(check_datalink, (link_type, name)),
        call_ensures(check_datalink, (link_type, name), r) ==> {
            &&& r is Ok <==> link_type == 1
            &&& r matches Err(message) ==> message@ == "Datalink no soportado: "@ + name@
                + " (esperado Ethernet, LINKTYPE_ETHERNET=1).\nEsta herramienta lee las MACs de la cabecera Ethernet. Capturas con 'tcpdump -i any' (LINUX_SLL) o sin capa 2 (RAW) no sirven; capturá sobre una interfaz Ethernet concreta."@
        },
{
}

/// A capture starts with no device and no frame, as it was asked for.
pub proof fn law_new_session(include_multicast: bool, quiet: bool, session: CaptureSession)
    ensures
        call_requires(CaptureSession::new, (include_multicast, quiet)),
        call_ensures(CaptureSession::new, (include_multicast, quiet), session) ==> {
            &&& forall|mac: [u8; 6]| !#[trigger] session.inventory@.contains_key(mac)
            &&& session.packets == 0
            &&& session.include_multicast == include_multicast
            &&& session.quiet == quiet
        },
{
}

/// What a call of `step` does. A frame is counted, and every 500 000th of them is told unless the
/// capture is quiet. No other event changes anything: a timeout goes on, a stop request and the end
/// of the file finish the capture, and a failure aborts it.
pub proof fn law_step(event: CaptureEvent, action: CaptureAction)
    ensures
        forall|session: &mut CaptureSession| #[trigger]
            call_ensures(CaptureSession::step, (session, event), action) ==> {
                &&& final(session).include_multicast == session.include_multicast
                &&& final(session).quiet == session.quiet
                &&& match event {
                    CaptureEvent::Packet(data) => {
                        &&& final(session).inventory@ == after_frame(
                            session.inventory@,
                            data@,
                            session.include_multicast,
                        )
                        &&& final(session).packets == session.packets + 1
                        &&& action is Progress <==> !session.quiet && (session.packets + 1) % 500_000
                            == 0
                        &&& action matches CaptureAction::Progress(n) ==> n == session.packets + 1
                        &&& !(action is Progress) ==> action is Continue
                    },
                    _ => {
                        &&& final(session).inventory@ == session.inventory@
                        &&& final(session).packets == session.packets
                        &&& action is Continue <==> event is Timeout
                        &&& action is Finish <==> event is StopRequested || event is EndOfCapture
                        &&& action is Abort <==> event is Failed
                    },
                }
            },
        forall|session: &mut CaptureSession|
            (event matches CaptureEvent::Packet(data) ==> session.packets < u64::MAX && has_room(
                session.inventory@,
                data@,
                session.include_multicast,
            )) ==> #[trigger] call_requires(CaptureSession::step, (session, event)),
{
}

/// Sums start at zero. Each number that a socket tells is added to its sum. Frames were lost exactly when one of the
/// two sums of lost frames is not zero.
pub proof fn law_statistics(stats: SocketStats, totals: CapStats, lost: bool)
    ensures
        call_ensures(CapStats::default, (), totals) ==> totals.received == 0 && totals.dropped == 0
            && totals.if_dropped == 0,
        forall|sums: &mut CapStats| #[trigger]
            call_ensures(CapStats::add_socket, (sums, &stats), ()) ==> {
                &&& sums.received + stats.received <= u64::MAX ==> final(sums).received
                    == sums.received + stats.received
                &&& sums.dropped + stats.dropped <= u64::MAX ==> final(sums).dropped == sums.dropped
                    + stats.dropped
                &&& sums.if_dropped + stats.if_dropped <= u64::MAX ==> final(sums).if_dropped
                    == sums.if_dropped + stats.if_dropped
            },
        forall|sums: &mut CapStats|
            sums.received + stats.received <= u64::MAX && sums.dropped + stats.dropped <= u64::MAX
                && sums.if_dropped + stats.if_dropped <= u64::MAX ==> #[trigger] call_requires(
                CapStats::add_socket,
                (sums, &stats),
            ),
        call_requires(CapStats::lost_packets, (&totals,)),
        call_ensures(CapStats::lost_packets, (&totals,), lost) ==> (lost <==> totals.dropped
            + totals.if_dropped != 0),
{
}

} // verus!
