use vstd::prelude::*;
use crate::ether::{destination, destination_of, parses};
use crate::frame::Frame;
use crate::mac::is_broadcast_spec;
use crate::table::{PortEntry, PortTable};
use std::collections::VecDeque;

verus! {

/// What becomes of one received frame.
#[derive(Clone, Copy, Debug, PartialEq, Eq, Structural)]
pub enum Decision {
    /// Sent to the one port registered for its destination.
    Unicast(u64),
    /// Broadcast: sent to every port of the table but the receiving one.
    Flood,
    /// No port is known for its destination: dropped, nothing sent.
    Drop,
    /// Too short to carry an Ethernet header.
    Malformed,
}

/// Why forwarding a batch failed.
#[derive(Clone, Copy, Debug, PartialEq, Eq, Structural)]
pub enum ForwardError {
    /// A frame was too short to carry an Ethernet header.
    Malformed,
    /// A port refused a send.
    SendFailed,
}

/// The decision for a frame with bytes `data`, against `table`.
pub open spec fn decision_spec<H>(table: &PortTable<H>, data: Seq<u8>) -> Decision {
    if !parses(data) {
        Decision::Malformed
    } else if is_broadcast_spec(destination_of(data)) {
        Decision::Flood
    } else if table.view().contains_key(destination_of(data)) {
        Decision::Unicast(table.view()[destination_of(data)].0)
    } else {
        Decision::Drop
    }
}

/// What a send carries: the received frame itself, or a copy of its bytes.
pub enum Payload {
    Frame(Frame),
    Raw(Vec<u8>),
}

impl Payload {
    pub open spec fn bytes(&self) -> Seq<u8> {
        match self {
            Payload::Frame(f) => f@,
            Payload::Raw(v) => v@,
        }
    }
}

/// One send to make: `payload` through the handle of table entry `entry`,
/// whose port is `port`.
pub struct Delivery {
    pub port: u64,
    pub entry: usize,
    pub payload: Payload,
}

/// A send as (port, table entry, whether it carries the frame itself, bytes).
pub type SendModel = (u64, int, bool, Seq<u8>);

impl Delivery {
    pub open spec fn model(&self) -> SendModel {
        (self.port, self.entry as int, self.payload is Frame, self.payload.bytes())
    }
}

/// Entry `i` is the first of the entries to route through its port.
pub open spec fn first_of_port<H>(entries: Seq<PortEntry<H>>, i: int) -> bool {
    forall|j: int| 0 <= j < i ==> (#[trigger] entries[j]).port != entries[i].port
}

/// The sends of a flood of `bytes` over the first `n` entries: one copy for
/// each port other than `self_port`, through the first entry that routes
/// through it, in table order.
pub open spec fn flood_plan<H>(entries: Seq<PortEntry<H>>, n: int, self_port: u64, bytes: Seq<u8>) -> Seq<SendModel>
    decreases n,
{
    if n <= 0 {
        Seq::empty()
    } else if entries[n - 1].port != self_port && first_of_port(entries, n - 1) {
        flood_plan(entries, n - 1, self_port, bytes).push((entries[n - 1].port, n - 1, false, bytes))
    } else {
        flood_plan(entries, n - 1, self_port, bytes)
    }
}

/// The sends that forwarding a frame with bytes `data`, received on
/// `self_port`, makes, in order.
pub open spec fn plan_spec<H>(table: &PortTable<H>, self_port: u64, data: Seq<u8>) -> Seq<SendModel> {
    match decision_spec(table, data) {
        Decision::Unicast(p) => seq![(p, table.index_of(destination_of(data)), true, data)],
        Decision::Flood => flood_plan(table.entries(), table.entries().len() as int, self_port, data),
        _ => Seq::empty(),
    }
}

/// Decides what becomes of a frame with bytes `data`.
pub fn decide<H>(table: &PortTable<H>, data: &[u8]) -> (r: Decision)
    requires
        table.wf(),
    ensures
        r == decision_spec(table, data@),
{
    match destination(data) {
        None => Decision::Malformed,
        Some(dst) => {
            if dst.is_broadcast() {
                Decision::Flood
            } else {
                match table.port_of(&dst) {
                    Some(p) => Decision::Unicast(p),
                    None => Decision::Drop,
                }
            }
        },
    }
}

/// The models of a sequence of sends.
pub open spec fn models(s: Seq<Delivery>) -> Seq<SendModel> {
    s.map_values(|d: Delivery| d.model())
}

proof fn lemma_models_push(s: Seq<Delivery>, d: Delivery)
    ensures
        models(s.push(d)) == models(s).push(d.model()),
{
    assert(models(s.push(d)) =~= models(s).push(d.model()));
}

fn push_flood<H>(table: &PortTable<H>, self_port: u64, frame: &Frame, out: &mut VecDeque<Delivery>)
    requires
        table.wf(),
        frame.wf(),
    ensures
        models(final(out)@) == models(old(out)@) + flood_plan(
            table.entries(),
            table.entries().len() as int,
            self_port,
            frame@,
        ),
{
    let mut i: usize = 0;
    assert(models(out@) =~= models(old(out)@) + flood_plan(table.entries(), 0, self_port, frame@));
    let n = table.len();
    while i < n
        invariant
            table.wf(),
            frame.wf(),
            n == table.entries().len(),
            0 <= i <= table.entries().len(),
            models(out@) == models(old(out)@) + flood_plan(table.entries(), i as int, self_port, frame@),
        decreases table.entries().len() - i,
    {
        let p = table.port_at(i).unwrap();
        let ghost prev = out@;
        let mut first = true;
        let mut j: usize = 0;
        while j < i
            invariant
                0 <= j <= i < table.entries().len(),
                p == table.entries()[i as int].port,
                first == forall|l: int| 0 <= l < j ==> (#[trigger] table.entries()[l]).port != p,
            decreases i - j,
        {
            if table.port_at(j).unwrap() == p {
                first = false;
            }
            j += 1;
        }
        assert(first == first_of_port(table.entries(), i as int));
        if p != self_port && first {
            let bytes = frame.to_vec();
            let d = Delivery { port: p, entry: i, payload: Payload::Raw(bytes) };
            proof { lemma_models_push(prev, d); }
            out.push_back(d);
            assert(models(out@) =~= models(old(out)@) + flood_plan(table.entries(), i + 1, self_port, frame@));
        }
        i += 1;
    }
}

/// Plans the sends for one frame received on `self_port` and appends them
/// to `out`: for a known destination, the frame itself to the entry
/// registered for it; for a broadcast, a copy of its bytes to every entry
/// whose port is not `self_port`, in table order; for an unknown
/// destination, nothing. A frame too short for a header appends nothing
/// and is an error. Returns the decision taken.
pub fn plan_frame<H>(table: &PortTable<H>, self_port: u64, frame: Frame, out: &mut VecDeque<Delivery>) -> (r: Result<Decision, ForwardError>)
    requires
        table.wf(),
        frame.wf(),
    ensures
        r is Err <==> decision_spec(table, frame@) == Decision::Malformed,
        r matches Err(e) ==> e == ForwardError::Malformed && final(out)@ == old(out)@,
        r matches Ok(d) ==> d == decision_spec(table, frame@),
        r is Ok ==> models(final(out)@) == models(old(out)@) + plan_spec(table, self_port, frame@),
        decision_spec(table, frame@) is Unicast ==> final(out)@.last().payload == Payload::Frame(frame),
{
    let dst = match destination(frame.data_ref()) {
        None => {
            return Err(ForwardError::Malformed);
        },
        Some(dst) => dst,
    };
    if dst.is_broadcast() {
        push_flood(table, self_port, &frame, out);
        return Ok(Decision::Flood);
    }
    match table.position(&dst) {
        None => {
            assert(models(out@) =~= models(old(out)@) + plan_spec(table, self_port, frame@));
            Ok(Decision::Drop)
        },
        Some(i) => {
            let p = table.port_at(i).unwrap();
            proof { table.lemma_entry(i as int); }
            let ghost data = frame@;
            let del = Delivery { port: p, entry: i, payload: Payload::Frame(frame) };
            proof { lemma_models_push(out@, del); }
            out.push_back(del);
            assert(models(out@) =~= models(old(out)@) + plan_spec(table, self_port, data));
            Ok(Decision::Unicast(p))
        },
    }
}

/// The sends for a batch, as (sends, whether a short frame ended it, frames
/// dropped for an unknown destination): the frames are taken in order, and
/// a frame too short for a header ends the batch, so that no frame after it
/// is sent.
pub open spec fn batch_plan<H>(table: &PortTable<H>, self_port: u64, frames: Seq<Frame>) -> (Seq<SendModel>, bool, nat)
    decreases frames.len(),
{
    if frames.len() == 0 {
        (Seq::empty(), false, 0)
    } else {
        let prev = batch_plan(table, self_port, frames.drop_last());
        let d = decision_spec(table, frames.last()@);
        if prev.1 {
            prev
        } else if d == Decision::Malformed {
            (prev.0, true, prev.2)
        } else {
            (
                prev.0 + plan_spec(table, self_port, frames.last()@),
                false,
                prev.2 + if d == Decision::Drop { 1nat } else { 0nat },
            )
        }
    }
}

proof fn lemma_batch_plan_stays<H>(table: &PortTable<H>, self_port: u64, frames: Seq<Frame>, n: int)
    requires
        0 <= n <= frames.len(),
        batch_plan(table, self_port, frames.subrange(0, n)).1,
    ensures
        batch_plan(table, self_port, frames) == batch_plan(table, self_port, frames.subrange(0, n)),
    decreases frames.len() - n,
{
    if n < frames.len() {
        let next = frames.subrange(0, n + 1);
        assert(next.drop_last() =~= frames.subrange(0, n));
        lemma_batch_plan_stays(table, self_port, frames, n + 1);
        assert(batch_plan(table, self_port, next) == batch_plan(table, self_port, frames.subrange(0, n)));
    } else {
        assert(frames.subrange(0, n) =~= frames);
    }
}

/// The sends for one received batch, handed out one at a time. A failed
/// send, once reported, ends the batch: nothing more is handed out.
pub struct Outbox {
    pending: VecDeque<Delivery>,
    malformed: bool,
    failed: bool,
    dropped: usize,
}

impl Outbox {
    /// The sends not yet handed out, in order.
    pub closed spec fn pending(&self) -> Seq<SendModel> {
        models(self.pending@)
    }

    /// A short frame ended the batch.
    pub closed spec fn is_malformed(&self) -> bool {
        self.malformed
    }

    /// A send was reported failed.
    pub closed spec fn has_failed(&self) -> bool {
        self.failed
    }

    /// Frames of the batch dropped for an unknown destination.
    pub closed spec fn drops(&self) -> nat {
        self.dropped as nat
    }

    /// Plans the sends for `frames`, received on `self_port`, in order.
    pub fn new<H>(table: &PortTable<H>, self_port: u64, frames: Vec<Frame>) -> (r: Outbox)
        requires
            table.wf(),
            forall|i: int| 0 <= i < frames@.len() ==> (#[trigger] frames@[i]).wf(),
        ensures
            r.pending() == batch_plan(table, self_port, frames@).0,
            r.is_malformed() == batch_plan(table, self_port, frames@).1,
            r.drops() == batch_plan(table, self_port, frames@).2,
            !r.has_failed(),
    {
        let ghost all = frames@;
        let n = frames.len();
        let mut rest = frames;
        let mut queue: VecDeque<Frame> = VecDeque::new();
        while rest.len() > 0
            invariant
                all.len() == rest@.len() + queue@.len(),
                rest@ == all.subrange(0, rest@.len() as int),
                queue@ == all.subrange(rest@.len() as int, all.len() as int),
            decreases rest@.len(),
        {
            let f = rest.pop().unwrap();
            queue.push_front(f);
            assert(queue@ =~= all.subrange(rest@.len() as int, all.len() as int));
        }
        assert(queue@ =~= all);
        let mut pending: VecDeque<Delivery> = VecDeque::new();
        let mut done: usize = 0;
        let mut dropped: usize = 0;
        let mut malformed = false;
        assert(all.subrange(0, 0) =~= Seq::<Frame>::empty());
        assert(models(pending@) =~= Seq::<SendModel>::empty());
        while queue.len() > 0 && !malformed
            invariant
                table.wf(),
                forall|i: int| 0 <= i < all.len() ==> (#[trigger] all[i]).wf(),
                n == all.len(),
                done + queue@.len() == all.len(),
                queue@ == all.subrange(done as int, all.len() as int),
                dropped <= done,
                batch_plan(table, self_port, all.subrange(0, done as int)).1 == malformed,
                models(pending@) == batch_plan(table, self_port, all.subrange(0, done as int)).0,
                dropped == batch_plan(table, self_port, all.subrange(0, done as int)).2,
            decreases queue@.len(),
        {
            let f = queue.pop_front().unwrap();
            let ghost fr = f;
            assert(fr == all[done as int]);
            let ghost pre = all.subrange(0, done as int);
            let ghost next = all.subrange(0, done + 1);
            assert(next.drop_last() =~= pre);
            assert(next.last() == fr);
            match plan_frame(table, self_port, f, &mut pending) {
                Err(_) => {
                    malformed = true;
                },
                Ok(d) => {
                    if d == Decision::Drop {
                        dropped += 1;
                    }
                },
            }
            done += 1;
        }
        if malformed {
            proof { lemma_batch_plan_stays(table, self_port, all, done as int); }
        } else {
            assert(all.subrange(0, done as int) =~= all);
        }
        Outbox { pending, malformed, failed: false, dropped }
    }

    /// Hands out the next send, unless a failure was reported or none is left.
    pub fn next(&mut self) -> (r: Option<Delivery>)
        ensures
            final(self).is_malformed() == old(self).is_malformed(),
            final(self).has_failed() == old(self).has_failed(),
            final(self).drops() == old(self).drops(),
            !old(self).has_failed() && old(self).pending().len() > 0 ==> {
                &&& r matches Some(d) && d.model() == old(self).pending()[0]
                &&& final(self).pending() == old(self).pending().drop_first()
            },
            old(self).has_failed() || old(self).pending().len() == 0 ==> {
                &&& r is None
                &&& final(self).pending() == old(self).pending()
            },
    {
        if self.failed {
            return None;
        }
        let r = self.pending.pop_front();
        proof {
            if r is Some {
                assert(models(self.pending@) =~= models(old(self).pending@).drop_first());
            }
        }
        r
    }

    /// Records that the last send handed out failed: the batch ends here.
    pub fn report_failure(&mut self)
        ensures
            final(self).has_failed(),
            final(self).pending() == Seq::<SendModel>::empty(),
            final(self).is_malformed() == old(self).is_malformed(),
            final(self).drops() == old(self).drops(),
    {
        self.failed = true;
        self.pending = VecDeque::new();
        assert(models(self.pending@) =~= Seq::<SendModel>::empty());
    }

    /// How the batch ended: a failed send, a short frame, or the number of
    /// frames dropped for an unknown destination.
    pub fn outcome(&self) -> (r: Result<usize, ForwardError>)
        ensures
            self.has_failed() ==> r == Err::<usize, ForwardError>(ForwardError::SendFailed),
            !self.has_failed() && self.is_malformed() ==> r == Err::<usize, ForwardError>(ForwardError::Malformed),
            !self.has_failed() && !self.is_malformed() ==> r == Ok::<usize, ForwardError>(self.drops() as usize),
    {
        if self.failed {
            Err(ForwardError::SendFailed)
        } else if self.malformed {
            Err(ForwardError::Malformed)
        } else {
            Ok(self.dropped)
        }
    }
}

/// The ports that a sequence of sends reaches.
pub open spec fn ports_of(plan: Seq<SendModel>) -> Set<u64> {
    Set::new(|p: u64| exists|k: int| 0 <= k < plan.len() && (#[trigger] plan[k]).0 == p)
}

/// A frame whose destination is not broadcast and is in the table gets
/// exactly one send: the frame itself, to the entry registered for that
/// destination. No other port is sent anything.
pub proof fn lemma_unicast_reaches_registered_port<H>(table: &PortTable<H>, data: Seq<u8>, self_port: u64)
    requires
        table.wf(),
        parses(data),
        !is_broadcast_spec(destination_of(data)),
        table.view().contains_key(destination_of(data)),
    ensures
        plan_spec(table, self_port, data) == seq![
            (table.view()[destination_of(data)].0, table.index_of(destination_of(data)), true, data),
        ],
        table.entries()[table.index_of(destination_of(data))].mac@ == destination_of(data),
        ports_of(plan_spec(table, self_port, data)) == set![table.view()[destination_of(data)].0],
{
    let plan = plan_spec(table, self_port, data);
    assert(ports_of(plan) =~= set![table.view()[destination_of(data)].0]) by {
        assert(plan[0].0 == table.view()[destination_of(data)].0);
    }
}

proof fn lemma_flood_plan<H>(entries: Seq<PortEntry<H>>, n: int, self_port: u64, bytes: Seq<u8>)
    requires
        0 <= n <= entries.len(),
    ensures
        forall|k: int|
            0 <= k < flood_plan(entries, n, self_port, bytes).len() ==> {
                let s = #[trigger] flood_plan(entries, n, self_port, bytes)[k];
                &&& s.0 != self_port
                &&& !s.2
                &&& s.3 == bytes
                &&& 0 <= s.1 < n
                &&& entries[s.1].port == s.0
                &&& first_of_port(entries, s.1)
            },
        forall|a: int, b: int|
            0 <= a < b < flood_plan(entries, n, self_port, bytes).len() ==> (#[trigger] flood_plan(entries, n, self_port, bytes)[a]).1
                < (#[trigger] flood_plan(entries, n, self_port, bytes)[b]).1,
        forall|a: int, b: int|
            0 <= a < b < flood_plan(entries, n, self_port, bytes).len() ==> (#[trigger] flood_plan(entries, n, self_port, bytes)[a]).0
                != (#[trigger] flood_plan(entries, n, self_port, bytes)[b]).0,
        forall|i: int|
            0 <= i < n && (#[trigger] entries[i]).port != self_port ==> exists|k: int|
                0 <= k < flood_plan(entries, n, self_port, bytes).len() && (#[trigger] flood_plan(entries, n, self_port, bytes)[k]).0 == entries[i].port,
    decreases n,
{
    if n > 0 {
        lemma_flood_plan(entries, n - 1, self_port, bytes);
        let prev = flood_plan(entries, n - 1, self_port, bytes);
        let cur = flood_plan(entries, n, self_port, bytes);
        if entries[n - 1].port != self_port && first_of_port(entries, n - 1) {
            assert(cur == prev.push((entries[n - 1].port, n - 1, false, bytes)));
            assert forall|a: int, b: int| 0 <= a < b < cur.len() implies (#[trigger] cur[a]).0 != (#[trigger] cur[b]).0 by {
                if b == prev.len() {
                    assert(prev[a].1 < n - 1);
                    assert(entries[prev[a].1].port != entries[n - 1].port);
                } else {
                    assert(prev[a].0 != prev[b].0);
                }
            }
            assert forall|i: int| 0 <= i < n && (#[trigger] entries[i]).port != self_port implies exists|k: int|
                0 <= k < cur.len() && (#[trigger] cur[k]).0 == entries[i].port by {
                if i == n - 1 {
                    assert(cur[prev.len() as int].0 == entries[i].port);
                } else {
                    let k = choose|k: int| 0 <= k < prev.len() && (#[trigger] prev[k]).0 == entries[i].port;
                    assert(cur[k].0 == entries[i].port);
                }
            }
        } else {
            assert(cur == prev);
            assert forall|i: int| 0 <= i < n && (#[trigger] entries[i]).port != self_port implies exists|k: int|
                0 <= k < cur.len() && (#[trigger] cur[k]).0 == entries[i].port by {
                if i == n - 1 {
                    let j = choose|j: int| 0 <= j < n - 1 && (#[trigger] entries[j]).port == entries[n - 1].port;
                    assert(entries[j].port != self_port);
                }
            }
        }
    }
}

/// A broadcast frame gets exactly one send of a copy of its bytes on each
/// port of the table other than the receiving one, through the first entry
/// for that port, in table order, and no other send: the ports reached are
/// all ports of the table but the receiving one, and no two sends share a port.
pub proof fn lemma_broadcast_reaches_all_but_self<H>(table: &PortTable<H>, data: Seq<u8>, self_port: u64)
    requires
        table.wf(),
        parses(data),
        is_broadcast_spec(destination_of(data)),
    ensures
        decision_spec(table, data) == Decision::Flood,
        ports_of(plan_spec(table, self_port, data)) == table.ports().remove(self_port),
        ports_of(plan_spec(table, self_port, data)) == table.flood_targets(self_port),
        forall|k: int|
            0 <= k < plan_spec(table, self_port, data).len() ==> {
                let s = #[trigger] plan_spec(table, self_port, data)[k];
                &&& s.0 != self_port
                &&& !s.2
                &&& s.3 == data
                &&& 0 <= s.1 < table.entries().len()
                &&& table.entries()[s.1].port == s.0
                &&& first_of_port(table.entries(), s.1)
            },
        forall|a: int, b: int|
            0 <= a < b < plan_spec(table, self_port, data).len() ==> (#[trigger] plan_spec(table, self_port, data)[a]).1
                < (#[trigger] plan_spec(table, self_port, data)[b]).1,
        forall|a: int, b: int|
            0 <= a < b < plan_spec(table, self_port, data).len() ==> (#[trigger] plan_spec(table, self_port, data)[a]).0
                != (#[trigger] plan_spec(table, self_port, data)[b]).0,
{
    let e = table.entries();
    let plan = plan_spec(table, self_port, data);
    lemma_flood_plan(e, e.len() as int, self_port, data);
    assert(ports_of(plan) =~= table.ports().remove(self_port)) by {
        assert forall|p: u64| ports_of(plan).contains(p) implies table.ports().remove(self_port).contains(p) by {
            let k = choose|k: int| 0 <= k < plan.len() && (#[trigger] plan[k]).0 == p;
            assert(e[plan[k].1].port == p);
        }
        assert forall|p: u64| table.ports().remove(self_port).contains(p) implies ports_of(plan).contains(p) by {
            let i = choose|i: int| 0 <= i < e.len() && #[trigger] e[i].port == p;
            let k = choose|k: int| 0 <= k < plan.len() && (#[trigger] plan[k]).0 == e[i].port;
            assert(plan[k].0 == p);
        }
    }
    assert(table.flood_targets(self_port) =~= table.ports().remove(self_port));
}

/// A frame whose destination is not broadcast and not in the table gets no
/// send, and is counted as dropped rather than ending the batch.
pub proof fn lemma_unknown_destination_dropped<H>(table: &PortTable<H>, data: Seq<u8>, self_port: u64)
    requires
        table.wf(),
        parses(data),
        !is_broadcast_spec(destination_of(data)),
        !table.view().contains_key(destination_of(data)),
    ensures
        decision_spec(table, data) == Decision::Drop,
        plan_spec(table, self_port, data) == Seq::<SendModel>::empty(),
{
}

/// The sends an outbox holding `pending` hands out when the sender reports
/// each outcome in `results` (true for success) as it goes, and whether the
/// batch ends failed: each send is handed out by `next`, and a failure is
/// reported by `report_failure`, after which `next` hands out nothing.
pub open spec fn drive(pending: Seq<SendModel>, results: Seq<bool>) -> (Seq<SendModel>, bool)
    decreases results.len(),
{
    if pending.len() == 0 || results.len() == 0 {
        (Seq::empty(), false)
    } else if !results[0] {
        (seq![pending[0]], true)
    } else {
        let rest = drive(pending.drop_first(), results.drop_first());
        (seq![pending[0]] + rest.0, rest.1)
    }
}

/// If any send of a batch fails, the batch as a whole fails, and no send
/// after the failed one is handed out.
pub proof fn lemma_failed_send_fails_batch(pending: Seq<SendModel>, results: Seq<bool>, i: int)
    requires
        results.len() == pending.len(),
        0 <= i < results.len(),
        !results[i],
    ensures
        drive(pending, results).1,
        drive(pending, results).0.len() <= i + 1,
        drive(pending, results).0 == pending.subrange(0, drive(pending, results).0.len() as int),
    decreases i,
{
    if results[0] {
        lemma_failed_send_fails_batch(pending.drop_first(), results.drop_first(), i - 1);
        let rest = drive(pending.drop_first(), results.drop_first());
        assert(seq![pending[0]] + rest.0 =~= pending.subrange(0, rest.0.len() as int + 1));
    } else {
        assert(seq![pending[0]] =~= pending.subrange(0, 1));
    }
}

/// If every send of a batch succeeds, every planned send is handed out, in
/// order, and the batch does not fail.
pub proof fn lemma_all_sends_ok(pending: Seq<SendModel>, results: Seq<bool>)
    requires
        results.len() == pending.len(),
        forall|k: int| 0 <= k < results.len() ==> results[k],
    ensures
        drive(pending, results) == (pending, false),
    decreases results.len(),
{
    if pending.len() > 0 {
        lemma_all_sends_ok(pending.drop_first(), results.drop_first());
        assert(seq![pending[0]] + pending.drop_first() =~= pending);
    } else {
        assert(pending =~= Seq::<SendModel>::empty());
    }
}

/// The forwarding actor of one local port: it plans the sends for each
/// batch its port receives, against the shared port table.
pub struct ForwardActor {
    self_port: u64,
}

impl ForwardActor {
    /// The actor for the local port `self_port`.
    pub fn new(self_port: u64) -> (r: ForwardActor)
        ensures
            r.port() == self_port,
    {
        ForwardActor { self_port }
    }

    pub closed spec fn port(&self) -> u64 {
        self.self_port
    }

    /// The id of the port the actor receives on.
    pub fn port_id(&self) -> (r: u64)
        ensures
            r == self.port(),
    {
        self.self_port
    }

    /// The sends for one received batch, from this actor's port.
    pub fn handle_frames<H>(&self, table: &PortTable<H>, frames: Vec<Frame>) -> (r: Outbox)
        requires
            table.wf(),
            forall|i: int| 0 <= i < frames@.len() ==> (#[trigger] frames@[i]).wf(),
        ensures
            r.pending() == batch_plan(table, self.port(), frames@).0,
            r.is_malformed() == batch_plan(table, self.port(), frames@).1,
            r.drops() == batch_plan(table, self.port(), frames@).2,
            !r.has_failed(),
    {
        Outbox::new(table, self.self_port, frames)
    }
}

} // verus!
