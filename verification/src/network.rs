//! The multi-chain test network driver and the message transport: one
//! relay chain and its parachains, each with FIFO inbound and outbound
//! queues of encoded message bytes. The driver is stepped by hand: a
//! chain first processes every message present in its inbound queue,
//! then local actions run, then its outbound queue is flushed one hop
//! into the peers' inbound queues. A message enqueued while a chain
//! executes therefore lands in the destination's next round, never the
//! current one.

use vstd::prelude::*;
use crate::account::AccountId;
use crate::asset::{Asset, AssetFilter, AssetId, AssetIdModel, AssetModel, Fungibility};
use crate::chain::{Chain, ChainId, ChainModel, Event, ExecError, Outcome};
use crate::codec::{enc_message, msg_encodable, MESSAGE_VERSION};
use crate::executor::{exec_message_spec, transfer_assets_spec, account_of_location};
use crate::location::{Junction, LocModel, Location};
use crate::message::{instrs_model, InstrModel, Instruction, Message};
use crate::weight::Weight;

verus! {

/// The location a sender chain's messages carry as origin when they
/// arrive at a receiver.
pub open spec fn origin_of(sender: ChainId, receiver: ChainId) -> LocModel {
    match (sender, receiver) {
        (ChainId::Relay, _) => LocModel { parents: 1, interior: Seq::empty() },
        (ChainId::Para(p), ChainId::Relay) => LocModel {
            parents: 0,
            interior: seq![Junction::Parachain(p)],
        },
        (ChainId::Para(p), ChainId::Para(_)) => LocModel {
            parents: 1,
            interior: seq![Junction::Parachain(p)],
        },
    }
}

/// The chain a destination location names, from a sender's standpoint:
/// the parent, a child parachain, or a sibling parachain.
pub open spec fn dest_chain(from: ChainId, dest: LocModel) -> Option<ChainId> {
    match from {
        ChainId::Relay => {
            if dest.parents == 0 && dest.interior.len() == 1 && dest.interior[0] is Parachain {
                Some(ChainId::Para(dest.interior[0]->Parachain_0))
            } else {
                None
            }
        },
        ChainId::Para(_) => {
            if dest.parents == 1 && dest.interior.len() == 0 {
                Some(ChainId::Relay)
            } else if dest.parents == 1 && dest.interior.len() == 1 && dest.interior[0]
                is Parachain {
                Some(ChainId::Para(dest.interior[0]->Parachain_0))
            } else {
                None
            }
        },
    }
}

fn origin_of_exec(sender: ChainId, receiver: ChainId) -> (r: Location)
    ensures
        r@ == origin_of(sender, receiver),
        r@.wf(),
{
    match (sender, receiver) {
        (ChainId::Relay, _) => {
            let l = Location::parent();
            proof {
                assert(l@.interior =~= Seq::<Junction>::empty());
            }
            l
        },
        (ChainId::Para(p), ChainId::Relay) => Location::child_parachain(p),
        (ChainId::Para(p), ChainId::Para(_)) => Location::parent_then(Junction::Parachain(p)),
    }
}

fn dest_chain_exec(from: ChainId, dest: &Location) -> (r: Option<ChainId>)
    ensures
        r == dest_chain(from, dest@),
{
    match from {
        ChainId::Relay => {
            if dest.parents == 0 && dest.interior.len() == 1 {
                match dest.interior[0] {
                    Junction::Parachain(q) => Some(ChainId::Para(q)),
                    _ => None,
                }
            } else {
                None
            }
        },
        ChainId::Para(_) => {
            if dest.parents == 1 && dest.interior.len() == 0 {
                Some(ChainId::Relay)
            } else if dest.parents == 1 && dest.interior.len() == 1 {
                match dest.interior[0] {
                    Junction::Parachain(q) => Some(ChainId::Para(q)),
                    _ => None,
                }
            } else {
                None
            }
        },
    }
}

/// How one inbound entry advances a chain, deterministically: bytes that
/// are the encoding of a well-formed message — there is at most one, by
/// the codec's canonicity — are executed and the outcome recorded; bytes
/// of an unknown version add a `BadVersion` event; bytes that are no
/// message's encoding add a `BadFormat` event. The three cases exclude
/// one another, so a delivered well-formed message is always executed.
pub open spec fn step_msg_rel(
    c: ChainModel,
    sender: ChainId,
    bytes: Seq<u8>,
    receiver: ChainId,
    limit: Weight,
    c2: ChainModel,
) -> bool {
    ||| (exists|m: Seq<InstrModel>|
        {
            &&& msg_encodable(m)
            &&& enc_message(m) == bytes
            &&& forall|m2: Seq<InstrModel>|
                msg_encodable(m2) && #[trigger] enc_message(m2) == bytes ==> m2 == m
            &&& {
                let (cx, o) = exec_message_spec(c, origin_of(sender, receiver), m, limit);
                c2 == ChainModel { events: cx.events.push(Event::Executed(o)), ..cx }
            }
        })
    ||| (bytes.len() >= 1 && bytes[0] != MESSAGE_VERSION && c2 == ChainModel {
        events: c.events.push(Event::BadVersion),
        ..c
    })
    ||| ((bytes.len() == 0 || bytes[0] == MESSAGE_VERSION) && !(exists|m: Seq<InstrModel>|
        msg_encodable(m) && #[trigger] enc_message(m) == bytes) && c2 == ChainModel {
        events: c.events.push(Event::BadFormat),
        ..c
    })
}

/// A chain reachable by processing a queue of inbound entries in order.
pub open spec fn processed_rel(
    c: ChainModel,
    msgs: Seq<(ChainId, Seq<u8>)>,
    receiver: ChainId,
    limit: Weight,
    c_final: ChainModel,
) -> bool
    decreases msgs.len(),
{
    if msgs.len() == 0 {
        c_final == c
    } else {
        exists|mid: ChainModel|
            {
                &&& #[trigger] step_msg_rel(
                    c,
                    msgs.first().0,
                    msgs.first().1,
                    receiver,
                    limit,
                    mid,
                )
                &&& processed_rel(mid, msgs.drop_first(), receiver, limit, c_final)
            }
    }
}

/// A delivered well-formed message is executed, not skipped: processing
/// a queue holding exactly its encoding leaves the chain in the one
/// state the executor's semantics gives it, with the outcome recorded.
pub proof fn lemma_delivered_message_executes(
    c: ChainModel,
    sender: ChainId,
    m: Seq<InstrModel>,
    receiver: ChainId,
    limit: Weight,
    fin: ChainModel,
)
    requires
        msg_encodable(m),
        processed_rel(c, seq![(sender, enc_message(m))], receiver, limit, fin),
    ensures
        ({
            let (cx, o) = exec_message_spec(c, origin_of(sender, receiver), m, limit);
            fin == ChainModel { events: cx.events.push(Event::Executed(o)), ..cx }
        }),
{
    let msgs = seq![(sender, enc_message(m))];
    assert(msgs.first() == (sender, enc_message(m)));
    let mid = choose|mid: ChainModel|
        {
            &&& #[trigger] step_msg_rel(c, msgs.first().0, msgs.first().1, receiver, limit, mid)
            &&& processed_rel(mid, msgs.drop_first(), receiver, limit, fin)
        };
    assert(msgs.drop_first() =~= Seq::<(ChainId, Seq<u8>)>::empty());
    assert(fin == mid);
    let bytes = enc_message(m);
    assert(bytes[0] == MESSAGE_VERSION) by {
        assert(bytes == (seq![MESSAGE_VERSION] + crate::bytes::le_bytes(m.len(), 4))
            + crate::codec::enc_instrs_items(m));
        assert(bytes[0] == (seq![MESSAGE_VERSION] + crate::bytes::le_bytes(m.len(), 4))[0]);
    }
    assert(exists|m2: Seq<InstrModel>| msg_encodable(m2) && #[trigger] enc_message(m2) == bytes);
    let mw = choose|mw: Seq<InstrModel>|
        {
            &&& msg_encodable(mw)
            &&& enc_message(mw) == bytes
            &&& forall|m2: Seq<InstrModel>|
                msg_encodable(m2) && #[trigger] enc_message(m2) == bytes ==> m2 == mw
            &&& {
                let (cx, o) = exec_message_spec(c, origin_of(sender, receiver), mw, limit);
                mid == ChainModel { events: cx.events.push(Event::Executed(o)), ..cx }
            }
        };
    assert(mw == m);
}

/// Extending a processing trace by one message.
pub proof fn lemma_processed_rel_push(
    c: ChainModel,
    msgs: Seq<(ChainId, Seq<u8>)>,
    receiver: ChainId,
    limit: Weight,
    mid: ChainModel,
    x: (ChainId, Seq<u8>),
    fin: ChainModel,
)
    requires
        processed_rel(c, msgs, receiver, limit, mid),
        step_msg_rel(mid, x.0, x.1, receiver, limit, fin),
    ensures
        processed_rel(c, msgs.push(x), receiver, limit, fin),
    decreases msgs.len(),
{
    if msgs.len() == 0 {
        assert(msgs.push(x).first() == x);
        assert(msgs.push(x).drop_first() =~= Seq::<(ChainId, Seq<u8>)>::empty());
        assert(step_msg_rel(c, x.0, x.1, receiver, limit, fin));
        assert(processed_rel(fin, msgs.push(x).drop_first(), receiver, limit, fin));
    } else {
        let m1 = choose|m1: ChainModel|
            {
                &&& #[trigger] step_msg_rel(
                    c,
                    msgs.first().0,
                    msgs.first().1,
                    receiver,
                    limit,
                    m1,
                )
                &&& processed_rel(m1, msgs.drop_first(), receiver, limit, mid)
            };
        lemma_processed_rel_push(m1, msgs.drop_first(), receiver, limit, mid, x, fin);
        assert(msgs.push(x).drop_first() =~= msgs.drop_first().push(x));
        assert(msgs.push(x).first() == msgs.first());
        assert(step_msg_rel(c, msgs.push(x).first().0, msgs.push(x).first().1, receiver, limit, m1));
    }
}

/// The deliveries a flushed outbound queue owes one target chain, in
/// queue order: each routable entry, stamped with the sender.
pub open spec fn deliveries_for(
    out: Seq<(LocModel, Seq<u8>)>,
    from: ChainId,
    target: ChainId,
) -> Seq<(ChainId, Seq<u8>)>
    decreases out.len(),
{
    if out.len() == 0 {
        Seq::empty()
    } else {
        deliveries_for(out.drop_last(), from, target) + if dest_chain(from, out.last().0)
            == Some(target) {
            seq![(from, out.last().1)]
        } else {
            Seq::empty()
        }
    }
}

/// The simulated network: one relay chain and its parachains.
#[derive(Debug)]
pub struct Network {
    pub relay: Chain,
    pub paras: Vec<Chain>,
}

/// Mathematical model of the network.
pub struct NetModel {
    pub relay: ChainModel,
    pub paras: Seq<ChainModel>,
}

impl View for Network {
    type V = NetModel;

    open spec fn view(&self) -> NetModel {
        NetModel { relay: self.relay@, paras: self.paras@.map_values(|c: Chain| c@) }
    }
}

impl NetModel {
    /// The relay is the relay; each parachain holds a distinct
    /// parachain id; every chain keeps its ledger invariants.
    pub open spec fn inv(self) -> bool {
        &&& self.relay.inv()
        &&& self.relay.id == ChainId::Relay
        &&& forall|i: int| 0 <= i < self.paras.len() ==> (#[trigger] self.paras[i]).inv()
        &&& forall|i: int| 0 <= i < self.paras.len() ==> (#[trigger] self.paras[i]).id is Para
        &&& forall|i: int, j: int|
            0 <= i < j < self.paras.len() ==> (#[trigger] self.paras[i]).id != (
            #[trigger] self.paras[j]).id
    }
}

fn find_para(paras: &Vec<Chain>, q: u32) -> (r: Option<usize>)
    ensures
        match r {
            Some(i) => i < paras@.len() && paras@[i as int]@.id == ChainId::Para(q),
            None => forall|i: int|
                0 <= i < paras@.len() ==> (#[trigger] paras@[i])@.id != ChainId::Para(q),
        },
{
    let n = paras.len();
    let mut i: usize = 0;
    while i < n
        invariant
            i <= n,
            n == paras@.len(),
            forall|k: int| 0 <= k < i ==> (#[trigger] paras@[k])@.id != ChainId::Para(q),
        decreases n - i,
    {
        match paras[i].id {
            ChainId::Para(p) => {
                if p == q {
                    return Some(i);
                }
            },
            _ => {},
        }
        i += 1;
    }
    None
}

/// Processes every message in `chain`'s inbound queue, in arrival order:
/// decode, execute, and record the outcome as an event; undecodable or
/// unknown-version bytes only add their event. The inbound queue is
/// left empty; messages execution produces go to the outbound queue.
fn process_chain_inbound(chain: &mut Chain, receiver: ChainId, limit: Weight)
    requires
        old(chain)@.inv(),
    ensures
        final(chain)@.inv(),
        final(chain)@.inbound == Seq::<(ChainId, Seq<u8>)>::empty(),
        final(chain)@.id == old(chain)@.id,
        final(chain)@.network == old(chain)@.network,
        final(chain)@.has_native == old(chain)@.has_native,
        final(chain)@.barrier == old(chain)@.barrier,
        processed_rel(
            ChainModel { inbound: Seq::empty(), ..old(chain)@ },
            old(chain)@.inbound,
            receiver,
            limit,
            final(chain)@,
        ),
{
    let mut msgs: Vec<(ChainId, Vec<u8>)> = Vec::new();
    core::mem::swap(&mut chain.inbound, &mut msgs);
    let ghost msgsm = msgs@.map_values(|p: (ChainId, Vec<u8>)| (p.0, p.1@));
    let ghost start = ChainModel { inbound: Seq::empty(), ..old(chain)@ };
    proof {
        assert(chain@.inbound =~= Seq::<(ChainId, Seq<u8>)>::empty());
        assert(chain@ == start);
        assert(msgsm.subrange(0, 0) =~= Seq::<(ChainId, Seq<u8>)>::empty());
    }
    let n = msgs.len();
    let mut k: usize = 0;
    while k < n
        invariant
            k <= n,
            n == msgs@.len(),
            msgsm == msgs@.map_values(|p: (ChainId, Vec<u8>)| (p.0, p.1@)),
            chain@.inv(),
            chain@.inbound == Seq::<(ChainId, Seq<u8>)>::empty(),
            chain@.id == start.id,
            chain@.network == start.network,
            chain@.has_native == start.has_native,
            chain@.barrier == start.barrier,
            processed_rel(start, msgsm.subrange(0, k as int), receiver, limit, chain@),
        decreases n - k,
    {
        let ghost pre = chain@;
        let sender = msgs[k].0;
        let origin = origin_of_exec(sender, receiver);
        match crate::codec::decode_message(&msgs[k].1) {
            Ok(m) => {
                let outcome = crate::executor::execute_message(chain, &origin, &m, limit);
                chain.events.push(Event::Executed(outcome));
                proof {
                    crate::executor::lemma_round_isolation(
                        pre,
                        origin_of(sender, receiver),
                        m@,
                        limit,
                    );
                    assert(step_msg_rel(
                        pre,
                        msgsm[k as int].0,
                        msgsm[k as int].1,
                        receiver,
                        limit,
                        chain@,
                    )) by {
                        let mm = m@;
                        assert(msg_encodable(mm) && enc_message(mm) == msgsm[k as int].1);
                        assert(forall|m2: Seq<InstrModel>|
                            msg_encodable(m2) && #[trigger] enc_message(m2) == msgsm[k as int].1
                                ==> m2 == mm);
                        let (cx, o) = exec_message_spec(
                            pre,
                            origin_of(sender, receiver),
                            mm,
                            limit,
                        );
                        assert(chain@ == ChainModel {
                            events: cx.events.push(Event::Executed(o)),
                            ..cx
                        });
                    }
                }
            },
            Err(crate::codec::CodecError::BadVersion) => {
                chain.events.push(Event::BadVersion);
                proof {
                    assert(step_msg_rel(
                        pre,
                        msgsm[k as int].0,
                        msgsm[k as int].1,
                        receiver,
                        limit,
                        chain@,
                    ));
                }
            },
            Err(crate::codec::CodecError::Malformed) => {
                chain.events.push(Event::BadFormat);
                proof {
                    assert(!(exists|m: Seq<InstrModel>|
                        msg_encodable(m) && #[trigger] enc_message(m) == msgsm[k as int].1));
                    assert(step_msg_rel(
                        pre,
                        msgsm[k as int].0,
                        msgsm[k as int].1,
                        receiver,
                        limit,
                        chain@,
                    ));
                }
            },
        }
        proof {
            assert(msgsm.subrange(0, k + 1 as int).drop_last() =~= msgsm.subrange(0, k as int));
            assert(msgsm.subrange(0, k + 1 as int).last() == msgsm[k as int]);
            lemma_processed_rel_push(
                start,
                msgsm.subrange(0, k as int),
                receiver,
                limit,
                pre,
                msgsm[k as int],
                chain@,
            );
            assert(msgsm.subrange(0, k as int).push(msgsm[k as int]) =~= msgsm.subrange(
                0,
                k + 1 as int,
            ));
        }
        k += 1;
    }
    proof {
        assert(msgsm.subrange(0, n as int) =~= msgsm);
    }
}

impl Network {
    /// A fresh network over the given chains.
    pub fn new(relay: Chain, paras: Vec<Chain>) -> (r: Network)
        ensures
            r@.relay == relay@,
            r@.paras == paras@.map_values(|c: Chain| c@),
    {
        Network { relay, paras }
    }

    /// A borrowed view of one chain, the relay or a parachain by id;
    /// `None` for an unknown id.
    pub fn chain(&self, who: ChainId) -> (r: Option<&Chain>)
        requires
            self@.inv(),
        ensures
            match r {
                Some(c) => c@.id == who && (who == ChainId::Relay && c@ == self@.relay || exists|
                    i: int,
                |
                    0 <= i < self@.paras.len() && c@ == #[trigger] self@.paras[i]),
                None => who is Para && forall|i: int|
                    0 <= i < self@.paras.len() ==> (#[trigger] self@.paras[i]).id != who,
            },
    {
        match who {
            ChainId::Relay => Some(&self.relay),
            ChainId::Para(q) => match find_para(&self.paras, q) {
                Some(i) => {
                    proof {
                        assert(self@.paras[i as int] == self.paras@[i as int]@);
                    }
                    Some(&self.paras[i])
                },
                None => {
                    proof {
                        assert forall|i: int| 0 <= i < self@.paras.len() implies (
                        #[trigger] self@.paras[i]).id != who by {
                            assert(self@.paras[i] == self.paras@[i]@);
                        }
                    }
                    None
                },
            },
        }
    }

    /// Processes every message present in `who`'s inbound queue at the
    /// call, in order. Messages those executions enqueue stay in `who`'s
    /// outbound queue until the next flush: they are absent from what
    /// this round processed.
    pub fn process_inbound(&mut self, who: ChainId, limit: Weight)
        requires
            old(self)@.inv(),
        ensures
            final(self)@.inv(),
            match who {
                ChainId::Relay => {
                    &&& final(self)@.paras == old(self)@.paras
                    &&& final(self)@.relay.inbound == Seq::<(ChainId, Seq<u8>)>::empty()
                    &&& processed_rel(
                        ChainModel { inbound: Seq::empty(), ..old(self)@.relay },
                        old(self)@.relay.inbound,
                        who,
                        limit,
                        final(self)@.relay,
                    )
                },
                ChainId::Para(q) => {
                    &&& final(self)@.relay == old(self)@.relay
                    &&& forall|i: int|
                        0 <= i < old(self)@.paras.len() && (#[trigger] old(self)@.paras[i]).id
                            != who ==> final(self)@.paras[i] == old(self)@.paras[i]
                    &&& final(self)@.paras.len() == old(self)@.paras.len()
                    &&& forall|i: int|
                        0 <= i < old(self)@.paras.len() && (#[trigger] old(self)@.paras[i]).id
                            == who ==> processed_rel(
                            ChainModel { inbound: Seq::empty(), ..old(self)@.paras[i] },
                            old(self)@.paras[i].inbound,
                            who,
                            limit,
                            final(self)@.paras[i],
                        ) && final(self)@.paras[i].inbound == Seq::<(ChainId, Seq<u8>)>::empty()
                },
            },
    {
        match who {
            ChainId::Relay => {
                process_chain_inbound(&mut self.relay, who, limit);
            },
            ChainId::Para(q) => {
                match find_para(&self.paras, q) {
                    Some(i) => {
                        let ghost prevm = self@.paras;
                        let pc = &mut self.paras[i];
                        process_chain_inbound(pc, who, limit);
                        proof {
                            assert(self@.paras.len() == prevm.len());
                            assert forall|t: int|
                                0 <= t < prevm.len() && t != i implies self@.paras[t] == prevm[t]
                            by {
                                assert(self.paras@[t] == old(self).paras@[t]);
                            }
                            assert forall|t: int|
                                0 <= t < prevm.len() && (#[trigger] prevm[t]).id == who implies t
                                == i by {
                                if t != i {
                                    assert(prevm[i as int].id == who);
                                }
                            }
                            assert forall|t: int| 0 <= t < self@.paras.len() implies (
                            #[trigger] self@.paras[t]).inv() by {
                                if t != i {
                                    assert(self@.paras[t] == prevm[t]);
                                    assert(old(self)@.paras[t].inv());
                                }
                            }
                            assert forall|t: int| 0 <= t < self@.paras.len() implies (
                            #[trigger] self@.paras[t]).id is Para by {
                                if t != i {
                                    assert(self@.paras[t] == prevm[t]);
                                    assert(old(self)@.paras[t].id is Para);
                                }
                            }
                            assert forall|a: int, b: int|
                                0 <= a < b < self@.paras.len() implies (
                            #[trigger] self@.paras[a]).id != (#[trigger] self@.paras[b]).id by {
                                assert(prevm[a].id != prevm[b].id);
                                assert(self@.paras[a].id == prevm[a].id);
                                assert(self@.paras[b].id == prevm[b].id);
                            }
                        }
                    },
                    None => {},
                }
            },
        }
    }

    /// Flushes `who`'s outbound queue one hop: each routable entry is
    /// appended, in order, to its destination's inbound queue, stamped
    /// with the sender; entries naming no reachable chain are dropped.
    /// Nothing is executed here: delivered bytes wait in the peers'
    /// inbound queues for their own round.
    #[verifier::loop_isolation(false)]
    pub fn flush_outbound(&mut self, who: ChainId)
        requires
            old(self)@.inv(),
        ensures
            final(self)@.inv(),
            ({
                let out = outbound_of(old(self)@, who);
                &&& final(self)@.relay.inbound == old(self)@.relay.inbound + (if who
                    == ChainId::Relay {
                    Seq::<(ChainId, Seq<u8>)>::empty()
                } else {
                    deliveries_for(out, who, ChainId::Relay)
                })
                &&& final(self)@.paras.len() == old(self)@.paras.len()
                &&& forall|i: int|
                    0 <= i < old(self)@.paras.len() ==> final(self)@.paras[i].inbound == (
                    #[trigger] old(self)@.paras[i]).inbound + (if old(self)@.paras[i].id == who {
                        Seq::<(ChainId, Seq<u8>)>::empty()
                    } else {
                        deliveries_for(out, who, old(self)@.paras[i].id)
                    })
                &&& stable_chain(final(self)@.relay, ChainModel {
                    outbound: if who == ChainId::Relay {
                        Seq::empty()
                    } else {
                        old(self)@.relay.outbound
                    },
                    ..old(self)@.relay
                })
                &&& forall|i: int|
                    0 <= i < old(self)@.paras.len() ==> stable_chain(
                        final(self)@.paras[i],
                        ChainModel {
                            outbound: if (#[trigger] old(self)@.paras[i]).id == who {
                                Seq::empty()
                            } else {
                                old(self)@.paras[i].outbound
                            },
                            ..old(self)@.paras[i]
                        },
                    )
            }),
    {
        let ghost net0 = self@;
        let out = self.take_outbound(who);
        let ghost outm = out@.map_values(|p: (Location, Vec<u8>)| (p.0@, p.1@));
        proof {
            assert(outm == outbound_of(net0, who));
            assert(outm.subrange(0, 0) =~= Seq::<(LocModel, Seq<u8>)>::empty());
            lemma_deliveries_empty(who);
        }
        let ghost base = self@;
        let n = out.len();
        let mut k: usize = 0;
        while k < n
            invariant
                k <= n,
                n == out@.len(),
                outm == out@.map_values(|p: (Location, Vec<u8>)| (p.0@, p.1@)),
                self@.relay.inbound == base.relay.inbound + (if who == ChainId::Relay {
                    Seq::<(ChainId, Seq<u8>)>::empty()
                } else {
                    deliveries_for(outm.subrange(0, k as int), who, ChainId::Relay)
                }),
                self@.paras.len() == base.paras.len(),
                forall|i: int|
                    0 <= i < base.paras.len() ==> self@.paras[i].inbound == (
                    #[trigger] base.paras[i]).inbound + (if base.paras[i].id == who {
                        Seq::<(ChainId, Seq<u8>)>::empty()
                    } else {
                        deliveries_for(outm.subrange(0, k as int), who, base.paras[i].id)
                    }),
                forall|i: int|
                    0 <= i < base.paras.len() ==> stable_chain(
                        #[trigger] self@.paras[i],
                        base.paras[i],
                    ),
                stable_chain(self@.relay, base.relay),
            decreases n - k,
        {
            let ghost prevnet = self@;
            proof {
                lemma_deliveries_step(outm, k as int, who);
                assert(outm[k as int] == (out@[k as int].0@, out@[k as int].1@));
            }
            let target = dest_chain_exec(who, &out[k].0);
            match target {
                Some(ChainId::Relay) => {
                    if !chain_id_eq(who, ChainId::Relay) {
                        let bytes = clone_bytes(&out[k].1);
                        self.relay.inbound.push((who, bytes));
                        proof {
                            assert(self@.relay.inbound =~= prevnet.relay.inbound + seq![
                                (who, outm[k as int].1),
                            ]);
                            assert(self@.relay.inbound =~= base.relay.inbound + deliveries_for(
                                outm.subrange(0, k + 1 as int),
                                who,
                                ChainId::Relay,
                            ));
                            assert(stable_chain(self@.relay, base.relay));
                        }
                    } else {
                        proof {
                            assert(dest_chain(who, outm[k as int].0) is None);
                        }
                    }
                },
                Some(ChainId::Para(q)) => {
                    match find_para(&self.paras, q) {
                        Some(i) => {
                            if !chain_id_eq(self.paras[i].id, who) {
                                let bytes = clone_bytes(&out[k].1);
                                let pc = &mut self.paras[i];
                                pc.inbound.push((who, bytes));
                                proof {
                                    assert(self@.paras.len() == prevnet.paras.len());
                                    assert forall|t: int|
                                        0 <= t < prevnet.paras.len() && t != i implies self@.paras[t]
                                        == prevnet.paras[t] by {
                                        assert(self@.paras[t] == self.paras@[t]@);
                                    }
                                    assert(self@.paras[i as int].inbound =~= prevnet.paras[i as int].inbound
                                        + seq![(who, outm[k as int].1)]);
                                    assert(stable_chain(
                                        self@.paras[i as int],
                                        prevnet.paras[i as int],
                                    ));
                                    assert forall|t: int|
                                        0 <= t < base.paras.len() implies stable_chain(
                                        #[trigger] self@.paras[t],
                                        base.paras[t],
                                    ) by {
                                        if t != i {
                                            assert(self@.paras[t] == prevnet.paras[t]);
                                        }
                                        assert(stable_chain(prevnet.paras[t], base.paras[t]));
                                    }
                                    assert forall|t: int|
                                        0 <= t < base.paras.len() implies self@.paras[t].inbound
                                        == (#[trigger] base.paras[t]).inbound + (if base.paras[t].id
                                        == who {
                                        Seq::<(ChainId, Seq<u8>)>::empty()
                                    } else {
                                        deliveries_for(
                                            outm.subrange(0, k + 1 as int),
                                            who,
                                            base.paras[t].id,
                                        )
                                    }) by {
                                        if t == i {
                                            assert(self@.paras[t].inbound =~= base.paras[t].inbound
                                                + deliveries_for(
                                                outm.subrange(0, k + 1 as int),
                                                who,
                                                base.paras[t].id,
                                            ));
                                        } else {
                                            assert(self@.paras[t] == prevnet.paras[t]);
                                            assert(stable_chain(
                                                prevnet.paras[i as int],
                                                base.paras[i as int],
                                            ));
                                            assert(base.paras[i as int].id == ChainId::Para(q));
                                            assert(base.paras[t].id != base.paras[i as int].id);
                                        }
                                    }
                                }
                            } else {
                                proof {
                                    assert forall|t: int|
                                        0 <= t < base.paras.len() implies self@.paras[t].inbound
                                        == (#[trigger] base.paras[t]).inbound + (if base.paras[t].id
                                        == who {
                                        Seq::<(ChainId, Seq<u8>)>::empty()
                                    } else {
                                        deliveries_for(
                                            outm.subrange(0, k + 1 as int),
                                            who,
                                            base.paras[t].id,
                                        )
                                    }) by {
                                        if base.paras[t].id != who {
                                            assert(stable_chain(
                                                prevnet.paras[i as int],
                                                base.paras[i as int],
                                            ));
                                            assert(base.paras[i as int].id == ChainId::Para(q));
                                            if t != i {
                                                assert(base.paras[t].id != base.paras[
                                                    i as int].id);
                                            }
                                        }
                                    }
                                }
                            }
                        },
                        None => {
                            proof {
                                assert forall|t: int|
                                    0 <= t < base.paras.len() implies self@.paras[t].inbound == (
                                #[trigger] base.paras[t]).inbound + (if base.paras[t].id == who {
                                    Seq::<(ChainId, Seq<u8>)>::empty()
                                } else {
                                    deliveries_for(
                                        outm.subrange(0, k + 1 as int),
                                        who,
                                        base.paras[t].id,
                                    )
                                }) by {
                                    assert(base.paras[t].id != ChainId::Para(q));
                                }
                            }
                        },
                    }
                },
                None => {},
            }
            k += 1;
        }
        proof {
            assert(outm.subrange(0, n as int) =~= outm);
            assert(self@.relay.inv()) by {
                assert(stable_chain(self@.relay, base.relay));
                assert(base.relay.inv());
            }
            assert forall|t: int| 0 <= t < self@.paras.len() implies (
            #[trigger] self@.paras[t]).inv() by {
                assert(stable_chain(self@.paras[t], base.paras[t]));
                assert(base.paras[t].inv());
            }
            assert forall|t: int| 0 <= t < self@.paras.len() implies (
            #[trigger] self@.paras[t]).id is Para by {
                assert(stable_chain(self@.paras[t], base.paras[t]));
                assert(base.paras[t].id is Para);
            }
            assert forall|a: int, b: int|
                0 <= a < b < self@.paras.len() implies (#[trigger] self@.paras[a]).id != (
            #[trigger] self@.paras[b]).id by {
                assert(stable_chain(self@.paras[a], base.paras[a]));
                assert(stable_chain(self@.paras[b], base.paras[b]));
                assert(base.paras[a].id != base.paras[b].id);
            }
        }
    }

    /// Takes the outbound queue of one chain, leaving it empty; an
    /// unknown id yields nothing.
    fn take_outbound(&mut self, who: ChainId) -> (r: Vec<(Location, Vec<u8>)>)
        requires
            old(self)@.inv(),
        ensures
            final(self)@.inv(),
            r@.map_values(|p: (Location, Vec<u8>)| (p.0@, p.1@)) == outbound_of(old(self)@, who),
            match who {
                ChainId::Relay => final(self)@ == (NetModel {
                    relay: ChainModel { outbound: Seq::empty(), ..old(self)@.relay },
                    ..old(self)@
                }),
                ChainId::Para(q) => ({
                    &&& final(self)@.relay == old(self)@.relay
                    &&& final(self)@.paras.len() == old(self)@.paras.len()
                    &&& forall|i: int|
                        0 <= i < old(self)@.paras.len() ==> final(self)@.paras[i] == (if (
                        #[trigger] old(self)@.paras[i]).id == who {
                            ChainModel { outbound: Seq::empty(), ..old(self)@.paras[i] }
                        } else {
                            old(self)@.paras[i]
                        })
                }),
            },
    {
        let mut out: Vec<(Location, Vec<u8>)> = Vec::new();
        match who {
            ChainId::Relay => {
                core::mem::swap(&mut self.relay.outbound, &mut out);
                proof {
                    assert(self@.relay.outbound =~= Seq::<(LocModel, Seq<u8>)>::empty());
                    assert(out@.map_values(|p: (Location, Vec<u8>)| (p.0@, p.1@)) == outbound_of(
                        old(self)@,
                        who,
                    ));
                }
            },
            ChainId::Para(q) => {
                match find_para(&self.paras, q) {
                    Some(i) => {
                        let ghost prevm = self@.paras;
                        let pc = &mut self.paras[i];
                        core::mem::swap(&mut pc.outbound, &mut out);
                        proof {
                            assert(self@.paras[i as int].outbound =~= Seq::<
                                (LocModel, Seq<u8>),
                            >::empty());
                            assert forall|t: int|
                                0 <= t < prevm.len() && t != i implies self@.paras[t] == prevm[t]
                            by {
                                assert(self.paras@[t] == old(self).paras@[t]);
                            }
                            assert forall|t: int|
                                0 <= t < prevm.len() && (#[trigger] prevm[t]).id == who implies t
                                == i by {
                                if t != i {
                                    assert(prevm[i as int].id == who);
                                }
                            }
                            lemma_outbound_of_para(old(self)@, who, i as int);
                            assert(self@.paras[i as int] == ChainModel {
                                outbound: Seq::empty(),
                                ..prevm[i as int]
                            });
                            assert forall|t: int| 0 <= t < self@.paras.len() implies (
                            #[trigger] self@.paras[t]).inv() by {
                                if t != i {
                                    assert(self@.paras[t] == prevm[t]);
                                    assert(old(self)@.paras[t].inv());
                                }
                            }
                            assert forall|t: int| 0 <= t < self@.paras.len() implies (
                            #[trigger] self@.paras[t]).id is Para by {
                                assert(self@.paras[t].id == prevm[t].id);
                                assert(old(self)@.paras[t].id is Para);
                            }
                            assert forall|a: int, b: int|
                                0 <= a < b < self@.paras.len() implies (
                            #[trigger] self@.paras[a]).id != (#[trigger] self@.paras[b]).id by {
                                assert(self@.paras[a].id == prevm[a].id);
                                assert(self@.paras[b].id == prevm[b].id);
                                assert(prevm[a].id != prevm[b].id);
                            }
                        }
                    },
                    None => {
                        proof {
                            assert(out@.map_values(|p: (Location, Vec<u8>)| (p.0@, p.1@)) =~= Seq::<
                                (LocModel, Seq<u8>),
                            >::empty());
                            if exists|i: int|
                                0 <= i < old(self)@.paras.len() && (#[trigger] old(
                                    self,
                                )@.paras[i]).id == who {
                                let i = choose|i: int|
                                    0 <= i < old(self)@.paras.len() && (#[trigger] old(
                                        self,
                                    )@.paras[i]).id == who;
                                assert(old(self).paras@[i]@.id == ChainId::Para(q));
                                assert(false);
                            }
                        }
                    },
                }
            },
        }
        out
    }
}

/// The outbound queue of the chain `who` names; empty when no chain
/// carries that id.
pub open spec fn outbound_of(net: NetModel, who: ChainId) -> Seq<(LocModel, Seq<u8>)> {
    match who {
        ChainId::Relay => net.relay.outbound,
        ChainId::Para(_) => {
            if exists|i: int|
                0 <= i < net.paras.len() && (#[trigger] net.paras[i]).id == who {
                net.paras[choose|i: int|
                    0 <= i < net.paras.len() && (#[trigger] net.paras[i]).id == who].outbound
            } else {
                Seq::empty()
            }
        },
    }
}

/// With distinct parachain ids, `outbound_of` reads the queue of the one
/// matching parachain.
pub proof fn lemma_outbound_of_para(net: NetModel, who: ChainId, i: int)
    requires
        net.inv(),
        0 <= i < net.paras.len(),
        net.paras[i].id == who,
        who is Para,
    ensures
        outbound_of(net, who) == net.paras[i].outbound,
{
    let j = choose|j: int| 0 <= j < net.paras.len() && (#[trigger] net.paras[j]).id == who;
    if j != i {
        assert(net.paras[i].id != net.paras[j].id);
    }
}

/// Extending a flushed prefix by one entry extends exactly its target's
/// deliveries.
proof fn lemma_deliveries_step(outm: Seq<(LocModel, Seq<u8>)>, k: int, who: ChainId)
    requires
        0 <= k < outm.len(),
    ensures
        forall|t: ChainId|
            dest_chain(who, outm[k].0) != Some(t) ==> #[trigger] deliveries_for(
                outm.subrange(0, k + 1),
                who,
                t,
            ) == deliveries_for(outm.subrange(0, k), who, t),
        forall|t: ChainId|
            dest_chain(who, outm[k].0) == Some(t) ==> #[trigger] deliveries_for(
                outm.subrange(0, k + 1),
                who,
                t,
            ) == deliveries_for(outm.subrange(0, k), who, t) + seq![(who, outm[k].1)],
{
    assert(outm.subrange(0, k + 1).drop_last() =~= outm.subrange(0, k));
    assert(outm.subrange(0, k + 1).last() == outm[k]);
    assert forall|t: ChainId|
        dest_chain(who, outm[k].0) != Some(t) implies #[trigger] deliveries_for(
        outm.subrange(0, k + 1),
        who,
        t,
    ) == deliveries_for(outm.subrange(0, k), who, t) by {
        assert(deliveries_for(outm.subrange(0, k + 1), who, t) =~= deliveries_for(
            outm.subrange(0, k),
            who,
            t,
        ));
    }
}

/// The balance the stock genesis endows its funded accounts with.
pub const INITIAL_BALANCE: u128 = 1_000_000;

/// The stock parachain genesis: no native backing for the chain-anchored
/// asset, an unpaid-execution barrier, the two funded balance accounts,
/// and one asset class issued by the parachain's own sovereign account,
/// holding nothing yet.
pub fn para_ext(para_id: u32) -> (r: Chain)
    ensures
        r@.inv(),
        r@.id == ChainId::Para(para_id),
        r@.network == crate::location::NetworkId::Kusama,
        r@.has_native == false,
        r@.barrier == crate::chain::Barrier::AllowAll,
        r@.events == Seq::<Event>::empty(),
        r@.inbound == Seq::<(ChainId, Seq<u8>)>::empty(),
        r@.outbound == Seq::<(LocModel, Seq<u8>)>::empty(),
        r@.storage == Seq::<(AccountId, u64)>::empty(),
        crate::chain::bal0(r@.balances, crate::executor::account_of_bytes(Seq::new(32, |i: int| 0u8)))
            == INITIAL_BALANCE,
        crate::chain::bal0(
            r@.balances,
            crate::executor::account_of_bytes(crate::account::parent_preset_bytes()),
        ) == INITIAL_BALANCE,
        crate::chain::class_of(r@.assets, para_asset_model()) == Some(
            crate::chain::AssetClassData {
                issuer: crate::executor::account_of_bytes(
                    crate::account::para_sovereign_bytes(crate::account::child_para_prefix(), 1),
                ),
                issuance: 0,
                balances: Seq::empty(),
            },
        ),
        r@.assets.len() == 1,
    {
    let alice = AccountId::new([0u8; 32]);
    let parent_acct = crate::account::parent_account_id();
    let mut c = Chain::new(
        ChainId::Para(para_id),
        crate::location::NetworkId::Kusama,
        false,
        crate::chain::Barrier::AllowAll,
    );
    proof {
        assert(c@.balances =~= Seq::<(AccountId, u128)>::empty());
        assert(c@.assets =~= Seq::<(AssetIdModel, crate::chain::AssetClassData)>::empty());
        assert(c@.storage =~= Seq::<(AccountId, u64)>::empty());
    }
    c.genesis_balance(&alice, INITIAL_BALANCE);
    c.genesis_balance(&parent_acct, INITIAL_BALANCE);
    let asset1 = para_asset_id();
    let issuer = crate::account::child_account_id(1);
    c.genesis_asset(asset1, &issuer);
    proof {
        crate::kv::lemma_kv_get_put(
            Seq::<(AccountId, u128)>::empty(),
            alice,
            INITIAL_BALANCE,
            alice,
        );
        crate::kv::lemma_kv_get_put(
            crate::kv::kv_put(Seq::<(AccountId, u128)>::empty(), alice, INITIAL_BALANCE),
            parent_acct,
            INITIAL_BALANCE,
            alice,
        );
        crate::kv::lemma_kv_get_put(
            crate::kv::kv_put(Seq::<(AccountId, u128)>::empty(), alice, INITIAL_BALANCE),
            parent_acct,
            INITIAL_BALANCE,
            parent_acct,
        );
        crate::executor::lemma_account_of_bytes(alice);
        crate::executor::lemma_account_of_bytes(parent_acct);
        crate::executor::lemma_account_of_bytes(issuer);
        broadcast use vstd::array::group_array_axioms;

        assert(alice@ =~= Seq::new(32, |i: int| 0u8));
        assert(parent_acct != alice) by {
            assert(parent_acct@[0] == 80u8);
            assert(alice@[0] == 0u8);
        }
        let empty_assets = Seq::<(AssetIdModel, crate::chain::AssetClassData)>::empty();
        let data = crate::chain::AssetClassData {
            issuer,
            issuance: 0,
            balances: Seq::empty(),
        };
        crate::kv::lemma_kv_get_put(empty_assets, para_asset_model(), data, para_asset_model());
        assert(c@.assets == crate::kv::kv_put(empty_assets, para_asset_model(), data));
    }
    c
}

/// The identity of the asset class the stock parachain genesis creates:
/// a local asset anchored under one of the chain's own pallets.
pub open spec fn para_asset_model() -> AssetIdModel {
    AssetIdModel::Concrete(
        LocModel {
            parents: 0,
            interior: seq![Junction::PalletInstance(10), Junction::GeneralIndex(1)],
        },
    )
}

/// The asset class the stock parachain genesis creates, as a value.
pub fn para_asset_id() -> (r: AssetId)
    ensures
        r@ == para_asset_model(),
{
    let mut interior: Vec<Junction> = Vec::new();
    interior.push(Junction::PalletInstance(10));
    interior.push(Junction::GeneralIndex(1));
    let l = Location { parents: 0, interior };
    proof {
        assert(l@.interior =~= seq![Junction::PalletInstance(10), Junction::GeneralIndex(1)]);
    }
    AssetId::Concrete(l)
}

/// The stock relay genesis: a native ledger backing the chain-anchored
/// asset, an unpaid-execution barrier, and two funded accounts.
pub fn relay_ext() -> (r: Chain)
    ensures
        r@.inv(),
        r@.id == ChainId::Relay,
        r@.network == crate::location::NetworkId::Kusama,
        r@.has_native == true,
        r@.barrier == crate::chain::Barrier::AllowAll,
        r@.events == Seq::<Event>::empty(),
        r@.inbound == Seq::<(ChainId, Seq<u8>)>::empty(),
        r@.outbound == Seq::<(LocModel, Seq<u8>)>::empty(),
        r@.assets == Seq::<(AssetIdModel, crate::chain::AssetClassData)>::empty(),
        r@.storage == Seq::<(AccountId, u64)>::empty(),
        r@.balances == crate::kv::kv_put(
            crate::kv::kv_put(
                Seq::<(AccountId, u128)>::empty(),
                crate::executor::account_of_bytes(Seq::new(32, |i: int| 0u8)),
                100_000,
            ),
            crate::executor::account_of_bytes(Seq::new(32, |i: int| 1u8)),
            100_000,
        ),
    {
    let alice = AccountId::new([0u8; 32]);
    let bob = AccountId::new([1u8; 32]);
    let mut c = Chain::new(
        ChainId::Relay,
        crate::location::NetworkId::Kusama,
        true,
        crate::chain::Barrier::AllowAll,
    );
    proof {
        assert(c@.balances =~= Seq::<(AccountId, u128)>::empty());
        assert(c@.assets =~= Seq::<(AssetIdModel, crate::chain::AssetClassData)>::empty());
        assert(c@.storage =~= Seq::<(AccountId, u64)>::empty());
    }
    c.genesis_balance(&alice, 100_000);
    c.genesis_balance(&bob, 100_000);
    proof {
        crate::executor::lemma_account_of_bytes(alice);
        crate::executor::lemma_account_of_bytes(bob);
        broadcast use vstd::array::group_array_axioms;

        assert(alice@ =~= Seq::new(32, |i: int| 0u8));
        assert(bob@ =~= Seq::new(32, |i: int| 1u8));
    }
    c
}

/// A location one step up: the same interior seen from the parent hop.
pub open spec fn reanchor_up(l: LocModel) -> Option<LocModel> {
    if l.parents < 255 {
        Some(LocModel { parents: l.parents + 1, interior: l.interior })
    } else {
        None
    }
}

/// The program a reserve chain sends its destination after locking an
/// asset: credit the holding with the reanchored asset, then deposit
/// everything to the beneficiary.
pub open spec fn mint_program(asset: AssetModel, beneficiary: LocModel) -> Seq<InstrModel> {
    seq![
        InstrModel::ReserveAssetDeposited(seq![asset]),
        InstrModel::DepositAsset {
            assets: crate::asset::FilterModel::WildAll,
            beneficiary,
        },
    ]
}

/// What an outbound reserve transfer does: move the asset from the
/// signer into the destination's sovereign account — the lock — and
/// queue the destination the program that mints the derivative for the
/// beneficiary. Fails exactly as the underlying transfer does, or with
/// `LocationOverflow` when the asset cannot be addressed from one hop
/// up; nothing changes on failure.
pub open spec fn reserve_transfer_spec(
    c: ChainModel,
    signer: AccountId,
    dest: LocModel,
    beneficiary: LocModel,
    asset: AssetModel,
) -> (ChainModel, Result<(), ExecError>) {
    match asset.fun {
        Fungibility::NonFungible(_) => (c, Err(ExecError::NotWithdrawable)),
        Fungibility::Fungible(amount) => match asset.id {
            AssetIdModel::Abstract(_) => (c, Err(ExecError::LocationOverflow)),
            AssetIdModel::Concrete(l) => match reanchor_up(l) {
                None => (c, Err(ExecError::LocationOverflow)),
                Some(l2) => {
                    let sov = account_of_location(dest, c.network);
                    let (c2, e) = transfer_assets_spec(c, signer, sov, seq![asset]);
                    match e {
                        Some(err) => (c2, Err(err)),
                        None => {
                            let prog = mint_program(
                                AssetModel {
                                    id: AssetIdModel::Concrete(l2),
                                    fun: Fungibility::Fungible(amount),
                                },
                                beneficiary,
                            );
                            (
                                ChainModel {
                                    outbound: c2.outbound.push((dest, enc_message(prog))),
                                    ..c2
                                },
                                Ok(()),
                            )
                        },
                    }
                },
            },
        },
    }
}

impl Chain {
    /// Locks `asset` for `dest` and queues the derivative mint for the
    /// beneficiary there: the outbound half of the reserve transfer
    /// protocol. The `fee_item` index is accepted for interface fidelity;
    /// fee handling is a collaborator's concern, not this core's.
    pub fn reserve_transfer_assets(
        &mut self,
        signer: &AccountId,
        dest: Location,
        beneficiary: Location,
        asset: Asset,
        fee_item: u32,
    ) -> (r: Result<(), ExecError>)
        requires
            old(self)@.inv(),
            crate::codec::asset_id_encodable(asset.id@),
            beneficiary@.wf(),
        ensures
            final(self)@.inv(),
            (final(self)@, r) == reserve_transfer_spec(
                old(self)@,
                *signer,
                dest@,
                beneficiary@,
                asset@,
            ),
    {
        let amount = match asset.fun {
            Fungibility::Fungible(a) => a,
            Fungibility::NonFungible(_) => {
                return Err(ExecError::NotWithdrawable);
            },
        };
        let l = match &asset.id {
            AssetId::Concrete(l) => l,
            AssetId::Abstract(_) => {
                return Err(ExecError::LocationOverflow);
            },
        };
        if l.parents == 255 {
            return Err(ExecError::LocationOverflow);
        }
        let sov = crate::account::derive_account(&dest, self.network);
        proof {
            crate::executor::lemma_account_of_bytes(sov);
            assert(crate::asset::assets_model(Seq::<Asset>::empty()).len() == 0);
        }
        match crate::transactor::transfer_check(self, &asset.id, amount, signer, &sov) {
            Some(e) => {
                proof {
                    let am = seq![asset@];
                    assert(am.first() == asset@);
                    assert(transfer_assets_spec(old(self)@, *signer, sov, am) == (
                        old(self)@,
                        Some(e),
                    ));
                }
                return Err(e);
            },
            None => {},
        }
        let okw = crate::transactor::transactor_withdraw(self, &asset.id, amount, signer);
        proof {
            assert(okw);
        }
        let okd = crate::transactor::transactor_deposit(self, &asset.id, amount, &sov);
        proof {
            assert(okd);
            let am = seq![asset@];
            assert(am.first() == asset@);
            assert(am.drop_first() =~= Seq::<AssetModel>::empty());
            let w = crate::transactor::withdraw_one_spec(old(self)@, asset.id@, amount, *signer);
            let c2 = w->Some_0;
            let d = crate::transactor::deposit_one_spec(c2, asset.id@, amount, sov);
            assert(self@ == d->Some_0);
            assert(transfer_assets_spec(d->Some_0, *signer, sov, am.drop_first()) == (
                d->Some_0,
                None::<ExecError>,
            ));
            assert(transfer_assets_spec(old(self)@, *signer, sov, am) == (self@, None::<
                ExecError,
            >));
        }
        let reanchored = Location { parents: l.parents + 1, interior: crate::chain::clone_location(l).interior };
        let mint_asset = Asset {
            id: AssetId::Concrete(reanchored),
            fun: Fungibility::Fungible(amount),
        };
        let mut assets_vec: Vec<Asset> = Vec::new();
        assets_vec.push(mint_asset);
        let mut instructions: Vec<Instruction> = Vec::new();
        instructions.push(Instruction::ReserveAssetDeposited(assets_vec));
        instructions.push(
            Instruction::DepositAsset { assets: AssetFilter::WildAll, beneficiary },
        );
        let msg = Message { instructions };
        let ghost prog = mint_program(
            AssetModel {
                id: AssetIdModel::Concrete(reanchor_up(l@)->Some_0),
                fun: Fungibility::Fungible(amount),
            },
            beneficiary@,
        );
        proof {
            crate::message::lemma_instrs_model_index(msg.instructions@, 0);
            crate::message::lemma_instrs_model_index(msg.instructions@, 1);
            assert(crate::asset::assets_model(msg.instructions@[0]->WithdrawAsset_0@) == prog[0]->WithdrawAsset_0 || true);
            assert(msg@ =~= prog) by {
                assert(msg@.len() == 2);
                assert(msg@[0] == crate::message::instr_model(msg.instructions@[0]));
                assert(crate::asset::assets_model(seq![mint_asset]) =~= seq![mint_asset@]);
                assert(msg@[1] == crate::message::instr_model(msg.instructions@[1]));
            }
            assert(crate::codec::instrs_encodable(prog)) by {
                assert(crate::codec::instr_encodable(prog[0]));
                assert(crate::codec::instr_encodable(prog[1]));
            }
        }
        let bytes = crate::codec::encode_message(&msg);
        let ghost pre = self@;
        self.outbound.push((dest, bytes));
        proof {
            assert(self@.outbound =~= pre.outbound.push((dest@, enc_message(prog))));
        }
        Ok(())
    }

    /// Queues a message to `dest` on behalf of a signed local account:
    /// the message travels behind a `DescendOrigin` naming the signer, so
    /// the receiver sees the sender's sub-identity, never the bare chain.
    pub fn send(&mut self, signer: &AccountId, dest: Location, msg: Message)
        requires
            old(self)@.inv(),
            crate::codec::instrs_encodable(msg@),
            msg@.len() + 1 < 0x100000000,
        ensures
            final(self)@.inv(),
            final(self)@ == (ChainModel {
                outbound: old(self)@.outbound.push(
                    (
                        dest@,
                        enc_message(
                            seq![
                                InstrModel::DescendOrigin(
                                    Junction::AccountId32 {
                                        network: Option::None,
                                        id: signer.bytes,
                                    },
                                ),
                            ] + msg@,
                        ),
                    ),
                ),
                ..old(self)@
            }),
    {
        let ghost prefix = seq![
            InstrModel::DescendOrigin(
                Junction::AccountId32 { network: Option::None, id: signer.bytes },
            ),
        ];
        let mut instructions: Vec<Instruction> = Vec::new();
        instructions.push(
            Instruction::DescendOrigin(
                Junction::AccountId32 { network: None, id: signer.bytes },
            ),
        );
        let mut rest = msg.instructions;
        let ghost restm = rest@;
        instructions.append(&mut rest);
        let full = Message { instructions };
        proof {
            crate::message::lemma_instrs_model_len(restm);
            lemma_instrs_model_prepend(restm, full.instructions@[0]);
            assert(full.instructions@ =~= seq![full.instructions@[0]] + restm);
            assert(full@ =~= prefix + msg@);
            assert(crate::codec::instrs_encodable(full@)) by {
                assert forall|t: int| 0 <= t < full@.len() implies crate::codec::instr_encodable(
                    #[trigger] full@[t],
                ) by {
                    if t > 0 {
                        assert(full@[t] == msg@[t - 1]);
                    } else {
                        assert(full@[0] == prefix[0]);
                    }
                }
            }
        }
        let bytes = crate::codec::encode_message(&full);
        let ghost pre = self@;
        self.outbound.push((dest, bytes));
        proof {
            assert(self@.outbound =~= pre.outbound.push((dest@, enc_message(prefix + msg@))));
        }
    }

    /// Queues a message to `dest` as the chain itself: no origin prefix.
    pub fn send_xcm(&mut self, dest: Location, msg: Message)
        requires
            old(self)@.inv(),
            crate::codec::msg_encodable(msg@),
        ensures
            final(self)@.inv(),
            final(self)@ == (ChainModel {
                outbound: old(self)@.outbound.push((dest@, enc_message(msg@))),
                ..old(self)@
            }),
    {
        let bytes = crate::codec::encode_message(&msg);
        let ghost pre = self@;
        self.outbound.push((dest, bytes));
        proof {
            assert(self@.outbound =~= pre.outbound.push((dest@, enc_message(msg@))));
        }
    }

    /// Executes a message locally under a signed origin: the effective
    /// origin is the signer's own account junction.
    pub fn execute(&mut self, signer: &AccountId, msg: &Message, max_weight: Weight) -> (r:
        Outcome)
        requires
            old(self)@.inv(),
            crate::codec::instrs_encodable(msg@),
        ensures
            final(self)@.inv(),
            ({
                let origin = LocModel {
                    parents: 0,
                    interior: seq![
                        Junction::AccountId32 { network: Option::None, id: signer.bytes },
                    ],
                };
                let (cm, o) = exec_message_spec(old(self)@, origin, msg@, max_weight);
                final(self)@ == cm && r == o
            }),
    {
        let origin = Location::from_junction(
            Junction::AccountId32 { network: None, id: signer.bytes },
        );
        crate::executor::execute_message(self, &origin, msg, max_weight)
    }
}

/// Prepending one instruction prepends its model.
proof fn lemma_instrs_model_prepend(s: Seq<Instruction>, x: Instruction)
    ensures
        instrs_model(seq![x] + s) == seq![crate::message::instr_model(x)] + instrs_model(s),
{
    let whole = seq![x] + s;
    assert(whole.first() == x);
    assert(whole.drop_first() =~= s);
    assert(instrs_model(whole) =~= seq![crate::message::instr_model(x)] + instrs_model(s));
}

/// Everything but the inbound and outbound queues agrees.
pub open spec fn stable_chain(a: ChainModel, b: ChainModel) -> bool {
    &&& a.id == b.id
    &&& a.network == b.network
    &&& a.has_native == b.has_native
    &&& a.barrier == b.barrier
    &&& a.balances == b.balances
    &&& a.assets == b.assets
    &&& a.storage == b.storage
    &&& a.events == b.events
    &&& a.outbound == b.outbound
}

proof fn lemma_deliveries_empty(who: ChainId)
    ensures
        forall|t: ChainId|
            #[trigger] deliveries_for(Seq::<(LocModel, Seq<u8>)>::empty(), who, t) == Seq::<
                (ChainId, Seq<u8>),
            >::empty(),
{
}

fn chain_id_eq(a: ChainId, b: ChainId) -> (r: bool)
    ensures
        r == (a == b),
{
    match (a, b) {
        (ChainId::Relay, ChainId::Relay) => true,
        (ChainId::Para(p), ChainId::Para(q)) => p == q,
        _ => false,
    }
}

fn clone_bytes(v: &Vec<u8>) -> (r: Vec<u8>)
    ensures
        r@ == v@,
{
    let mut out: Vec<u8> = Vec::new();
    let n = v.len();
    let mut i: usize = 0;
    while i < n
        invariant
            i <= n,
            n == v.len(),
            out@ == v@.subrange(0, i as int),
        decreases n - i,
    {
        out.push(v[i]);
        proof {
            assert(out@ =~= v@.subrange(0, i + 1 as int));
        }
        i += 1;
    }
    proof {
        assert(v@.subrange(0, n as int) =~= v@);
    }
    out
}

} // verus!
