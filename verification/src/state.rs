//! The membership reactor: a single-threaded state machine driving probing,
//! failure suspicion, dissemination and merge.  The I/O shell owns the
//! socket and the queues; it hands the reactor decoded commands together
//! with the current time and a random draw, and carries out the returned
//! datagrams and events.

use vstd::prelude::*;
use crate::codec::{
    build_message, encode_message, encoded_len_at, message_model, prefix_changes, spec_encode,
    ArtilleryMessage, MessageModel, Request,
};
use crate::config::ClusterConfig;
use crate::errors::ArtilleryError;
use crate::member::{ArtilleryMember, ArtilleryMemberState, ArtilleryStateChange, NodeAddr};
use crate::membership::{
    alive_of, apply_fold, available_of, has_key, left_of, ping_candidates, relay_candidates,
    timeout_downs, timeout_one, timeout_suspects, wrap_index, ArtilleryMemberList,
};

verus! {

/// A membership event raised toward the embedding application.
#[derive(Clone, Debug)]
pub enum ArtilleryMemberEvent {
    /// First time a member is inserted.
    MemberJoined(ArtilleryMember),
    /// Transition into Alive from Suspect.
    MemberWentUp(ArtilleryMember),
    /// Transition into Suspect.
    MemberSuspectedDown(ArtilleryMember),
    /// Transition into Down.
    MemberWentDown(ArtilleryMember),
    /// Transition into Left.
    MemberLeft(ArtilleryMember),
}

/// An event paired with the available-node snapshot taken at publication.
pub type ArtilleryClusterEvent = (Vec<ArtilleryMember>, ArtilleryMemberEvent);

/// A request aimed at one peer.
#[derive(Clone, Copy, Debug)]
pub struct TargetedRequest {
    pub request: Request,
    pub target: NodeAddr,
}

/// A command handed to the reactor.
#[derive(Clone, Debug)]
pub enum ArtilleryClusterRequest {
    /// Remember a bootstrap address and probe it every tick until it joins.
    AddSeed(NodeAddr),
    /// An inbound datagram, decoded, with its source address.
    Respond(NodeAddr, ArtilleryMessage),
    /// Send a request to a peer.
    React(TargetedRequest),
    /// Depart voluntarily.
    LeaveCluster,
    /// Stop the reactor.
    Exit,
}

/// An outstanding direct probe: the deadline, the probed address, and the
/// digest snapshot that rode on the probe.
#[derive(Clone, Debug)]
pub struct PendingResponse {
    pub deadline: u64,
    pub target: NodeAddr,
    pub digest: Vec<ArtilleryStateChange>,
}

/// Relays waiting to hear that `target` answered a probe.
#[derive(Clone, Debug)]
pub struct WaitGroup {
    pub target: NodeAddr,
    pub relays: Vec<NodeAddr>,
}

/// A datagram the shell must transmit.
#[derive(Clone, Debug)]
pub struct Outbound {
    pub target: NodeAddr,
    pub payload: Vec<u8>,
}

/// Everything one reactor step asks the shell to do.
pub struct ReactorOutput {
    pub datagrams: Vec<Outbound>,
    pub events: Vec<ArtilleryClusterEvent>,
    pub exit: bool,
}

/// The model of a published event: the snapshot as a sequence.
pub open spec fn event_view(e: (Vec<ArtilleryMember>, ArtilleryMemberEvent)) -> (
    Seq<ArtilleryMember>,
    ArtilleryMemberEvent,
) {
    (e.0@, e.1)
}

pub open spec fn events_view(s: Seq<(Vec<ArtilleryMember>, ArtilleryMemberEvent)>) -> Seq<(
    Seq<ArtilleryMember>,
    ArtilleryMemberEvent,
)> {
    s.map_values(|e: (Vec<ArtilleryMember>, ArtilleryMemberEvent)| event_view(e))
}

/// The event a changed member gives rise to, per its new state.
pub open spec fn spec_member_event(m: ArtilleryMember) -> ArtilleryMemberEvent {
    match m.state {
        ArtilleryMemberState::Alive => ArtilleryMemberEvent::MemberWentUp(m),
        ArtilleryMemberState::Suspect => ArtilleryMemberEvent::MemberSuspectedDown(m),
        ArtilleryMemberState::Down => ArtilleryMemberEvent::MemberWentDown(m),
        ArtilleryMemberState::Left => ArtilleryMemberEvent::MemberLeft(m),
    }
}

/// The events one run of members yields, each paired with `avail`: Joined
/// events when `joined` holds, else each member's own transition event.
pub open spec fn events_of(ms: Seq<ArtilleryMember>, avail: Seq<ArtilleryMember>, joined: bool) -> Seq<
    (Seq<ArtilleryMember>, ArtilleryMemberEvent),
>
    decreases ms.len(),
{
    if ms.len() == 0 {
        Seq::<(Seq<ArtilleryMember>, ArtilleryMemberEvent)>::empty()
    } else {
        events_of(ms.drop_last(), avail, joined).push(
            (
                avail,
                if joined {
                    ArtilleryMemberEvent::MemberJoined(ms.last())
                } else {
                    spec_member_event(ms.last())
                },
            ),
        )
    }
}

// ------------------------------------------------------------------
// The outgoing digest: a latest-known-per-peer map in insertion order.
// ------------------------------------------------------------------

pub open spec fn digest_has_key(d: Seq<ArtilleryStateChange>, k: u128) -> bool {
    exists|i: int| 0 <= i < d.len() && d[i].member.host_key == k
}

pub open spec fn digest_key_at(d: Seq<ArtilleryStateChange>, k: u128) -> int {
    choose|i: int| 0 <= i < d.len() && d[i].member.host_key == k
}

/// Digest well-formedness: bounded by the wire format's length prefix and
/// holding at most one entry per host key.
pub open spec fn digest_wf(d: Seq<ArtilleryStateChange>) -> bool {
    &&& d.len() <= 0xFFFF
    &&& forall|i: int, j: int|
        0 <= i < j < d.len() ==> d[i].member.host_key != d[j].member.host_key
}

/// One member enqueued for dissemination: the digest entry with its host
/// key is replaced in place, or appended while the digest has room.  The
/// wire format counts digest entries with 16 bits, so the digest is capped
/// at 65535 entries; at the cap a change for a brand-new key cannot be
/// recorded and is dropped, openly stated here.  The cap is unreachable
/// under any MTU a datagram network offers, since only an under-MTU prefix
/// ever rides along and acknowledged entries are pruned.
pub open spec fn upsert_change(d: Seq<ArtilleryStateChange>, m: ArtilleryMember) -> Seq<
    ArtilleryStateChange,
> {
    if digest_has_key(d, m.host_key) {
        d.update(digest_key_at(d, m.host_key), ArtilleryStateChange { member: m })
    } else if d.len() < 0xFFFF {
        d.push(ArtilleryStateChange { member: m })
    } else {
        d
    }
}

pub open spec fn upsert_changes(d: Seq<ArtilleryStateChange>, ms: Seq<ArtilleryMember>) -> Seq<
    ArtilleryStateChange,
>
    decreases ms.len(),
{
    if ms.len() == 0 {
        d
    } else {
        upsert_changes(upsert_change(d, ms[0]), ms.skip(1))
    }
}

/// Upserting keeps the digest well-formed; and whenever there is room (or
/// the key is already present, as for a self refutation that follows the
/// seeded self entry), the digest afterwards holds exactly the upserted
/// snapshot under its key.
pub proof fn lemma_upsert_wf(d: Seq<ArtilleryStateChange>, m: ArtilleryMember)
    requires
        digest_wf(d),
    ensures
        digest_wf(upsert_change(d, m)),
        d.len() < 0xFFFF || digest_has_key(d, m.host_key) ==> {
            let d2 = upsert_change(d, m);
            exists|i: int| 0 <= i < d2.len() && #[trigger] d2[i] == (ArtilleryStateChange { member: m })
        },
{
    let d2 = upsert_change(d, m);
    if digest_has_key(d, m.host_key) {
        let ki = digest_key_at(d, m.host_key);
        assert(0 <= ki < d.len() && d[ki].member.host_key == m.host_key);
        assert(d2[ki] == (ArtilleryStateChange { member: m }));
        assert forall|i: int, j: int|
            0 <= i < j < d2.len() implies d2[i].member.host_key != d2[j].member.host_key by {
            assert(d2[i].member.host_key == d[i].member.host_key);
            assert(d2[j].member.host_key == d[j].member.host_key);
        }
    } else if d.len() < 0xFFFF {
        assert(d2[d.len() as int] == (ArtilleryStateChange { member: m }));
        assert forall|i: int, j: int|
            0 <= i < j < d2.len() implies d2[i].member.host_key != d2[j].member.host_key by {
            if j < d.len() {
            } else {
                assert(d2[j].member.host_key == m.host_key);
                assert(!(d[i].member.host_key == m.host_key)) by {
                    if d[i].member.host_key == m.host_key {
                        assert(digest_has_key(d, m.host_key));
                    }
                }
            }
        }
    }
}

proof fn lemma_upserts_wf(d: Seq<ArtilleryStateChange>, ms: Seq<ArtilleryMember>)
    requires
        digest_wf(d),
    ensures
        digest_wf(upsert_changes(d, ms)),
    decreases ms.len(),
{
    if ms.len() > 0 {
        lemma_upsert_wf(d, ms[0]);
        lemma_upserts_wf(upsert_change(d, ms[0]), ms.skip(1));
    }
}

fn find_digest_key(d: &Vec<ArtilleryStateChange>, k: u128) -> (r: Option<usize>)
    ensures
        match r {
            None => !digest_has_key(d@, k),
            Some(j) => 0 <= j < d@.len() && d@[j as int].member.host_key == k,
        },
{
    let mut j: usize = 0;
    while j < d.len()
        invariant
            j <= d@.len(),
            forall|t: int| 0 <= t < j ==> d@[t].member.host_key != k,
        decreases d@.len() - j,
    {
        if d[j].member.host_key == k {
            return Some(j);
        }
        j += 1;
    }
    None
}

/// Enqueues each member's latest snapshot into the outgoing digest,
/// replacing in place by host key.
pub fn enqueue_state_change(
    digest: &mut Vec<ArtilleryStateChange>,
    members: &Vec<ArtilleryMember>,
)
    requires
        digest_wf(old(digest)@),
    ensures
        digest_wf(final (digest)@),
        final (digest)@ == upsert_changes(old(digest)@, members@),
{
    let ghost d0 = digest@;
    let mut i: usize = 0;
    proof {
        assert(members@.skip(0) =~= members@);
    }
    while i < members.len()
        invariant
            i <= members@.len(),
            digest_wf(digest@),
            upsert_changes(d0, members@) == upsert_changes(digest@, members@.skip(i as int)),
        decreases members@.len() - i,
    {
        let ghost pre = digest@;
        let ghost rest = members@.skip(i as int);
        let m = members[i];
        proof {
            assert(rest[0] == members@[i as int]);
            assert(rest.skip(1) =~= members@.skip(i + 1));
            lemma_upsert_wf(pre, m);
        }
        match find_digest_key(digest, m.host_key) {
            Some(j) => {
                digest.set(j, ArtilleryStateChange { member: m });
                proof {
                    let ki = digest_key_at(pre, m.host_key);
                    assert(0 <= ki < pre.len() && pre[ki].member.host_key == m.host_key);
                    if ki != j {
                        assert(false);
                    }
                    assert(digest@ =~= upsert_change(pre, m));
                }
            },
            None => {
                if digest.len() < 0xFFFF {
                    digest.push(ArtilleryStateChange { member: m });
                    proof {
                        assert(digest@ =~= upsert_change(pre, m));
                    }
                } else {
                    proof {
                        assert(digest@ =~= upsert_change(pre, m));
                    }
                }
            },
        }
        proof {
            lemma_upsert_wf(pre, m);
        }
        i += 1;
    }
    proof {
        assert(members@.skip(members@.len() as int) =~= Seq::<ArtilleryMember>::empty());
    }
}

// ------------------------------------------------------------------
// Pending responses and the acknowledged digest entries.
// ------------------------------------------------------------------

/// The pending entries still outstanding after a sweep at `now`: expired
/// means the deadline has been reached.
pub open spec fn pending_unexpired(p: Seq<PendingResponse>, now: u64) -> Seq<PendingResponse>
    decreases p.len(),
{
    if p.len() == 0 {
        Seq::<PendingResponse>::empty()
    } else {
        let prev = pending_unexpired(p.drop_last(), now);
        if p.last().deadline > now {
            prev.push(p.last())
        } else {
            prev
        }
    }
}

/// The pending entries that do not probe `a`.
pub open spec fn pending_without(p: Seq<PendingResponse>, a: NodeAddr) -> Seq<PendingResponse>
    decreases p.len(),
{
    if p.len() == 0 {
        Seq::<PendingResponse>::empty()
    } else {
        let prev = pending_without(p.drop_last(), a);
        if p.last().target != a {
            prev.push(p.last())
        } else {
            prev
        }
    }
}

/// Whether a host key rode on some probe toward `a` that is now
/// acknowledged.
pub open spec fn key_acked(p: Seq<PendingResponse>, a: NodeAddr, k: u128) -> bool {
    exists|i: int, j: int|
        0 <= i < p.len() && 0 <= j < p[i].digest@.len() && p[i].target == a
            && #[trigger] p[i].digest@[j].member.host_key == k
}

/// The digest entries whose host key was not acknowledged.
pub open spec fn digest_unacked(
    d: Seq<ArtilleryStateChange>,
    p: Seq<PendingResponse>,
    a: NodeAddr,
) -> Seq<ArtilleryStateChange>
    decreases d.len(),
{
    if d.len() == 0 {
        Seq::<ArtilleryStateChange>::empty()
    } else {
        let prev = digest_unacked(d.drop_last(), p, a);
        if !key_acked(p, a, d.last().member.host_key) {
            prev.push(d.last())
        } else {
            prev
        }
    }
}

proof fn lemma_pending_without_clean(p: Seq<PendingResponse>, a: NodeAddr)
    ensures
        forall|i: int|
            0 <= i < pending_without(p, a).len() ==> #[trigger] pending_without(p, a)[i].target != a,
    decreases p.len(),
{
    if p.len() > 0 {
        lemma_pending_without_clean(p.drop_last(), a);
        let prev = pending_without(p.drop_last(), a);
        let whole = pending_without(p, a);
        assert forall|i: int| 0 <= i < whole.len() implies #[trigger] whole[i].target != a by {
            if i < prev.len() {
                assert(whole[i] == prev[i]);
            } else {
                assert(whole[i] == p.last());
            }
        }
    }
}

proof fn lemma_digest_unacked_clean(
    d: Seq<ArtilleryStateChange>,
    p: Seq<PendingResponse>,
    a: NodeAddr,
)
    requires
        digest_wf(d),
    ensures
        digest_unacked(d, p, a).len() <= d.len(),
        digest_wf(digest_unacked(d, p, a)),
        forall|i: int|
            0 <= i < digest_unacked(d, p, a).len() ==> !key_acked(
                p,
                a,
                #[trigger] digest_unacked(d, p, a)[i].member.host_key,
            ),
        forall|i: int|
            0 <= i < digest_unacked(d, p, a).len() ==> exists|j: int|
                0 <= j < d.len() && #[trigger] digest_unacked(d, p, a)[i] == d[j],
    decreases d.len(),
{
    if d.len() > 0 {
        assert(d.drop_last().len() == d.len() - 1);
        assert(digest_wf(d.drop_last())) by {
            assert forall|i: int, j: int|
                0 <= i < j < d.drop_last().len() implies d.drop_last()[i].member.host_key
                != d.drop_last()[j].member.host_key by {
                assert(d.drop_last()[i] == d[i]);
                assert(d.drop_last()[j] == d[j]);
            }
        }
        lemma_digest_unacked_clean(d.drop_last(), p, a);
        let prev = digest_unacked(d.drop_last(), p, a);
        let whole = digest_unacked(d, p, a);
        assert forall|i: int|
            0 <= i < whole.len() implies exists|j: int|
            0 <= j < d.len() && #[trigger] whole[i] == d[j] by {
            if i < prev.len() {
                let j = choose|j: int| 0 <= j < d.drop_last().len() && #[trigger] prev[i] == d.drop_last()[j];
                assert(whole[i] == d[j]);
            } else {
                assert(whole[i] == d[d.len() - 1]);
            }
        }
        assert forall|i: int|
            0 <= i < whole.len() implies !key_acked(p, a, #[trigger] whole[i].member.host_key) by {
            if i < prev.len() {
                assert(whole[i] == prev[i]);
            } else {
                assert(whole[i] == d.last());
            }
        }
        assert forall|i: int, j: int|
            0 <= i < j < whole.len() implies whole[i].member.host_key
            != whole[j].member.host_key by {
            if j < prev.len() {
                assert(whole[i] == prev[i]);
                assert(whole[j] == prev[j]);
            } else {
                assert(whole[j] == d.last());
                assert(whole[i] == prev[i]);
                let t = choose|t: int|
                    0 <= t < d.drop_last().len() && #[trigger] prev[i] == d.drop_last()[t];
                assert(d.drop_last()[t] == d[t]);
                assert(d[t].member.host_key != d[d.len() - 1].member.host_key);
            }
        }
    }
}

/// The targets of the pending probes whose deadline has been reached.
pub open spec fn expired_addrs(p: Seq<PendingResponse>, now: u64) -> Seq<NodeAddr>
    decreases p.len(),
{
    if p.len() == 0 {
        Seq::<NodeAddr>::empty()
    } else {
        let prev = expired_addrs(p.drop_last(), now);
        if p.last().deadline <= now {
            prev.push(p.last().target)
        } else {
            prev
        }
    }
}

/// The seed queue without one confirmed address.
pub open spec fn seeds_without(s: Seq<NodeAddr>, a: NodeAddr) -> Seq<NodeAddr>
    decreases s.len(),
{
    if s.len() == 0 {
        Seq::<NodeAddr>::empty()
    } else {
        let prev = seeds_without(s.drop_last(), a);
        if s.last() != a {
            prev.push(s.last())
        } else {
            prev
        }
    }
}

proof fn lemma_suspects_state(s: Seq<ArtilleryMember>, e: Seq<NodeAddr>, now: u64)
    ensures
        forall|j: int|
            0 <= j < timeout_suspects(s, e, now).len() ==> #[trigger] timeout_suspects(
                s,
                e,
                now,
            )[j].state == ArtilleryMemberState::Suspect,
    decreases s.len(),
{
    if s.len() > 0 {
        lemma_suspects_state(s.drop_last(), e, now);
        let prev = timeout_suspects(s.drop_last(), e, now);
        let whole = timeout_suspects(s, e, now);
        assert forall|j: int|
            0 <= j < whole.len() implies #[trigger] whole[j].state
            == ArtilleryMemberState::Suspect by {
            if j < prev.len() {
                assert(whole[j] == prev[j]);
            }
        }
    }
}

proof fn lemma_downs_state(s: Seq<ArtilleryMember>, e: Seq<NodeAddr>, now: u64)
    ensures
        forall|j: int|
            0 <= j < timeout_downs(s, e, now).len() ==> #[trigger] timeout_downs(
                s,
                e,
                now,
            )[j].state == ArtilleryMemberState::Down,
    decreases s.len(),
{
    if s.len() > 0 {
        lemma_downs_state(s.drop_last(), e, now);
        let prev = timeout_downs(s.drop_last(), e, now);
        let whole = timeout_downs(s, e, now);
        assert forall|j: int|
            0 <= j < whole.len() implies #[trigger] whole[j].state
            == ArtilleryMemberState::Down by {
            if j < prev.len() {
                assert(whole[j] == prev[j]);
            }
        }
    }
}

/// The deadline reached `timeout` after `now`, saturating.
pub open spec fn deadline_after(now: u64, timeout: u64) -> u64 {
    if now + timeout > u64::MAX {
        u64::MAX
    } else {
        (now + timeout) as u64
    }
}

/// What holds of every datagram the reactor sends: its payload is strictly
/// under the MTU and is the wire image of a record carrying this node's
/// identity and cluster key.
pub open spec fn sent_ok(d: Outbound, host_key: u128, cfg: ClusterConfig) -> bool {
    &&& d.payload@.len() < cfg.network_mtu
    &&& exists|req: Request, cs: Seq<ArtilleryStateChange>| #[trigger] d.payload@ == spec_encode(
        message_model(host_key, cfg.cluster_key@, req, cs),
    )
}

/// Whether some request's record exceeds the MTU even with an empty
/// digest: the misconfiguration behind every Precondition failure.
pub open spec fn some_request_oversized(hk: u128, cfg: ClusterConfig) -> bool {
    exists|req: Request|
        spec_encode(
            message_model(hk, cfg.cluster_key@, req, Seq::<ArtilleryStateChange>::empty()),
        ).len() >= cfg.network_mtu
}

/// The payload is the wire image of a record from this node carrying the
/// given request and the largest under-MTU prefix of the given digest.
pub open spec fn payload_of_request(
    payload: Seq<u8>,
    hk: u128,
    cfg: ClusterConfig,
    req: Request,
    digest: Seq<ArtilleryStateChange>,
) -> bool {
    exists|l: int|
        {
            &&& 0 <= l <= digest.len()
            &&& payload == spec_encode(message_model(hk, cfg.cluster_key@, req, digest.take(l)))
            &&& forall|j: int|
                l < j <= digest.len() ==> encoded_len_at(hk, cfg.cluster_key@, req, digest, j)
                    >= cfg.network_mtu
        }
}

/// A wait-list group as plain values.
pub open spec fn group_view(g: WaitGroup) -> (NodeAddr, Seq<NodeAddr>) {
    (g.target, g.relays@)
}

pub open spec fn waits_view(w: Seq<WaitGroup>) -> Seq<(NodeAddr, Seq<NodeAddr>)> {
    w.map_values(|g: WaitGroup| group_view(g))
}

pub open spec fn dgram_view(d: Outbound) -> (NodeAddr, Seq<u8>) {
    (d.target, d.payload@)
}

pub open spec fn dgrams_view(s: Seq<Outbound>) -> Seq<(NodeAddr, Seq<u8>)> {
    s.map_values(|d: Outbound| dgram_view(d))
}

/// The index of the first wait-list group for `a`, or -1.
pub open spec fn first_wait_group(wv: Seq<(NodeAddr, Seq<NodeAddr>)>, a: NodeAddr) -> int
    decreases wv.len(),
{
    if wv.len() == 0 {
        -1
    } else if wv[0].0 == a {
        0
    } else {
        let r = first_wait_group(wv.skip(1), a);
        if r < 0 {
            -1
        } else {
            r + 1
        }
    }
}

proof fn lemma_first_wait_group(wv: Seq<(NodeAddr, Seq<NodeAddr>)>, a: NodeAddr)
    ensures
        ({
            let g = first_wait_group(wv, a);
            &&& g >= 0 ==> 0 <= g < wv.len() && wv[g].0 == a && forall|j: int|
                0 <= j < g ==> wv[j].0 != a
            &&& g < 0 ==> forall|j: int| 0 <= j < wv.len() ==> wv[j].0 != a
        }),
    decreases wv.len(),
{
    if wv.len() > 0 && wv[0].0 != a {
        lemma_first_wait_group(wv.skip(1), a);
        let r = first_wait_group(wv.skip(1), a);
        assert forall|j: int| 0 <= j < wv.len() && (r < 0 || j < r + 1) implies wv[j].0 != a || (r
            >= 0 && j == r + 1) by {
            if j >= 1 {
                assert(wv[j] == wv.skip(1)[j - 1]);
            }
        }
    }
}

/// The wait list after one relay is recorded for `target`: the first group
/// for `target` is extended, or a fresh group is appended.
pub open spec fn wait_view_after_add(
    wv: Seq<(NodeAddr, Seq<NodeAddr>)>,
    target: NodeAddr,
    notify: NodeAddr,
) -> Seq<(NodeAddr, Seq<NodeAddr>)> {
    let g = first_wait_group(wv, target);
    if g < 0 {
        wv.push((target, seq![notify]))
    } else {
        wv.update(g, (target, wv[g].1.push(notify)))
    }
}

/// The wait list after the group for `a` is drained: the first group for
/// `a` is removed, everything else kept.
pub open spec fn wait_view_after_drain(
    wv: Seq<(NodeAddr, Seq<NodeAddr>)>,
    a: NodeAddr,
) -> Seq<(NodeAddr, Seq<NodeAddr>)> {
    let g = first_wait_group(wv, a);
    if g < 0 {
        wv
    } else {
        wv.remove(g)
    }
}

/// The wait list is a map: at most one group per target address.
pub open spec fn waits_wf(wv: Seq<(NodeAddr, Seq<NodeAddr>)>) -> bool {
    forall|i: int, j: int| 0 <= i < j < wv.len() ==> wv[i].0 != wv[j].0
}

proof fn lemma_wait_add_wf(wv: Seq<(NodeAddr, Seq<NodeAddr>)>, target: NodeAddr, notify: NodeAddr)
    requires
        waits_wf(wv),
    ensures
        waits_wf(wait_view_after_add(wv, target, notify)),
{
    lemma_first_wait_group(wv, target);
    let g = first_wait_group(wv, target);
    let w2 = wait_view_after_add(wv, target, notify);
    if g < 0 {
        assert forall|i: int, j: int| 0 <= i < j < w2.len() implies w2[i].0 != w2[j].0 by {
            if j == w2.len() - 1 {
                assert(w2[i] == wv[i]);
                assert(wv[i].0 != target);
            } else {
                assert(w2[i] == wv[i]);
                assert(w2[j] == wv[j]);
            }
        }
    } else {
        assert forall|i: int, j: int| 0 <= i < j < w2.len() implies w2[i].0 != w2[j].0 by {
            assert(w2[i].0 == wv[i].0);
            assert(w2[j].0 == wv[j].0);
        }
    }
}

proof fn lemma_wait_drain_wf(wv: Seq<(NodeAddr, Seq<NodeAddr>)>, a: NodeAddr)
    requires
        waits_wf(wv),
    ensures
        waits_wf(wait_view_after_drain(wv, a)),
{
    lemma_first_wait_group(wv, a);
    let g = first_wait_group(wv, a);
    let w2 = wait_view_after_drain(wv, a);
    if g >= 0 {
        assert forall|i: int, j: int| 0 <= i < j < w2.len() implies w2[i].0 != w2[j].0 by {
            let i2: int = if i < g {
                i
            } else {
                i + 1
            };
            let j2: int = if j < g {
                j
            } else {
                j + 1
            };
            assert(w2[i] == wv[i2]);
            assert(w2[j] == wv[j2]);
            assert(wv[i2].0 != wv[j2].0);
        }
    }
}

/// The index of the first Suspect member known under `a`, or -1.
pub open spec fn first_suspect_at(m: Seq<ArtilleryMember>, a: NodeAddr) -> int
    decreases m.len(),
{
    if m.len() == 0 {
        -1
    } else if m[0].remote_host == Some(a) && m[0].state == ArtilleryMemberState::Suspect {
        0
    } else {
        let r = first_suspect_at(m.skip(1), a);
        if r < 0 {
            -1
        } else {
            r + 1
        }
    }
}

proof fn lemma_first_suspect_at(m: Seq<ArtilleryMember>, a: NodeAddr)
    ensures
        ({
            let fs = first_suspect_at(m, a);
            &&& fs >= 0 ==> 0 <= fs < m.len() && m[fs].remote_host == Some(a) && m[fs].state
                == ArtilleryMemberState::Suspect && forall|j: int|
                0 <= j < fs ==> !(m[j].remote_host == Some(a) && m[j].state
                    == ArtilleryMemberState::Suspect)
            &&& fs < 0 ==> forall|j: int|
                0 <= j < m.len() ==> !(m[j].remote_host == Some(a) && m[j].state
                    == ArtilleryMemberState::Suspect)
        }),
    decreases m.len(),
{
    if m.len() > 0 && !(m[0].remote_host == Some(a) && m[0].state
        == ArtilleryMemberState::Suspect) {
        lemma_first_suspect_at(m.skip(1), a);
        assert forall|j: int| 1 <= j < m.len() implies m[j] == m.skip(1)[j - 1] by {}
    }
}

/// The targets of the direct Pings among a run of requests, in order: each
/// such probe records one pending response.
pub open spec fn ping_targets(rs: Seq<TargetedRequest>) -> Seq<NodeAddr>
    decreases rs.len(),
{
    if rs.len() == 0 {
        Seq::<NodeAddr>::empty()
    } else {
        let prev = ping_targets(rs.drop_last());
        if rs.last().request is Ping {
            prev.push(rs.last().target)
        } else {
            prev
        }
    }
}

proof fn lemma_ping_targets_none(rs: Seq<TargetedRequest>)
    requires
        forall|i: int| 0 <= i < rs.len() ==> !(#[trigger] rs[i].request is Ping),
    ensures
        ping_targets(rs).len() == 0,
    decreases rs.len(),
{
    if rs.len() > 0 {
        assert(rs.drop_last() =~= rs.take(rs.len() - 1));
        assert forall|i: int| 0 <= i < rs.drop_last().len() implies !(#[trigger] rs.drop_last()[i].request
            is Ping) by {
            assert(rs.drop_last()[i] == rs[i]);
        }
        lemma_ping_targets_none(rs.drop_last());
    }
}

proof fn lemma_ping_targets_concat(a: Seq<TargetedRequest>, b: Seq<TargetedRequest>)
    ensures
        ping_targets(a + b) == ping_targets(a) + ping_targets(b),
    decreases b.len(),
{
    if b.len() == 0 {
        assert(a + b =~= a);
        assert(ping_targets(a) + ping_targets(b) =~= ping_targets(a));
    } else {
        lemma_ping_targets_concat(a, b.drop_last());
        assert((a + b).drop_last() =~= a + b.drop_last());
        assert((a + b).last() == b.last());
        if b.last().request is Ping {
            assert(ping_targets(a + b) =~= (ping_targets(a) + ping_targets(b.drop_last())).push(
                b.last().target,
            ));
            assert(ping_targets(a) + ping_targets(b) =~= (ping_targets(a) + ping_targets(
                b.drop_last(),
            )).push(b.last().target));
        } else {
            assert(ping_targets(a + b) =~= ping_targets(a) + ping_targets(b.drop_last()));
        }
    }
}

proof fn lemma_ping_targets_all(rs: Seq<TargetedRequest>)
    requires
        forall|i: int| 0 <= i < rs.len() ==> (#[trigger] rs[i].request) is Ping,
    ensures
        ping_targets(rs).len() == rs.len(),
        forall|i: int| 0 <= i < rs.len() ==> #[trigger] ping_targets(rs)[i] == rs[i].target,
    decreases rs.len(),
{
    if rs.len() > 0 {
        assert forall|i: int| 0 <= i < rs.drop_last().len() implies (
        #[trigger] rs.drop_last()[i].request) is Ping by {
            assert(rs.drop_last()[i] == rs[i]);
        }
        lemma_ping_targets_all(rs.drop_last());
        let prev = ping_targets(rs.drop_last());
        let whole = ping_targets(rs);
        assert(whole == prev.push(rs.last().target));
        assert forall|i: int| 0 <= i < rs.len() implies #[trigger] whole[i] == rs[i].target by {
            if i < rs.len() - 1 {
                assert(whole[i] == prev[i]);
                assert(rs.drop_last()[i] == rs[i]);
            }
        }
    }
}

/// The indirect probes demanded for one suspect: PingRequests carrying the
/// suspect's address toward up to `k` relays walked from a random start
/// around the Alive candidate ring.
pub open spec fn indirect_probes(
    members: Seq<ArtilleryMember>,
    k: int,
    target: NodeAddr,
    rand: u64,
) -> Seq<TargetedRequest> {
    let cands = relay_candidates(members.skip(1), target);
    let cnt: int = if k <= cands.len() {
        k
    } else {
        cands.len() as int
    };
    Seq::new(
        cnt as nat,
        |t: int|
            TargetedRequest {
                request: Request::PingRequest(target),
                target: cands[wrap_index(rand as int % cands.len() as int, t as nat, cands.len() as int)],
            },
    )
}

/// All indirect probes one sweep demands: those of each fresh suspect with
/// an address, in sweep order.
pub open spec fn sweep_probes(
    suspects: Seq<ArtilleryMember>,
    members: Seq<ArtilleryMember>,
    k: int,
    rand: u64,
) -> Seq<TargetedRequest>
    decreases suspects.len(),
{
    if suspects.len() == 0 {
        Seq::<TargetedRequest>::empty()
    } else {
        sweep_probes(suspects.drop_last(), members, k, rand) + (match suspects.last().remote_host {
            Some(a) => indirect_probes(members, k, a, rand),
            None => Seq::<TargetedRequest>::empty(),
        })
    }
}

proof fn lemma_sweep_probes_shape(
    suspects: Seq<ArtilleryMember>,
    members: Seq<ArtilleryMember>,
    k: int,
    rand: u64,
)
    ensures
        forall|t: int|
            0 <= t < sweep_probes(suspects, members, k, rand).len() ==> #[trigger] sweep_probes(
                suspects,
                members,
                k,
                rand,
            )[t].request is PingRequest,
    decreases suspects.len(),
{
    if suspects.len() > 0 {
        lemma_sweep_probes_shape(suspects.drop_last(), members, k, rand);
        let prev = sweep_probes(suspects.drop_last(), members, k, rand);
        let whole = sweep_probes(suspects, members, k, rand);
        assert forall|t: int| 0 <= t < whole.len() implies #[trigger] whole[t].request
            is PingRequest by {
            if t < prev.len() {
                assert(whole[t] == prev[t]);
            }
        }
    }
}

/// A first-contact member as the table absorbs it.
pub open spec fn new_member_of(sender: u128, src_addr: NodeAddr, now: u64) -> ArtilleryMember {
    ArtilleryMember {
        host_key: sender,
        remote_host: Some(src_addr),
        incarnation: 0,
        state: ArtilleryMemberState::Alive,
        last_state_change: now,
    }
}

/// Whether some member is already recorded under this address.
pub open spec fn member_addr_known(m: Seq<ArtilleryMember>, a: NodeAddr) -> bool {
    exists|i: int| 0 <= i < m.len() && #[trigger] m[i].remote_host == Some(a)
}

/// The reactor state as plain mathematical values.
pub ghost struct ReactorView {
    pub members: Seq<ArtilleryMember>,
    pub digest: Seq<ArtilleryStateChange>,
    pub seeds: Seq<NodeAddr>,
    pub pending: Seq<PendingResponse>,
    pub waits: Seq<(NodeAddr, Seq<NodeAddr>)>,
}

/// The acknowledgment dispatch: pending probes toward `a` are cleared, the
/// acknowledged digest entries stop re-disseminating, and a Suspect record
/// under `a` is promoted, draining its wait-list group into one AckHost
/// datagram per stored relay in order.
pub open spec fn ack_arm(
    m2: Seq<ArtilleryMember>,
    d2: Seq<ArtilleryStateChange>,
    p0: Seq<PendingResponse>,
    wv: Seq<(NodeAddr, Seq<NodeAddr>)>,
    seeds1: Seq<NodeAddr>,
    ev_absorb: Seq<(Seq<ArtilleryMember>, ArtilleryMemberEvent)>,
    a: NodeAddr,
    hk: u128,
    cfg: ClusterConfig,
    now: u64,
    post: ReactorView,
    events_delta: Seq<(Seq<ArtilleryMember>, ArtilleryMemberEvent)>,
    dgrams_delta: Seq<(NodeAddr, Seq<u8>)>,
) -> bool {
    let p1 = pending_without(p0, a);
    let d3 = digest_unacked(d2, p0, a);
    let fs = first_suspect_at(m2, a);
    &&& post.seeds == seeds1
    &&& post.pending == p1
    &&& if fs < 0 {
        &&& post.members == m2
        &&& post.digest == d3
        &&& post.waits == wv
        &&& events_delta == ev_absorb
        &&& dgrams_delta.len() == 0
    } else {
        let promoted = alive_of(m2[fs], now);
        let m3 = m2.update(fs, promoted);
        let d4 = upsert_change(d3, promoted);
        let g = first_wait_group(wv, a);
        let relays: Seq<NodeAddr> = if g < 0 {
            Seq::<NodeAddr>::empty()
        } else {
            wv[g].1
        };
        &&& post.members == m3
        &&& post.digest == d4
        &&& post.waits == wait_view_after_drain(wv, a)
        &&& events_delta == ev_absorb + seq![
            (available_of(m3), ArtilleryMemberEvent::MemberWentUp(promoted)),
        ]
        &&& dgrams_delta.len() == relays.len()
        &&& forall|t: int|
            0 <= t < relays.len() ==> (#[trigger] dgrams_delta[t]).0 == relays[t]
                && dgrams_delta[t].1.len() < cfg.network_mtu && payload_of_request(
                dgrams_delta[t].1,
                hk,
                cfg,
                Request::AckHost(promoted),
                d4,
            )
    }
}

/// The whole effect of one inbound record whose cluster key matches: the
/// digest is merged under the precedence rule, the source address leaves
/// the seed queue, a first-contact sender is absorbed, and the reply the
/// dispatch table demands is emitted, with every datagram carrying the
/// largest under-MTU prefix of the final digest.
pub open spec fn respond_transition(
    pre: ReactorView,
    hk: u128,
    cfg: ClusterConfig,
    src: NodeAddr,
    msg: MessageModel,
    now: u64,
    post: ReactorView,
    events_delta: Seq<(Seq<ArtilleryMember>, ArtilleryMemberEvent)>,
    dgrams_delta: Seq<(NodeAddr, Seq<u8>)>,
) -> bool {
    let fr = apply_fold(pre.members, msg.state_changes, src, now);
    let m1 = fr.0;
    let avail1 = available_of(m1);
    let d1 = upsert_changes(upsert_changes(upsert_changes(pre.digest, fr.1), fr.2), opt_seq(fr.3));
    let known = member_addr_known(m1, src) || has_key(m1, msg.sender);
    let nm = new_member_of(msg.sender, src, now);
    let m2 = if known {
        m1
    } else {
        m1.push(nm)
    };
    let d2 = if known {
        d1
    } else {
        upsert_change(d1, nm)
    };
    let ev2 = events_of(fr.1, avail1, true) + events_of(fr.2, avail1, false) + (if known {
        Seq::<(Seq<ArtilleryMember>, ArtilleryMemberEvent)>::empty()
    } else {
        seq![(available_of(m2), ArtilleryMemberEvent::MemberJoined(nm))]
    });
    let seeds1 = seeds_without(pre.seeds, src);
    match msg.request {
        Request::Ping => {
            &&& post.members == m2
            &&& post.digest == d2
            &&& post.seeds == seeds1
            &&& post.pending == pre.pending
            &&& post.waits == pre.waits
            &&& events_delta == ev2
            &&& dgrams_delta.len() == 1
            &&& dgrams_delta[0].0 == src
            &&& dgrams_delta[0].1.len() < cfg.network_mtu
            &&& payload_of_request(dgrams_delta[0].1, hk, cfg, Request::Ack, d2)
        },
        Request::Ack => ack_arm(
            m2,
            d2,
            pre.pending,
            pre.waits,
            seeds1,
            ev2,
            src,
            hk,
            cfg,
            now,
            post,
            events_delta,
            dgrams_delta,
        ),
        Request::PingRequest(dest) => {
            &&& post.members == m2
            &&& post.digest == d2
            &&& post.seeds == seeds1
            &&& post.waits == wait_view_after_add(pre.waits, dest, src)
            &&& events_delta == ev2
            &&& dgrams_delta.len() == 1
            &&& dgrams_delta[0].0 == dest
            &&& dgrams_delta[0].1.len() < cfg.network_mtu
            &&& payload_of_request(dgrams_delta[0].1, hk, cfg, Request::Ping, d2)
            &&& post.pending.len() == pre.pending.len() + 1
            &&& (forall|x: int| 0 <= x < pre.pending.len() ==> post.pending[x] == pre.pending[x])
            &&& post.pending.last().target == dest
            &&& post.pending.last().deadline == deadline_after(now, cfg.ping_timeout)
            &&& post.pending.last().digest@ == d2.take(post.pending.last().digest@.len() as int)
        },
        Request::AckHost(member) => match member.remote_host {
            Some(a) => ack_arm(
                m2,
                d2,
                pre.pending,
                pre.waits,
                seeds1,
                ev2,
                a,
                hk,
                cfg,
                now,
                post,
                events_delta,
                dgrams_delta,
            ),
            None => {
                &&& post.members == m2
                &&& post.digest == d2
                &&& post.seeds == seeds1
                &&& post.pending == pre.pending
                &&& post.waits == pre.waits
                &&& events_delta == ev2
                &&& dgrams_delta.len() == 0
            },
        },
    }
}

/// The local member as it stands at construction.
pub open spec fn initial_member(host_key: u128, now: u64) -> ArtilleryMember {
    ArtilleryMember {
        host_key,
        remote_host: None,
        incarnation: 0,
        state: ArtilleryMemberState::Alive,
        last_state_change: now,
    }
}

fn bytes_eq(a: &Vec<u8>, b: &Vec<u8>) -> (r: bool)
    ensures
        r == (a@ == b@),
{
    if a.len() != b.len() {
        return false;
    }
    let mut i: usize = 0;
    while i < a.len()
        invariant
            a@.len() == b@.len(),
            i <= a@.len(),
            forall|j: int| 0 <= j < i ==> a@[j] == b@[j],
        decreases a@.len() - i,
    {
        if a[i] != b[i] {
            return false;
        }
        i += 1;
    }
    proof {
        assert(a@ =~= b@);
    }
    true
}

/// Drops a now-confirmed address from the seed queue.
pub fn remove_potential_seed(seed_queue: &mut Vec<NodeAddr>, src_addr: NodeAddr)
    ensures
        final (seed_queue)@ == seeds_without(old(seed_queue)@, src_addr),
{
    let ghost s0 = seed_queue@;
    let ghost mut scanned: int = 0;
    let mut i: usize = 0;
    proof {
        assert(s0.take(0) =~= Seq::<NodeAddr>::empty());
        assert(s0.skip(0) =~= s0);
        assert(seeds_without(s0.take(0), src_addr) + s0.skip(0) =~= seed_queue@);
    }
    while i < seed_queue.len()
        invariant
            0 <= scanned <= s0.len(),
            seed_queue@ == seeds_without(s0.take(scanned), src_addr) + s0.skip(scanned),
            i == seeds_without(s0.take(scanned), src_addr).len(),
        decreases s0.len() - scanned,
    {
        proof {
            assert(s0.take(scanned + 1).drop_last() =~= s0.take(scanned));
            assert(s0.take(scanned + 1).last() == s0[scanned]);
            assert(seed_queue@[i as int] == s0.skip(scanned)[0]);
            assert(s0.skip(scanned)[0] == s0[scanned]);
        }
        let cur = seed_queue[i];
        if cur == src_addr {
            let _ = seed_queue.remove(i);
            proof {
                let done = seeds_without(s0.take(scanned), src_addr);
                assert(seed_queue@ =~= done + s0.skip(scanned + 1));
                scanned = scanned + 1;
            }
        } else {
            i += 1;
            proof {
                let done = seeds_without(s0.take(scanned), src_addr);
                assert(seeds_without(s0.take(scanned + 1), src_addr) == done.push(s0[scanned]));
                assert(seed_queue@ =~= done.push(s0[scanned]) + s0.skip(scanned + 1));
                scanned = scanned + 1;
            }
        }
    }
    proof {
        assert(scanned == s0.len());
        assert(s0.take(s0.len() as int) =~= s0);
        assert(s0.skip(s0.len() as int) =~= Seq::<NodeAddr>::empty());
        assert(seeds_without(s0, src_addr) + Seq::<NodeAddr>::empty() =~= seeds_without(
            s0,
            src_addr,
        ));
    }
}

/// Appends a relay to the wait list of `wait_addr`: the first group for
/// that target is extended in place, or a fresh group is created; every
/// other group is untouched.
pub fn add_to_wait_list(wait_list: &mut Vec<WaitGroup>, wait_addr: NodeAddr, notify_addr: NodeAddr)
    ensures
        waits_view(final (wait_list)@) == wait_view_after_add(
            waits_view(old(wait_list)@),
            wait_addr,
            notify_addr,
        ),
{
    let ghost wv0 = waits_view(old(wait_list)@);
    proof {
        lemma_first_wait_group(wv0, wait_addr);
    }
    let mut found: Option<usize> = None;
    let mut i: usize = 0;
    while i < wait_list.len()
        invariant_except_break
            found is None,
        invariant
            i <= wait_list@.len(),
            *old(wait_list) == *wait_list,
            wv0 == waits_view(wait_list@),
            found is None ==> forall|j: int| 0 <= j < i ==> wv0[j].0 != wait_addr,
            found matches Some(g) ==> 0 <= g < wv0.len() && wv0[g as int].0 == wait_addr && (
            forall|j: int| 0 <= j < g ==> wv0[j].0 != wait_addr),
        ensures
            found is None ==> i >= wait_list@.len(),
        decreases wait_list@.len() - i,
    {
        if wait_list[i].target == wait_addr {
            proof {
                assert(wv0.len() == wait_list@.len());
                assert(wv0[i as int] == group_view(wait_list@[i as int]));
                assert(wv0[i as int].0 == wait_addr);
            }
            found = Some(i);
            break ;
        }
        proof {
            assert(wv0[i as int] == group_view(wait_list@[i as int]));
        }
        i += 1;
    }
    match found {
        Some(g) => {
            proof {
                lemma_first_wait_group(wv0, wait_addr);
                let fg = first_wait_group(wv0, wait_addr);
                if fg < 0 {
                    assert(wv0[g as int].0 != wait_addr);
                    assert(false);
                } else if fg < g {
                    assert(wv0[fg].0 != wait_addr);
                    assert(false);
                } else if fg > g {
                    assert(wv0[g as int].0 != wait_addr);
                    assert(false);
                }
            }
            let mut group = wait_list.remove(g);
            group.relays.push(notify_addr);
            wait_list.insert(g, group);
            proof {
                assert(waits_view(wait_list@) =~= wv0.update(
                    g as int,
                    (wait_addr, wv0[g as int].1.push(notify_addr)),
                ));
            }
        },
        None => {
            proof {
                lemma_first_wait_group(wv0, wait_addr);
                let fg = first_wait_group(wv0, wait_addr);
                if fg >= 0 {
                    assert(found is None);
                    assert(wv0.len() == wait_list@.len());
                    assert(i >= wait_list@.len());
                    assert(0 <= fg < i);
                    assert(wv0[fg].0 != wait_addr);
                    assert(false);
                }
            }
            let mut relays: Vec<NodeAddr> = Vec::new();
            relays.push(notify_addr);
            wait_list.push(WaitGroup { target: wait_addr, relays });
            proof {
                assert(waits_view(wait_list@) =~= wv0.push((wait_addr, seq![notify_addr])));
            }
        },
    }
}

// ------------------------------------------------------------------
// The reactor state.
// ------------------------------------------------------------------

/// All mutable state of the membership reactor.
pub struct ArtilleryState {
    pub host_key: u128,
    pub config: ClusterConfig,
    pub members: ArtilleryMemberList,
    pub seed_queue: Vec<NodeAddr>,
    pub pending_responses: Vec<PendingResponse>,
    pub state_changes: Vec<ArtilleryStateChange>,
    pub wait_list: Vec<WaitGroup>,
}

impl View for ArtilleryState {
    type V = ReactorView;

    open spec fn view(&self) -> ReactorView {
        ReactorView {
            members: self.members.members@,
            digest: self.state_changes@,
            seeds: self.seed_queue@,
            pending: self.pending_responses@,
            waits: waits_view(self.wait_list@),
        }
    }
}

impl ArtilleryState {
    pub open spec fn wf(&self) -> bool {
        &&& self.members.wf()
        &&& self.config.wf()
        &&& digest_wf(self.state_changes@)
        &&& waits_wf(waits_view(self.wait_list@))
    }

    /// Frame: identity and configuration never change after construction.
    pub open spec fn same_identity(&self, other: &ArtilleryState) -> bool {
        &&& self.host_key == other.host_key
        &&& self.config == other.config
    }

    /// Builds the reactor state around the local member.  The outgoing
    /// digest starts seeded with a self Alive change, so the first datagram
    /// advertises presence without waiting for a transition.
    pub fn new(host_key: u128, config: ClusterConfig, now: u64) -> (r: Result<
        ArtilleryState,
        ArtilleryError,
    >)
        ensures
            match r {
                Ok(s) => {
                    &&& config.wf()
                    &&& s.wf()
                    &&& s.host_key == host_key
                    &&& s.config == config
                    &&& s.members.members@ == seq![initial_member(host_key, now)]
                    &&& s.state_changes@ == seq![
                        ArtilleryStateChange { member: initial_member(host_key, now) },
                    ]
                    &&& s.seed_queue@.len() == 0
                    &&& s.pending_responses@.len() == 0
                    &&& s.wait_list@.len() == 0
                },
                Err(e) => e == ArtilleryError::Config && !config.wf(),
            },
    {
        if !config.is_wf() {
            return Err(ArtilleryError::Config);
        }
        let me = ArtilleryMember::current(host_key, now);
        let members = ArtilleryMemberList::new(me);
        let mut state_changes: Vec<ArtilleryStateChange> = Vec::new();
        state_changes.push(ArtilleryStateChange::new(me));
        proof {
            assert(state_changes@ =~= seq![
                ArtilleryStateChange { member: initial_member(host_key, now) },
            ]);
        }
        Ok(
            ArtilleryState {
                host_key,
                config,
                members,
                seed_queue: Vec::new(),
                pending_responses: Vec::new(),
                state_changes,
                wait_list: Vec::new(),
            },
        )
    }
}

/// Upserting one member is the fold over its singleton sequence.
proof fn lemma_upsert_singleton(d: Seq<ArtilleryStateChange>, m: ArtilleryMember)
    ensures
        upsert_changes(d, seq![m]) == upsert_change(d, m),
{
    let s = seq![m];
    assert(s[0] == m);
    assert(s.skip(1) =~= Seq::<ArtilleryMember>::empty());
    assert(upsert_changes(d, s) == upsert_changes(upsert_change(d, m), s.skip(1)));
    assert(upsert_changes(upsert_change(d, m), Seq::<ArtilleryMember>::empty()) == upsert_change(
        d,
        m,
    ));
}

/// The sequence a possible refutation contributes to the digest.
pub open spec fn opt_seq(o: Option<ArtilleryMember>) -> Seq<ArtilleryMember> {
    match o {
        None => Seq::<ArtilleryMember>::empty(),
        Some(m) => seq![m],
    }
}

/// Exact executable counterpart of `spec_member_event`.
pub fn determine_member_event(member: ArtilleryMember) -> (ev: ArtilleryMemberEvent)
    ensures
        ev == spec_member_event(member),
{
    match member.state {
        ArtilleryMemberState::Alive => ArtilleryMemberEvent::MemberWentUp(member),
        ArtilleryMemberState::Suspect => ArtilleryMemberEvent::MemberSuspectedDown(member),
        ArtilleryMemberState::Down => ArtilleryMemberEvent::MemberWentDown(member),
        ArtilleryMemberState::Left => ArtilleryMemberEvent::MemberLeft(member),
    }
}

fn is_key_acked(p: &Vec<PendingResponse>, a: &NodeAddr, k: u128) -> (r: bool)
    ensures
        r == key_acked(p@, *a, k),
{
    let mut i: usize = 0;
    while i < p.len()
        invariant
            i <= p@.len(),
            forall|x: int, j: int|
                0 <= x < i && 0 <= j < p@[x].digest@.len() ==> !(p@[x].target == *a
                    && #[trigger] p@[x].digest@[j].member.host_key == k),
        decreases p@.len() - i,
    {
        let entry = &p[i];
        if entry.target == *a {
            let mut j: usize = 0;
            while j < entry.digest.len()
                invariant
                    i < p@.len(),
                    entry == &p@[i as int],
                    entry.target == *a,
                    j <= entry.digest@.len(),
                    forall|t: int|
                        0 <= t < j ==> #[trigger] entry.digest@[t].member.host_key != k,
                decreases entry.digest@.len() - j,
            {
                if entry.digest[j].member.host_key == k {
                    proof {
                        assert(p@[i as int].digest@[j as int].member.host_key == k);
                    }
                    return true;
                }
                j += 1;
            }
        }
        i += 1;
    }
    false
}

impl ArtilleryState {
    /// Pairs an event with the available-node snapshot at publication time
    /// and appends it to the outbound event stream.
    fn publish(&self, ev: ArtilleryMemberEvent, events: &mut Vec<ArtilleryClusterEvent>)
        ensures
            events_view(final (events)@) == events_view(old(events)@).push(
                (available_of(self.members.members@), ev),
            ),
    {
        let avail = self.members.available_nodes();
        events.push((avail, ev));
        proof {
            assert(events_view(events@) =~= events_view(old(events)@).push(
                (available_of(self.members.members@), ev),
            ));
        }
    }

    fn has_host_key(&self, k: u128) -> (r: bool)
        ensures
            r == has_key(self.members.members@, k),
    {
        let mut i: usize = 0;
        while i < self.members.members.len()
            invariant
                i <= self.members.members@.len(),
                forall|j: int| 0 <= j < i ==> self.members.members@[j].host_key != k,
            decreases self.members.members@.len() - i,
        {
            if self.members.members[i].host_key == k {
                return true;
            }
            i += 1;
        }
        false
    }

    /// Builds and emits one datagram toward `request.target`, truncating
    /// the digest under the MTU, and records a pending response when the
    /// request is a direct Ping.  Fails with the Precondition error exactly
    /// when not even an empty-digest record fits under the MTU.
    pub fn process_request(
        &mut self,
        request: TargetedRequest,
        now: u64,
        datagrams: &mut Vec<Outbound>,
    ) -> (r: Result<(), ArtilleryError>)
        requires
            old(self).wf(),
        ensures
            final (self).wf(),
            old(self).same_identity(final (self)),
            final (self).members == old(self).members,
            final (self).seed_queue == old(self).seed_queue,
            final (self).state_changes == old(self).state_changes,
            final (self).wait_list == old(self).wait_list,
            match r {
                Ok(()) => {
                    &&& final (datagrams)@.len() == old(datagrams)@.len() + 1
                    &&& forall|i: int|
                        0 <= i < old(datagrams)@.len() ==> final (datagrams)@[i] == old(
                            datagrams,
                        )@[i]
                    &&& final (datagrams)@.last().target == request.target
                    &&& final (datagrams)@.last().payload@.len() < old(self).config.network_mtu
                    &&& sent_ok(final (datagrams)@.last(), old(self).host_key, old(self).config)
                    &&& payload_of_request(
                        final (datagrams)@.last().payload@,
                        old(self).host_key,
                        old(self).config,
                        request.request,
                        old(self).state_changes@,
                    )
                    &&& (request.request is Ping ==> {
                        &&& final (self).pending_responses@.len() == old(self).pending_responses@.len() + 1
                        &&& forall|i: int|
                            0 <= i < old(self).pending_responses@.len()
                                ==> final (self).pending_responses@[i] == old(self).pending_responses@[i]
                        &&& final (self).pending_responses@.last().target == request.target
                        &&& final (self).pending_responses@.last().deadline == deadline_after(
                            now,
                            old(self).config.ping_timeout,
                        )
                        &&& final (self).pending_responses@.last().digest@ == old(
                            self,
                        ).state_changes@.take(
                            final (self).pending_responses@.last().digest@.len() as int,
                        )
                        &&& final (datagrams)@.last().payload@ == spec_encode(
                            message_model(
                                old(self).host_key,
                                old(self).config.cluster_key@,
                                request.request,
                                final (self).pending_responses@.last().digest@,
                            ),
                        )
                    })
                    &&& (!(request.request is Ping)
                        ==> final (self).pending_responses == old(self).pending_responses)
                },
                Err(e) => {
                    &&& e == ArtilleryError::Precondition
                    &&& encoded_len_at(
                        old(self).host_key,
                        old(self).config.cluster_key@,
                        request.request,
                        old(self).state_changes@,
                        0,
                    ) >= old(self).config.network_mtu
                    &&& some_request_oversized(old(self).host_key, old(self).config)
                    &&& *final (self) == *old(self)
                    &&& *final (datagrams) == *old(datagrams)
                },
            },
    {
        let msg = build_message(
            self.host_key,
            &self.config.cluster_key,
            request.request,
            &self.state_changes,
            self.config.network_mtu,
        );
        let encoded = encode_message(&msg);
        if encoded.len() >= self.config.network_mtu {
            proof {
                assert(spec_encode(msg@).len() >= self.config.network_mtu);
                assert(self.state_changes@.take(0) =~= Seq::<ArtilleryStateChange>::empty());
                assert(spec_encode(
                    message_model(
                        self.host_key,
                        self.config.cluster_key@,
                        request.request,
                        Seq::<ArtilleryStateChange>::empty(),
                    ),
                ).len() >= self.config.network_mtu);
            }
            return Err(ArtilleryError::Precondition);
        }
        if matches!(request.request, Request::Ping) {
            let deadline: u64 = if now > u64::MAX - self.config.ping_timeout {
                u64::MAX
            } else {
                now + self.config.ping_timeout
            };
            let snapshot = prefix_changes(&msg.state_changes, msg.state_changes.len());
            proof {
                assert(msg.state_changes@.take(msg.state_changes@.len() as int)
                    =~= msg.state_changes@);
            }
            self.pending_responses.push(
                PendingResponse { deadline, target: request.target, digest: snapshot },
            );
        }
        datagrams.push(Outbound { target: request.target, payload: encoded });
        proof {
            let d = datagrams@.last();
            assert(d.payload@ == spec_encode(
                message_model(
                    old(self).host_key,
                    old(self).config.cluster_key@,
                    request.request,
                    msg.state_changes@,
                ),
            ));
            assert(sent_ok(d, old(self).host_key, old(self).config));
            let l = msg.state_changes@.len() as int;
            assert(msg.state_changes@ == old(self).state_changes@.take(l));
            assert(payload_of_request(
                d.payload@,
                old(self).host_key,
                old(self).config,
                request.request,
                old(self).state_changes@,
            ));
        }
        Ok(())
    }

    /// Merges an inbound digest, disseminates what changed, and publishes
    /// exactly one event per transition, Joined events first, in the order
    /// the transitions were realized.
    pub fn apply_state_changes(
        &mut self,
        changes: &Vec<ArtilleryStateChange>,
        from: NodeAddr,
        now: u64,
        events: &mut Vec<ArtilleryClusterEvent>,
    )
        requires
            old(self).wf(),
        ensures
            final (self).wf(),
            old(self).same_identity(final (self)),
            final (self).seed_queue == old(self).seed_queue,
            final (self).pending_responses == old(self).pending_responses,
            final (self).wait_list == old(self).wait_list,
            ({
                let fr = apply_fold(old(self).members.members@, changes@, from, now);
                let avail = available_of(fr.0);
                &&& final (self).members.members@ == fr.0
                &&& final (self).state_changes@ == upsert_changes(
                    upsert_changes(upsert_changes(old(self).state_changes@, fr.1), fr.2),
                    opt_seq(fr.3),
                )
                &&& events_view(final (events)@) == events_view(old(events)@) + events_of(
                    fr.1,
                    avail,
                    true,
                ) + events_of(fr.2, avail, false)
            }),
    {
        let (new_members, changed_members, refute) = self.members.apply_state_changes(
            changes,
            from,
            now,
        );
        enqueue_state_change(&mut self.state_changes, &new_members);
        enqueue_state_change(&mut self.state_changes, &changed_members);
        match refute {
            Some(m) => {
                let mut rv: Vec<ArtilleryMember> = Vec::new();
                rv.push(m);
                proof {
                    assert(rv@ =~= opt_seq(Some(m)));
                }
                enqueue_state_change(&mut self.state_changes, &rv);
            },
            None => {
                proof {
                    assert(opt_seq(None::<ArtilleryMember>) =~= Seq::<ArtilleryMember>::empty());
                }
            },
        }
        let ghost avail_s = available_of(self.members.members@);
        let ghost ev0 = events@;
        let mut i: usize = 0;
        proof {
            assert(new_members@.take(0) =~= Seq::<ArtilleryMember>::empty());
            assert(events_view(ev0) + events_of(new_members@.take(0), avail_s, true)
                =~= events_view(ev0));
        }
        while i < new_members.len()
            invariant
                i <= new_members@.len(),
                self.members.members@.len() >= 1,
                avail_s == available_of(self.members.members@),
                events_view(events@) == events_view(ev0) + events_of(
                    new_members@.take(i as int),
                    avail_s,
                    true,
                ),
            decreases new_members@.len() - i,
        {
            proof {
                assert(new_members@.take(i + 1).drop_last() =~= new_members@.take(i as int));
                assert(new_members@.take(i + 1).last() == new_members@[i as int]);
            }
            let m = new_members[i];
            self.publish(ArtilleryMemberEvent::MemberJoined(m), events);
            proof {
                assert(events_view(ev0) + events_of(new_members@.take(i + 1), avail_s, true) =~= (
                events_view(ev0) + events_of(new_members@.take(i as int), avail_s, true)).push(
                    (avail_s, ArtilleryMemberEvent::MemberJoined(m)),
                ));
            }
            i += 1;
        }
        proof {
            assert(new_members@.take(new_members@.len() as int) =~= new_members@);
        }
        let ghost ev1 = events@;
        let mut j: usize = 0;
        proof {
            assert(changed_members@.take(0) =~= Seq::<ArtilleryMember>::empty());
            assert(events_view(ev1) + events_of(changed_members@.take(0), avail_s, false)
                =~= events_view(ev1));
        }
        while j < changed_members.len()
            invariant
                j <= changed_members@.len(),
                self.members.members@.len() >= 1,
                avail_s == available_of(self.members.members@),
                events_view(events@) == events_view(ev1) + events_of(
                    changed_members@.take(j as int),
                    avail_s,
                    false,
                ),
            decreases changed_members@.len() - j,
        {
            proof {
                assert(changed_members@.take(j + 1).drop_last() =~= changed_members@.take(
                    j as int,
                ));
                assert(changed_members@.take(j + 1).last() == changed_members@[j as int]);
            }
            let m = changed_members[j];
            let ev = determine_member_event(m);
            self.publish(ev, events);
            proof {
                assert(events_view(ev1) + events_of(changed_members@.take(j + 1), avail_s, false)
                    =~= (events_view(ev1) + events_of(changed_members@.take(j as int), avail_s, false)).push(
                    (avail_s, spec_member_event(m)),
                ));
            }
            j += 1;
        }
        proof {
            assert(changed_members@.take(changed_members@.len() as int) =~= changed_members@);
            let fr = apply_fold(old(self).members.members@, changes@, from, now);
            assert(events_view(ev1) == events_view(ev0) + events_of(fr.1, avail_s, true));
            assert(events_view(ev0) + events_of(fr.1, avail_s, true) + events_of(
                fr.2,
                avail_s,
                false,
            ) =~= events_view(ev1) + events_of(fr.2, avail_s, false));
        }
    }

    /// Clears every pending probe toward an acknowledged address and stops
    /// re-disseminating any digest entry whose host key rode on one of the
    /// acknowledged probes.
    pub fn ack_response(&mut self, src_addr: NodeAddr)
        requires
            old(self).wf(),
        ensures
            final (self).wf(),
            old(self).same_identity(final (self)),
            final (self).members == old(self).members,
            final (self).seed_queue == old(self).seed_queue,
            final (self).wait_list == old(self).wait_list,
            final (self).pending_responses@ == pending_without(
                old(self).pending_responses@,
                src_addr,
            ),
            final (self).state_changes@ == digest_unacked(
                old(self).state_changes@,
                old(self).pending_responses@,
                src_addr,
            ),
            forall|i: int|
                0 <= i < final (self).pending_responses@.len()
                    ==> #[trigger] final (self).pending_responses@[i].target != src_addr,
            forall|i: int|
                0 <= i < final (self).state_changes@.len() ==> !key_acked(
                    old(self).pending_responses@,
                    src_addr,
                    #[trigger] final (self).state_changes@[i].member.host_key,
                ),
    {
        let ghost d0 = self.state_changes@;
        let ghost p0 = self.pending_responses@;
        let mut kept: Vec<ArtilleryStateChange> = Vec::new();
        let mut i: usize = 0;
        proof {
            assert(d0.take(0) =~= Seq::<ArtilleryStateChange>::empty());
        }
        while i < self.state_changes.len()
            invariant
                i <= self.state_changes@.len(),
                *self == *old(self),
                self.state_changes@ == d0,
                self.pending_responses@ == p0,
                kept@ == digest_unacked(d0.take(i as int), p0, src_addr),
            decreases self.state_changes@.len() - i,
        {
            proof {
                assert(d0.take(i + 1).drop_last() =~= d0.take(i as int));
                assert(d0.take(i + 1).last() == d0[i as int]);
            }
            let c = self.state_changes[i];
            if !is_key_acked(&self.pending_responses, &src_addr, c.member.host_key) {
                kept.push(c);
            }
            i += 1;
        }
        proof {
            assert(d0.take(d0.len() as int) =~= d0);
        }
        self.state_changes = kept;
        let ghost mut scanned: int = 0;
        let mut j: usize = 0;
        proof {
            assert(p0.take(0) =~= Seq::<PendingResponse>::empty());
            assert(p0.skip(0) =~= p0);
            assert(pending_without(p0.take(0), src_addr) + p0.skip(0) =~= p0);
        }
        while j < self.pending_responses.len()
            invariant
                0 <= scanned <= p0.len(),
                self.host_key == old(self).host_key,
                self.config == old(self).config,
                self.members == old(self).members,
                self.seed_queue == old(self).seed_queue,
                self.wait_list == old(self).wait_list,
                old(self).wf(),
                self.state_changes@ == digest_unacked(d0, p0, src_addr),
                digest_wf(d0),
                self.pending_responses@ == pending_without(p0.take(scanned), src_addr) + p0.skip(
                    scanned,
                ),
                j == pending_without(p0.take(scanned), src_addr).len(),
            decreases p0.len() - scanned,
        {
            proof {
                assert(p0.take(scanned + 1).drop_last() =~= p0.take(scanned));
                assert(p0.take(scanned + 1).last() == p0[scanned]);
                assert(self.pending_responses@[j as int] == p0.skip(scanned)[0]);
                assert(p0.skip(scanned)[0] == p0[scanned]);
            }
            let hit = self.pending_responses[j].target == src_addr;
            if hit {
                let _ = self.pending_responses.remove(j);
                proof {
                    let done = pending_without(p0.take(scanned), src_addr);
                    assert(self.pending_responses@ =~= done + p0.skip(scanned + 1));
                    scanned = scanned + 1;
                }
            } else {
                j += 1;
                proof {
                    let done = pending_without(p0.take(scanned), src_addr);
                    assert(pending_without(p0.take(scanned + 1), src_addr) == done.push(
                        p0[scanned],
                    ));
                    assert(self.pending_responses@ =~= done.push(p0[scanned]) + p0.skip(
                        scanned + 1,
                    ));
                    scanned = scanned + 1;
                }
            }
        }
        proof {
            assert(scanned == p0.len());
            assert(p0.take(p0.len() as int) =~= p0);
            assert(p0.skip(p0.len() as int) =~= Seq::<PendingResponse>::empty());
            assert(pending_without(p0, src_addr) + Seq::<PendingResponse>::empty()
                =~= pending_without(p0, src_addr));
            lemma_pending_without_clean(p0, src_addr);
            lemma_digest_unacked_clean(d0, p0, src_addr);
        }
    }

    /// Promotes a probed member back to Alive on an acknowledgment: the
    /// first Suspect record under the address goes Alive, its wait-list
    /// group is drained into one AckHost reaction per stored relay in
    /// order, the promotion is disseminated, and MemberWentUp is published.
    pub fn mark_node_alive(
        &mut self,
        src_addr: NodeAddr,
        now: u64,
        events: &mut Vec<ArtilleryClusterEvent>,
        reactions: &mut Vec<TargetedRequest>,
    )
        requires
            old(self).wf(),
        ensures
            final (self).wf(),
            old(self).same_identity(final (self)),
            final (self).seed_queue == old(self).seed_queue,
            final (self).pending_responses == old(self).pending_responses,
            ({
                let m0 = old(self).members.members@;
                let fs = first_suspect_at(m0, src_addr);
                let wv0 = waits_view(old(self).wait_list@);
                if fs < 0 {
                    &&& final (self).members == old(self).members
                    &&& final (self).state_changes == old(self).state_changes
                    &&& final (self).wait_list == old(self).wait_list
                    &&& *final (events) == *old(events)
                    &&& *final (reactions) == *old(reactions)
                } else {
                    let promoted = alive_of(m0[fs], now);
                    let g = first_wait_group(wv0, src_addr);
                    &&& final (self).members.members@ == m0.update(fs, promoted)
                    &&& final (self).state_changes@ == upsert_change(
                        old(self).state_changes@,
                        promoted,
                    )
                    &&& events_view(final (events)@) == events_view(old(events)@).push(
                        (
                            available_of(m0.update(fs, promoted)),
                            ArtilleryMemberEvent::MemberWentUp(promoted),
                        ),
                    )
                    &&& waits_view(final (self).wait_list@) == wait_view_after_drain(wv0, src_addr)
                    &&& final (reactions)@ == old(reactions)@ + (if g < 0 {
                        Seq::<TargetedRequest>::empty()
                    } else {
                        wv0[g].1.map_values(
                            |r: NodeAddr|
                                (TargetedRequest { request: Request::AckHost(promoted), target: r }),
                        )
                    })
                }
            }),
    {
        let ghost m0 = self.members.members@;
        let ghost wv0 = waits_view(self.wait_list@);
        proof {
            lemma_first_suspect_at(m0, src_addr);
            lemma_first_wait_group(wv0, src_addr);
        }
        match self.members.mark_node_alive(&src_addr, now) {
            None => {
                proof {
                    let fs = first_suspect_at(m0, src_addr);
                    if fs >= 0 {
                        assert(!(m0[fs].remote_host == Some(src_addr) && m0[fs].state
                            == ArtilleryMemberState::Suspect));
                        assert(false);
                    }
                }
            },
            Some(member) => {
                proof {
                    let fs = first_suspect_at(m0, src_addr);
                    let i = choose|i: int|
                        {
                            &&& 0 <= i < m0.len()
                            &&& #[trigger] m0[i].remote_host == Some(src_addr)
                            &&& m0[i].state == ArtilleryMemberState::Suspect
                            &&& forall|j: int|
                                0 <= j < i ==> !(m0[j].remote_host == Some(src_addr) && m0[j].state
                                    == ArtilleryMemberState::Suspect)
                            &&& member == alive_of(m0[i], now)
                            &&& self.members.members@ == m0.update(i, member)
                        };
                    if fs < 0 {
                        assert(!(m0[i].remote_host == Some(src_addr) && m0[i].state
                            == ArtilleryMemberState::Suspect));
                        assert(false);
                    } else if fs < i {
                        assert(!(m0[fs].remote_host == Some(src_addr) && m0[fs].state
                            == ArtilleryMemberState::Suspect));
                        assert(false);
                    } else if fs > i {
                        assert(!(m0[i].remote_host == Some(src_addr) && m0[i].state
                            == ArtilleryMemberState::Suspect));
                        assert(false);
                    }
                    assert(member == alive_of(m0[fs], now));
                    assert(self.members.members@ == m0.update(fs, member));
                }
                let mut found: Option<usize> = None;
                let mut gi: usize = 0;
                while gi < self.wait_list.len()
                    invariant_except_break
                        found is None,
                    invariant
                        gi <= self.wait_list@.len(),
                        wv0 == waits_view(self.wait_list@),
                        found is None ==> forall|j: int| 0 <= j < gi ==> wv0[j].0 != src_addr,
                        found matches Some(g) ==> 0 <= g < wv0.len() && wv0[g as int].0 == src_addr
                            && (forall|j: int| 0 <= j < g ==> wv0[j].0 != src_addr),
                    ensures
                        found is None ==> gi >= self.wait_list@.len(),
                    decreases self.wait_list@.len() - gi,
                {
                    if self.wait_list[gi].target == src_addr {
                        proof {
                            assert(wv0[gi as int] == group_view(self.wait_list@[gi as int]));
                        }
                        found = Some(gi);
                        break ;
                    }
                    proof {
                        assert(wv0[gi as int] == group_view(self.wait_list@[gi as int]));
                    }
                    gi += 1;
                }
                match found {
                    Some(g) => {
                        proof {
                            let fg = first_wait_group(wv0, src_addr);
                            if fg < 0 {
                                assert(wv0[g as int].0 != src_addr);
                                assert(false);
                            } else if fg < g {
                                assert(wv0[fg].0 != src_addr);
                                assert(false);
                            } else if fg > g {
                                assert(wv0[g as int].0 != src_addr);
                                assert(false);
                            }
                        }
                        let group = self.wait_list.remove(g);
                        proof {
                            assert(waits_view(self.wait_list@) =~= wv0.remove(g as int));
                            assert(group.relays@ == wv0[g as int].1);
                            lemma_wait_drain_wf(wv0, src_addr);
                        }
                        let ghost r0 = reactions@;
                        let mut t: usize = 0;
                        while t < group.relays.len()
                            invariant
                                t <= group.relays@.len(),
                                reactions@ == r0 + group.relays@.take(t as int).map_values(
                                    |r: NodeAddr|
                                        (TargetedRequest {
                                            request: Request::AckHost(member),
                                            target: r,
                                        }),
                                ),
                            decreases group.relays@.len() - t,
                        {
                            reactions.push(
                                TargetedRequest {
                                    request: Request::AckHost(member),
                                    target: group.relays[t],
                                },
                            );
                            proof {
                                let f = |r: NodeAddr|
                                    (TargetedRequest {
                                        request: Request::AckHost(member),
                                        target: r,
                                    });
                                assert(group.relays@.take(t + 1) =~= group.relays@.take(
                                    t as int,
                                ).push(group.relays@[t as int]));
                                assert(group.relays@.take(t + 1).map_values(f)
                                    =~= group.relays@.take(t as int).map_values(f).push(
                                    f(group.relays@[t as int]),
                                ));
                                assert(reactions@ =~= r0 + group.relays@.take(t + 1).map_values(f));
                            }
                            t += 1;
                        }
                        proof {
                            assert(group.relays@.take(group.relays@.len() as int)
                                =~= group.relays@);
                        }
                    },
                    None => {
                        proof {
                            let fg = first_wait_group(wv0, src_addr);
                            if fg >= 0 {
                                assert(found is None);
                                assert(wv0.len() == self.wait_list@.len());
                                assert(gi >= self.wait_list@.len());
                                assert(wv0[fg].0 != src_addr);
                                assert(false);
                            }
                            assert(*final (reactions) == *old(reactions));
                        }
                    },
                }
                let mut mv: Vec<ArtilleryMember> = Vec::new();
                mv.push(member);
                proof {
                    assert(mv@ =~= seq![member]);
                    lemma_upsert_singleton(old(self).state_changes@, member);
                }
                enqueue_state_change(&mut self.state_changes, &mv);
                self.publish(ArtilleryMemberEvent::MemberWentUp(member), events);
            },
        }
    }

    /// Inserts a first-contact sender into the table, disseminates it and
    /// publishes MemberJoined; a sender already known by address or by host
    /// key leaves everything untouched.
    pub fn ensure_node_is_member(
        &mut self,
        src_addr: NodeAddr,
        sender: u128,
        now: u64,
        events: &mut Vec<ArtilleryClusterEvent>,
    )
        requires
            old(self).wf(),
        ensures
            final (self).wf(),
            old(self).same_identity(final (self)),
            final (self).seed_queue == old(self).seed_queue,
            final (self).pending_responses == old(self).pending_responses,
            final (self).wait_list == old(self).wait_list,
            ({
                let known = (exists|i: int|
                    0 <= i < old(self).members.members@.len() && #[trigger] old(
                        self,
                    ).members.members@[i].remote_host == Some(src_addr)) || has_key(
                    old(self).members.members@,
                    sender,
                );
                let nm = ArtilleryMember {
                    host_key: sender,
                    remote_host: Some(src_addr),
                    incarnation: 0,
                    state: ArtilleryMemberState::Alive,
                    last_state_change: now,
                };
                if known {
                    &&& final (self).members == old(self).members
                    &&& final (self).state_changes == old(self).state_changes
                    &&& *final (events) == *old(events)
                } else {
                    &&& final (self).members.members@ == old(self).members.members@.push(nm)
                    &&& final (self).state_changes@ == upsert_change(old(self).state_changes@, nm)
                    &&& events_view(final (events)@) == events_view(old(events)@).push(
                        (
                            available_of(final (self).members.members@),
                            ArtilleryMemberEvent::MemberJoined(nm),
                        ),
                    )
                }
            }),
    {
        if self.members.has_member(&src_addr) {
            return ;
        }
        if self.has_host_key(sender) {
            return ;
        }
        let new_member = ArtilleryMember::new(sender, src_addr, 0, ArtilleryMemberState::Alive, now);
        self.members.add_member(new_member);
        let mut mv: Vec<ArtilleryMember> = Vec::new();
        mv.push(new_member);
        proof {
            assert(mv@ =~= seq![new_member]);
            lemma_upsert_singleton(old(self).state_changes@, new_member);
        }
        enqueue_state_change(&mut self.state_changes, &mv);
        self.publish(ArtilleryMemberEvent::MemberJoined(new_member), events);
    }

    /// The timeout sweep: retains the unexpired pending probes, escalates
    /// the lapsed targets (Alive to Suspect, Suspect to Down), disseminates
    /// the transitions, asks relays to probe each fresh Suspect indirectly,
    /// and publishes the transition events, Suspects first.
    pub fn prune_timed_out_responses(
        &mut self,
        now: u64,
        rand: u64,
        events: &mut Vec<ArtilleryClusterEvent>,
        reactions: &mut Vec<TargetedRequest>,
    )
        requires
            old(self).wf(),
        ensures
            final (self).wf(),
            old(self).same_identity(final (self)),
            final (self).seed_queue == old(self).seed_queue,
            final (self).wait_list == old(self).wait_list,
            final (self).pending_responses@ == pending_unexpired(
                old(self).pending_responses@,
                now,
            ),
            ({
                let exp = expired_addrs(old(self).pending_responses@, now);
                let suspects = timeout_suspects(old(self).members.members@, exp, now);
                let downs = timeout_downs(old(self).members.members@, exp, now);
                let avail = available_of(final (self).members.members@);
                &&& final (reactions)@ == old(reactions)@ + sweep_probes(
                    suspects,
                    final (self).members.members@,
                    old(self).config.ping_request_host_count as int,
                    rand,
                )
                &&& final (self).members.members@.len() == old(self).members.members@.len()
                &&& forall|i: int|
                    0 <= i < old(self).members.members@.len()
                        ==> final (self).members.members@[i] == timeout_one(
                            old(self).members.members@[i], exp, now)
                &&& final (self).state_changes@ == upsert_changes(
                    upsert_changes(old(self).state_changes@, downs),
                    suspects,
                )
                &&& events_view(final (events)@) == events_view(old(events)@) + events_of(
                    suspects,
                    avail,
                    false,
                ) + events_of(downs, avail, false)
            }),
    {
        let ghost p0 = self.pending_responses@;
        let ghost m0 = self.members.members@;
        let mut expired_targets: Vec<NodeAddr> = Vec::new();
        let ghost mut scanned: int = 0;
        let mut j: usize = 0;
        proof {
            assert(p0.take(0) =~= Seq::<PendingResponse>::empty());
            assert(p0.skip(0) =~= p0);
            assert(pending_unexpired(p0.take(0), now) + p0.skip(0) =~= p0);
        }
        while j < self.pending_responses.len()
            invariant
                0 <= scanned <= p0.len(),
                self.host_key == old(self).host_key,
                self.config == old(self).config,
                self.members == old(self).members,
                self.seed_queue == old(self).seed_queue,
                self.wait_list == old(self).wait_list,
                self.state_changes == old(self).state_changes,
                old(self).wf(),
                self.pending_responses@ == pending_unexpired(p0.take(scanned), now) + p0.skip(
                    scanned,
                ),
                j == pending_unexpired(p0.take(scanned), now).len(),
                expired_targets@ == expired_addrs(p0.take(scanned), now),
            decreases p0.len() - scanned,
        {
            proof {
                assert(p0.take(scanned + 1).drop_last() =~= p0.take(scanned));
                assert(p0.take(scanned + 1).last() == p0[scanned]);
                assert(self.pending_responses@[j as int] == p0.skip(scanned)[0]);
                assert(p0.skip(scanned)[0] == p0[scanned]);
            }
            let expired = self.pending_responses[j].deadline <= now;
            if expired {
                let target = self.pending_responses[j].target;
                let _ = self.pending_responses.remove(j);
                expired_targets.push(target);
                proof {
                    let done = pending_unexpired(p0.take(scanned), now);
                    assert(self.pending_responses@ =~= done + p0.skip(scanned + 1));
                    scanned = scanned + 1;
                }
            } else {
                j += 1;
                proof {
                    let done = pending_unexpired(p0.take(scanned), now);
                    assert(pending_unexpired(p0.take(scanned + 1), now) == done.push(p0[scanned]));
                    assert(self.pending_responses@ =~= done.push(p0[scanned]) + p0.skip(
                        scanned + 1,
                    ));
                    scanned = scanned + 1;
                }
            }
        }
        proof {
            assert(scanned == p0.len());
            assert(p0.take(p0.len() as int) =~= p0);
            assert(p0.skip(p0.len() as int) =~= Seq::<PendingResponse>::empty());
            assert(pending_unexpired(p0, now) + Seq::<PendingResponse>::empty()
                =~= pending_unexpired(p0, now));
        }
        let (suspects, downs) = self.members.time_out_nodes(&expired_targets, now);
        enqueue_state_change(&mut self.state_changes, &downs);
        enqueue_state_change(&mut self.state_changes, &suspects);
        proof {
            lemma_suspects_state(m0, expired_addrs(p0, now), now);
            lemma_downs_state(m0, expired_addrs(p0, now), now);
        }
        let ghost avail_s = available_of(self.members.members@);
        let ghost ev0 = events@;
        let ghost final_members = self.members;
        let ghost final_digest = self.state_changes;
        let ghost final_pending = self.pending_responses;
        let ghost r0 = reactions@;
        let mut i: usize = 0;
        proof {
            assert(suspects@.take(0) =~= Seq::<ArtilleryMember>::empty());
            assert(events_view(ev0) + events_of(suspects@.take(0), avail_s, false) =~= events_view(
                ev0,
            ));
            assert(r0 + sweep_probes(
                suspects@.take(0),
                self.members.members@,
                self.config.ping_request_host_count as int,
                rand,
            ) =~= r0);
        }
        while i < suspects.len()
            invariant
                i <= suspects@.len(),
                self.host_key == old(self).host_key,
                self.config == old(self).config,
                self.members == final_members,
                self.seed_queue == old(self).seed_queue,
                self.wait_list == old(self).wait_list,
                self.state_changes == final_digest,
                self.pending_responses == final_pending,
                self.members.wf(),
                forall|t: int|
                    0 <= t < suspects@.len() ==> #[trigger] suspects@[t].state
                        == ArtilleryMemberState::Suspect,
                avail_s == available_of(self.members.members@),
                events_view(events@) == events_view(ev0) + events_of(
                    suspects@.take(i as int),
                    avail_s,
                    false,
                ),
                reactions@ == r0 + sweep_probes(
                    suspects@.take(i as int),
                    self.members.members@,
                    self.config.ping_request_host_count as int,
                    rand,
                ),
            decreases suspects@.len() - i,
        {
            let ghost kk = self.config.ping_request_host_count as int;
            proof {
                assert(suspects@.take(i + 1).drop_last() =~= suspects@.take(i as int));
                assert(suspects@.take(i + 1).last() == suspects@[i as int]);
            }
            let m = suspects[i];
            match m.remote_host {
                Some(target_addr) => {
                    let ghost r_pre = reactions@;
                    let relays = self.members.hosts_for_indirect_ping(
                        self.config.ping_request_host_count,
                        &target_addr,
                        rand,
                    );
                    let ghost f = |a: NodeAddr|
                        (TargetedRequest { request: Request::PingRequest(target_addr), target: a });
                    let mut t: usize = 0;
                    proof {
                        assert(relays@.take(0) =~= Seq::<NodeAddr>::empty());
                        assert(r_pre + relays@.take(0).map_values(f) =~= r_pre);
                    }
                    while t < relays.len()
                        invariant
                            t <= relays@.len(),
                            f == (|a: NodeAddr|
                                (TargetedRequest {
                                    request: Request::PingRequest(target_addr),
                                    target: a,
                                })),
                            reactions@ == r_pre + relays@.take(t as int).map_values(f),
                        decreases relays@.len() - t,
                    {
                        reactions.push(
                            TargetedRequest {
                                request: Request::PingRequest(target_addr),
                                target: relays[t],
                            },
                        );
                        proof {
                            assert(relays@.take(t + 1) =~= relays@.take(t as int).push(
                                relays@[t as int],
                            ));
                            assert(relays@.take(t + 1).map_values(f) =~= relays@.take(
                                t as int,
                            ).map_values(f).push(f(relays@[t as int])));
                            assert(reactions@ =~= r_pre + relays@.take(t + 1).map_values(f));
                        }
                        t += 1;
                    }
                    proof {
                        assert(relays@.take(relays@.len() as int) =~= relays@);
                        assert(relays@.map_values(f) =~= indirect_probes(
                            self.members.members@,
                            kk,
                            target_addr,
                            rand,
                        ));
                        assert(sweep_probes(suspects@.take(i + 1), self.members.members@, kk, rand)
                            == sweep_probes(suspects@.take(i as int), self.members.members@, kk, rand)
                            + indirect_probes(self.members.members@, kk, target_addr, rand));
                        assert(r0 + sweep_probes(suspects@.take(i + 1), self.members.members@, kk, rand)
                            =~= (r0 + sweep_probes(suspects@.take(i as int), self.members.members@, kk, rand))
                            + indirect_probes(self.members.members@, kk, target_addr, rand));
                    }
                },
                None => {
                    proof {
                        assert(sweep_probes(suspects@.take(i + 1), self.members.members@, kk, rand)
                            =~= sweep_probes(suspects@.take(i as int), self.members.members@, kk, rand));
                    }
                },
            }
            self.publish(ArtilleryMemberEvent::MemberSuspectedDown(m), events);
            proof {
                assert(spec_member_event(m) == ArtilleryMemberEvent::MemberSuspectedDown(m));
                assert(events_view(ev0) + events_of(suspects@.take(i + 1), avail_s, false) =~= (
                events_view(ev0) + events_of(suspects@.take(i as int), avail_s, false)).push(
                    (avail_s, spec_member_event(m)),
                ));
            }
            i += 1;
        }
        proof {
            assert(suspects@.take(suspects@.len() as int) =~= suspects@);
        }
        let ghost ev1 = events@;
        let mut k: usize = 0;
        proof {
            assert(downs@.take(0) =~= Seq::<ArtilleryMember>::empty());
            assert(events_view(ev1) + events_of(downs@.take(0), avail_s, false) =~= events_view(
                ev1,
            ));
        }
        while k < downs.len()
            invariant
                k <= downs@.len(),
                self.host_key == old(self).host_key,
                self.config == old(self).config,
                self.members == final_members,
                self.seed_queue == old(self).seed_queue,
                self.wait_list == old(self).wait_list,
                self.state_changes == final_digest,
                self.pending_responses == final_pending,
                self.members.wf(),
                forall|t: int|
                    0 <= t < downs@.len() ==> #[trigger] downs@[t].state
                        == ArtilleryMemberState::Down,
                avail_s == available_of(self.members.members@),
                events_view(events@) == events_view(ev1) + events_of(
                    downs@.take(k as int),
                    avail_s,
                    false,
                ),
            decreases downs@.len() - k,
        {
            proof {
                assert(downs@.take(k + 1).drop_last() =~= downs@.take(k as int));
                assert(downs@.take(k + 1).last() == downs@[k as int]);
            }
            let m = downs[k];
            self.publish(ArtilleryMemberEvent::MemberWentDown(m), events);
            proof {
                assert(spec_member_event(m) == ArtilleryMemberEvent::MemberWentDown(m));
                assert(events_view(ev1) + events_of(downs@.take(k + 1), avail_s, false) =~= (
                events_view(ev1) + events_of(downs@.take(k as int), avail_s, false)).push(
                    (avail_s, spec_member_event(m)),
                ));
            }
            k += 1;
        }
        proof {
            assert(downs@.take(downs@.len() as int) =~= downs@);
            let exp = expired_addrs(p0, now);
            let s_spec = timeout_suspects(m0, exp, now);
            let d_spec = timeout_downs(m0, exp, now);
            assert(events_view(ev1) == events_view(ev0) + events_of(s_spec, avail_s, false));
            assert(events_view(ev0) + events_of(s_spec, avail_s, false) + events_of(
                d_spec,
                avail_s,
                false,
            ) =~= events_view(ev1) + events_of(d_spec, avail_s, false));
        }
    }

    /// Emits one datagram per queued request, in order: each carries the
    /// request toward its target with the largest under-MTU digest prefix,
    /// and each direct Ping records one pending response.
    #[verifier::rlimit(100)]
    #[verifier::spinoff_prover]
    fn emit_requests(
        &mut self,
        reactions: &Vec<TargetedRequest>,
        now: u64,
        datagrams: &mut Vec<Outbound>,
    ) -> (r: Result<(), ArtilleryError>)
        requires
            old(self).wf(),
        ensures
            final (self).wf(),
            old(self).same_identity(final (self)),
            final (self).members == old(self).members,
            final (self).seed_queue == old(self).seed_queue,
            final (self).state_changes == old(self).state_changes,
            final (self).wait_list == old(self).wait_list,
            match r {
                Ok(()) => {
                    &&& final (datagrams)@.len() == old(datagrams)@.len() + reactions@.len()
                    &&& forall|x: int|
                        0 <= x < old(datagrams)@.len() ==> final (datagrams)@[x] == old(
                            datagrams,
                        )@[x]
                    &&& forall|t: int|
                        0 <= t < reactions@.len() ==> {
                            let d = final (datagrams)@[old(datagrams)@.len() + t];
                            let rq = #[trigger] reactions@[t];
                            &&& d.target == rq.target
                            &&& d.payload@.len() < old(self).config.network_mtu
                            &&& sent_ok(d, old(self).host_key, old(self).config)
                            &&& payload_of_request(
                                d.payload@,
                                old(self).host_key,
                                old(self).config,
                                rq.request,
                                old(self).state_changes@,
                            )
                        }
                    &&& final (self).pending_responses@.len() == old(
                        self,
                    ).pending_responses@.len() + ping_targets(reactions@).len()
                    &&& forall|x: int|
                        0 <= x < old(self).pending_responses@.len()
                            ==> final (self).pending_responses@[x] == old(
                            self,
                        ).pending_responses@[x]
                    &&& forall|k2: int|
                        0 <= k2 < ping_targets(reactions@).len() ==> {
                            let e = final (self).pending_responses@[old(
                                self,
                            ).pending_responses@.len() + k2];
                            &&& e.target == #[trigger] ping_targets(reactions@)[k2]
                            &&& e.deadline == deadline_after(now, old(self).config.ping_timeout)
                            &&& e.digest@ == old(self).state_changes@.take(e.digest@.len() as int)
                        }
                },
                Err(e) => e == ArtilleryError::Precondition && some_request_oversized(
                    old(self).host_key,
                    old(self).config,
                ),
            },
    {
        let ghost d0 = datagrams@;
        let ghost p0 = self.pending_responses@;
        let mut i: usize = 0;
        proof {
            assert(reactions@.take(0) =~= Seq::<TargetedRequest>::empty());
        }
        while i < reactions.len()
            invariant
                i <= reactions@.len(),
                self.wf(),
                self.host_key == old(self).host_key,
                self.config == old(self).config,
                self.members == old(self).members,
                self.seed_queue == old(self).seed_queue,
                self.state_changes == old(self).state_changes,
                self.wait_list == old(self).wait_list,
                d0 == old(datagrams)@,
                p0 == old(self).pending_responses@,
                datagrams@.len() == d0.len() + i,
                forall|x: int| 0 <= x < d0.len() ==> datagrams@[x] == d0[x],
                forall|t: int|
                    0 <= t < i ==> {
                        let d = datagrams@[d0.len() + t];
                        let rq = #[trigger] reactions@[t];
                        &&& d.target == rq.target
                        &&& d.payload@.len() < old(self).config.network_mtu
                        &&& sent_ok(d, old(self).host_key, old(self).config)
                        &&& payload_of_request(
                            d.payload@,
                            old(self).host_key,
                            old(self).config,
                            rq.request,
                            old(self).state_changes@,
                        )
                    },
                self.pending_responses@.len() == p0.len() + ping_targets(
                    reactions@.take(i as int),
                ).len(),
                forall|x: int| 0 <= x < p0.len() ==> self.pending_responses@[x] == p0[x],
                forall|k2: int|
                    0 <= k2 < ping_targets(reactions@.take(i as int)).len() ==> {
                        let e = self.pending_responses@[p0.len() + k2];
                        &&& e.target == #[trigger] ping_targets(reactions@.take(i as int))[k2]
                        &&& e.deadline == deadline_after(now, old(self).config.ping_timeout)
                        &&& e.digest@ == old(self).state_changes@.take(e.digest@.len() as int)
                    },
            decreases reactions@.len() - i,
        {
            proof {
                assert(reactions@.take(i + 1).drop_last() =~= reactions@.take(i as int));
                assert(reactions@.take(i + 1).last() == reactions@[i as int]);
            }
            let ghost pend_pre = self.pending_responses@;
            let req = reactions[i];
            let res = self.process_request(req, now, datagrams);
            if let Err(e) = res {
                return Err(e);
            }
            proof {
                let prev_pt = ping_targets(reactions@.take(i as int));
                let new_pt = ping_targets(reactions@.take(i + 1));
                if req.request is Ping {
                    assert(new_pt == prev_pt.push(req.target));
                    assert forall|k2: int| 0 <= k2 < new_pt.len() implies {
                        let e = self.pending_responses@[p0.len() + k2];
                        &&& e.target == #[trigger] new_pt[k2]
                        &&& e.deadline == deadline_after(now, old(self).config.ping_timeout)
                        &&& e.digest@ == old(self).state_changes@.take(e.digest@.len() as int)
                    } by {
                        if k2 < prev_pt.len() {
                            assert(self.pending_responses@[p0.len() + k2] == pend_pre[p0.len()
                                + k2]);
                            assert(new_pt[k2] == prev_pt[k2]);
                        } else {
                            assert(self.pending_responses@[p0.len() + k2]
                                == self.pending_responses@.last());
                            assert(new_pt[k2] == req.target);
                        }
                    }
                } else {
                    assert(new_pt == prev_pt);
                    assert(self.pending_responses@ == pend_pre);
                }
            }
            i += 1;
        }
        proof {
            assert(reactions@.take(reactions@.len() as int) =~= reactions@);
            let full_pt = ping_targets(reactions@);
            assert(ping_targets(reactions@.take(reactions@.len() as int)) == full_pt);
            assert forall|k2: int| 0 <= k2 < full_pt.len() implies {
                let e = self.pending_responses@[p0.len() + k2];
                &&& e.target == #[trigger] full_pt[k2]
                &&& e.deadline == deadline_after(now, old(self).config.ping_timeout)
                &&& e.digest@ == old(self).state_changes@.take(e.digest@.len() as int)
            } by {
                assert(full_pt[k2] == ping_targets(reactions@.take(reactions@.len() as int))[k2]);
            }
        }
        Ok(())
    }

    /// Handles one decoded inbound datagram: a mismatched cluster key drops
    /// it with no effect at all; otherwise the record takes effect exactly
    /// as `respond_transition` states: digest merge, seed removal, sender
    /// absorption, and the reply demanded by the dispatch table.
    #[verifier::rlimit(100)]
    pub fn respond_to_message(
        &mut self,
        src_addr: NodeAddr,
        message: &ArtilleryMessage,
        now: u64,
        datagrams: &mut Vec<Outbound>,
        events: &mut Vec<ArtilleryClusterEvent>,
    ) -> (r: Result<(), ArtilleryError>)
        requires
            old(self).wf(),
        ensures
            final (self).wf(),
            old(self).same_identity(final (self)),
            r is Ok ==> forall|i: int|
                0 <= i < old(datagrams)@.len() ==> final (datagrams)@[i] == old(datagrams)@[i],
            r is Ok ==> forall|i: int|
                old(datagrams)@.len() <= i < final (datagrams)@.len() ==> sent_ok(
                    final (datagrams)@[i],
                    old(self).host_key,
                    old(self).config,
                ),
            message.cluster_key@ != old(self).config.cluster_key@ ==> {
                &&& *final (self) == *old(self)
                &&& *final (datagrams) == *old(datagrams)
                &&& *final (events) == *old(events)
                &&& r is Ok
            },
            (message.cluster_key@ == old(self).config.cluster_key@ && r is Ok)
                ==> respond_transition(
                old(self)@,
                old(self).host_key,
                old(self).config,
                src_addr,
                message@,
                now,
                final (self)@,
                events_view(final (events)@).skip(old(events)@.len() as int),
                dgrams_view(final (datagrams)@).skip(old(datagrams)@.len() as int),
            ),
            r matches Err(e) ==> e == ArtilleryError::Precondition && some_request_oversized(
                old(self).host_key,
                old(self).config,
            ),
    {
        if !bytes_eq(&message.cluster_key, &self.config.cluster_key) {
            return Ok(());
        }
        let ghost ev_base = events@;
        let ghost dg_base = datagrams@;
        let ghost frg = apply_fold(
            old(self).members.members@,
            message.state_changes@,
            src_addr,
            now,
        );
        self.apply_state_changes(&message.state_changes, src_addr, now, events);
        remove_potential_seed(&mut self.seed_queue, src_addr);
        let ghost s1 = *self;
        self.ensure_node_is_member(src_addr, message.sender, now, events);
        let ghost s2 = *self;
        let ghost known = member_addr_known(frg.0, src_addr) || has_key(frg.0, message.sender);
        let ghost nm = new_member_of(message.sender, src_addr, now);
        let ghost avail1 = available_of(frg.0);
        let ghost ev2v = events_of(frg.1, avail1, true) + events_of(frg.2, avail1, false) + (
        if known {
            Seq::<(Seq<ArtilleryMember>, ArtilleryMemberEvent)>::empty()
        } else {
            seq![(available_of(s2.members.members@), ArtilleryMemberEvent::MemberJoined(nm))]
        });
        proof {
            assert(events_view(events@) =~= events_view(ev_base) + ev2v);
        }
        let mut reactions: Vec<TargetedRequest> = Vec::new();
        match &message.request {
            Request::Ping => {
                reactions.push(TargetedRequest { request: Request::Ack, target: src_addr });
                proof {
                    assert(reactions@ =~= seq![
                        TargetedRequest { request: Request::Ack, target: src_addr },
                    ]);
                }
            },
            Request::Ack => {
                self.ack_response(src_addr);
                self.mark_node_alive(src_addr, now, events, &mut reactions);
            },
            Request::PingRequest(dest) => {
                let d = *dest;
                proof {
                    lemma_wait_add_wf(waits_view(self.wait_list@), d, src_addr);
                }
                add_to_wait_list(&mut self.wait_list, d, src_addr);
                reactions.push(TargetedRequest { request: Request::Ping, target: d });
                proof {
                    assert(reactions@ =~= seq![
                        TargetedRequest { request: Request::Ping, target: d },
                    ]);
                }
            },
            Request::AckHost(member) => {
                match member.remote_host {
                    Some(a) => {
                        self.ack_response(a);
                        self.mark_node_alive(a, now, events, &mut reactions);
                    },
                    None => {},
                }
            },
        }
        let ghost s3 = *self;
        let ghost ev3 = events@;
        let res = self.emit_requests(&reactions, now, datagrams);
        if let Err(e) = res {
            return Err(e);
        }
        proof {
            assert forall|i: int| old(datagrams)@.len() <= i < datagrams@.len() implies sent_ok(
                datagrams@[i],
                old(self).host_key,
                old(self).config,
            ) by {
                let t = i - old(datagrams)@.len();
                assert(0 <= t < reactions@.len());
                let rq = reactions@[t];
                assert(datagrams@[old(datagrams)@.len() + t].target == rq.target);
            }
            let pre_v = old(self)@;
            let post_v = (*self)@;
            let hk = old(self).host_key;
            let cfg = old(self).config;
            let ev_delta = events_view(events@).skip(ev_base.len() as int);
            let dg_delta = dgrams_view(datagrams@).skip(dg_base.len() as int);
            assert(events_view(ev_base).len() == ev_base.len());
            assert(dgrams_view(dg_base).len() == dg_base.len());
            assert(datagrams@.len() == dg_base.len() + reactions@.len());
            assert forall|t: int| 0 <= t < reactions@.len() implies #[trigger] dg_delta[t] == (
                datagrams@[dg_base.len() + t].target,
                datagrams@[dg_base.len() + t].payload@,
            ) by {
                assert(dgrams_view(datagrams@)[dg_base.len() + t] == dgram_view(
                    datagrams@[dg_base.len() + t],
                ));
            }
            assert(dg_delta.len() == reactions@.len());
            let m1 = frg.0;
            let d1 = upsert_changes(
                upsert_changes(upsert_changes(pre_v.digest, frg.1), frg.2),
                opt_seq(frg.3),
            );
            let m2 = if known {
                m1
            } else {
                m1.push(nm)
            };
            let d2 = if known {
                d1
            } else {
                upsert_change(d1, nm)
            };
            assert(pre_v.members == old(self).members.members@);
            assert(s1.members.members@ == m1);
            assert(s1.state_changes@ == d1);
            assert(s2.members.members@ == m2);
            assert(s2.state_changes@ == d2);
            assert(s2.seed_queue@ == seeds_without(pre_v.seeds, src_addr));
            assert(post_v.seeds == seeds_without(pre_v.seeds, src_addr));
            assert(waits_view(s2.wait_list@) == pre_v.waits);
            match message.request {
                Request::Ping => {
                    let rs = seq![TargetedRequest { request: Request::Ack, target: src_addr }];
                    assert(reactions@ == rs);
                    assert(rs.drop_last() =~= Seq::<TargetedRequest>::empty());
                    assert(ping_targets(Seq::<TargetedRequest>::empty()).len() == 0);
                    assert(!(rs.last().request is Ping));
                    assert(ping_targets(rs).len() == 0);
                    assert(post_v.members == m2);
                    assert(post_v.digest == d2);
                    assert(self.pending_responses@ =~= s2.pending_responses@);
                    assert(post_v.pending == pre_v.pending);
                    assert(post_v.waits == pre_v.waits);
                    assert(events_view(events@) =~= events_view(ev_base) + ev2v);
                    assert(ev_delta =~= ev2v);
                    assert(dg_delta.len() == 1);
                    assert(dg_delta[0].0 == src_addr);
                    assert(reactions@[0].request == Request::Ack);
                    assert(s3.state_changes@ == d2);
                    assert(payload_of_request(dg_delta[0].1, hk, cfg, Request::Ack, d2));
                    assert(dg_delta[0].1.len() < cfg.network_mtu);
                },
                Request::Ack => {
                    let p1 = pending_without(pre_v.pending, src_addr);
                    let d3 = digest_unacked(d2, pre_v.pending, src_addr);
                    let fs = first_suspect_at(m2, src_addr);
                    if fs >= 0 {
                        let promoted = alive_of(m2[fs], now);
                        let m3 = m2.update(fs, promoted);
                        let d4 = upsert_change(d3, promoted);
                        let wv = pre_v.waits;
                        let g = first_wait_group(wv, src_addr);
                        let fmap = |r2: NodeAddr|
                            (TargetedRequest { request: Request::AckHost(promoted), target: r2 });
                        let relays: Seq<NodeAddr> = if g < 0 {
                            Seq::<NodeAddr>::empty()
                        } else {
                            wv[g].1
                        };
                        assert(post_v.members == m3);
                        assert(post_v.digest == d4);
                        assert(post_v.waits == wait_view_after_drain(wv, src_addr));
                        assert(reactions@ =~= relays.map_values(fmap));
                        assert forall|t: int| 0 <= t < reactions@.len() implies !(
                        #[trigger] reactions@[t].request is Ping) by {
                            assert(reactions@[t] == fmap(relays[t]));
                        }
                        lemma_ping_targets_none(reactions@);
                        assert(self.pending_responses@ =~= s3.pending_responses@);
                        assert(post_v.pending == p1);
                        assert(events_view(ev3) =~= events_view(ev_base) + (ev2v + seq![
                            (available_of(m3), ArtilleryMemberEvent::MemberWentUp(promoted)),
                        ]));
                        assert(ev_delta =~= ev2v + seq![
                            (available_of(m3), ArtilleryMemberEvent::MemberWentUp(promoted)),
                        ]);
                        assert(dg_delta.len() == relays.len());
                        assert(s3.state_changes@ == d4);
                        assert forall|t: int| 0 <= t < relays.len() implies (
                        #[trigger] dg_delta[t]).0 == relays[t] && dg_delta[t].1.len()
                            < cfg.network_mtu && payload_of_request(
                            dg_delta[t].1,
                            hk,
                            cfg,
                            Request::AckHost(promoted),
                            d4,
                        ) by {
                            assert(reactions@[t] == fmap(relays[t]));
                            assert(dg_delta[t] == (
                                datagrams@[dg_base.len() + t].target,
                                datagrams@[dg_base.len() + t].payload@,
                            ));
                        }
                    } else {
                        assert(reactions@ =~= Seq::<TargetedRequest>::empty());
                        assert(ping_targets(Seq::<TargetedRequest>::empty()).len() == 0);
                        assert(self.pending_responses@ =~= s3.pending_responses@);
                        assert(post_v.pending == p1);
                        assert(post_v.members == m2);
                        assert(post_v.digest == d3);
                        assert(post_v.waits == pre_v.waits);
                        assert(ev_delta =~= ev2v);
                        assert(dg_delta.len() == 0);
                    }
                },
                Request::PingRequest(dest) => {
                    let rs = seq![TargetedRequest { request: Request::Ping, target: dest }];
                    assert(reactions@ == rs);
                    assert(rs.drop_last() =~= Seq::<TargetedRequest>::empty());
                    assert(ping_targets(Seq::<TargetedRequest>::empty()).len() == 0);
                    assert(rs.last().request is Ping);
                    assert(ping_targets(rs) =~= seq![dest]);
                    assert(post_v.members == m2);
                    assert(post_v.digest == d2);
                    assert(post_v.waits == wait_view_after_add(pre_v.waits, dest, src_addr));
                    assert(ev_delta =~= ev2v);
                    assert(dg_delta.len() == 1);
                    assert(dg_delta[0].0 == dest);
                    assert(reactions@[0].request == Request::Ping);
                    assert(s3.state_changes@ == d2);
                    assert(payload_of_request(dg_delta[0].1, hk, cfg, Request::Ping, d2));
                    assert(dg_delta[0].1.len() < cfg.network_mtu);
                    assert(post_v.pending.len() == pre_v.pending.len() + 1);
                    assert(ping_targets(rs)[0] == dest);
                    assert(post_v.pending.last() == self.pending_responses@[(
                    self.pending_responses@.len() - 1) as int]);
                    assert(post_v.pending.last().target == dest);
                    assert(post_v.pending.last().deadline == deadline_after(now, cfg.ping_timeout));
                    assert(post_v.pending.last().digest@ == d2.take(
                        post_v.pending.last().digest@.len() as int,
                    ));
                },
                Request::AckHost(member) => {
                    match member.remote_host {
                        Some(a) => {
                            let p1 = pending_without(pre_v.pending, a);
                            let d3 = digest_unacked(d2, pre_v.pending, a);
                            let fs = first_suspect_at(m2, a);
                            if fs >= 0 {
                                let promoted = alive_of(m2[fs], now);
                                let m3 = m2.update(fs, promoted);
                                let d4 = upsert_change(d3, promoted);
                                let wv = pre_v.waits;
                                let g = first_wait_group(wv, a);
                                let fmap = |r2: NodeAddr|
                                    (TargetedRequest {
                                        request: Request::AckHost(promoted),
                                        target: r2,
                                    });
                                let relays: Seq<NodeAddr> = if g < 0 {
                                    Seq::<NodeAddr>::empty()
                                } else {
                                    wv[g].1
                                };
                                assert(post_v.members == m3);
                                assert(post_v.digest == d4);
                                assert(post_v.waits == wait_view_after_drain(wv, a));
                                assert(reactions@ =~= relays.map_values(fmap));
                                assert forall|t: int| 0 <= t < reactions@.len() implies !(
                                #[trigger] reactions@[t].request is Ping) by {
                                    assert(reactions@[t] == fmap(relays[t]));
                                }
                                lemma_ping_targets_none(reactions@);
                                assert(self.pending_responses@ =~= s3.pending_responses@);
                                assert(post_v.pending == p1);
                                assert(events_view(ev3) =~= events_view(ev_base) + (ev2v + seq![
                                    (
                                        available_of(m3),
                                        ArtilleryMemberEvent::MemberWentUp(promoted),
                                    ),
                                ]));
                                assert(ev_delta =~= ev2v + seq![
                                    (
                                        available_of(m3),
                                        ArtilleryMemberEvent::MemberWentUp(promoted),
                                    ),
                                ]);
                                assert(dg_delta.len() == relays.len());
                                assert(s3.state_changes@ == d4);
                                assert forall|t: int| 0 <= t < relays.len() implies (
                                #[trigger] dg_delta[t]).0 == relays[t] && dg_delta[t].1.len()
                                    < cfg.network_mtu && payload_of_request(
                                    dg_delta[t].1,
                                    hk,
                                    cfg,
                                    Request::AckHost(promoted),
                                    d4,
                                ) by {
                                    assert(reactions@[t] == fmap(relays[t]));
                                    assert(dg_delta[t] == (
                                        datagrams@[dg_base.len() + t].target,
                                        datagrams@[dg_base.len() + t].payload@,
                                    ));
                                }
                            } else {
                                assert(reactions@ =~= Seq::<TargetedRequest>::empty());
                                assert(ping_targets(Seq::<TargetedRequest>::empty()).len() == 0);
                                assert(self.pending_responses@ =~= s3.pending_responses@);
                                assert(post_v.pending == p1);
                                assert(post_v.members == m2);
                                assert(post_v.digest == d3);
                                assert(post_v.waits == pre_v.waits);
                                assert(ev_delta =~= ev2v);
                                assert(dg_delta.len() == 0);
                            }
                        },
                        None => {
                            assert(reactions@ =~= Seq::<TargetedRequest>::empty());
                            assert(ping_targets(Seq::<TargetedRequest>::empty()).len() == 0);
                            assert(post_v.members == m2);
                            assert(post_v.digest == d2);
                            assert(self.pending_responses@ =~= s2.pending_responses@);
                            assert(post_v.pending == pre_v.pending);
                            assert(post_v.waits == pre_v.waits);
                            assert(ev_delta =~= ev2v);
                            assert(dg_delta.len() == 0);
                        },
                    }
                },
            }
            assert(respond_transition(
                pre_v,
                hk,
                cfg,
                src_addr,
                message@,
                now,
                post_v,
                ev_delta,
                dg_delta,
            ));
        }
        Ok(())
    }

    /// Handles one command from the queue: AddSeed appends the address,
    /// Respond takes effect as `respond_transition` states, React sweeps
    /// the timeouts and then emits the request plus the sweep's indirect
    /// probes, LeaveCluster departs and enqueues the Left change, and Exit
    /// stops the reactor.  Only an emission can fail, and only when some
    /// empty-digest record is oversized.
    #[verifier::rlimit(100)]
    #[verifier::spinoff_prover]
    pub fn process_internal_request(
        &mut self,
        message: &ArtilleryClusterRequest,
        now: u64,
        rand: u64,
    ) -> (r: Result<ReactorOutput, ArtilleryError>)
        requires
            old(self).wf(),
        ensures
            final (self).wf(),
            old(self).same_identity(final (self)),
            (message is AddSeed || message is LeaveCluster || message is Exit) ==> r is Ok,
            match r {
                Ok(out) => {
                    &&& forall|i: int|
                        0 <= i < out.datagrams@.len() ==> sent_ok(
                            out.datagrams@[i],
                            old(self).host_key,
                            old(self).config,
                        )
                    &&& (out.exit <==> message is Exit)
                    &&& (message matches ArtilleryClusterRequest::AddSeed(a) ==> {
                        &&& final (self).seed_queue@ == old(self).seed_queue@.push(*a)
                        &&& final (self).members == old(self).members
                        &&& final (self).state_changes == old(self).state_changes
                        &&& final (self).pending_responses == old(self).pending_responses
                        &&& final (self).wait_list == old(self).wait_list
                        &&& out.datagrams@.len() == 0
                        &&& out.events@.len() == 0
                    })
                    &&& (message is LeaveCluster ==> {
                        &&& final (self).members.members@ == old(self).members.members@.update(
                            0,
                            left_of(old(self).members.members@[0], now),
                        )
                        &&& final (self).state_changes@ == upsert_change(
                            old(self).state_changes@,
                            left_of(old(self).members.members@[0], now),
                        )
                        &&& final (self).seed_queue == old(self).seed_queue
                        &&& final (self).pending_responses == old(self).pending_responses
                        &&& final (self).wait_list == old(self).wait_list
                        &&& out.datagrams@.len() == 0
                        &&& out.events@.len() == 0
                    })
                    &&& (message is Exit ==> {
                        &&& *final (self) == *old(self)
                        &&& out.datagrams@.len() == 0
                        &&& out.events@.len() == 0
                    })
                    &&& (message matches ArtilleryClusterRequest::Respond(src, m) ==> {
                        &&& (m.cluster_key@ != old(self).config.cluster_key@ ==> {
                            &&& *final (self) == *old(self)
                            &&& out.datagrams@.len() == 0
                            &&& out.events@.len() == 0
                        })
                        &&& (m.cluster_key@ == old(self).config.cluster_key@
                            ==> respond_transition(
                            old(self)@,
                            old(self).host_key,
                            old(self).config,
                            *src,
                            m@,
                            now,
                            final (self)@,
                            events_view(out.events@),
                            dgrams_view(out.datagrams@),
                        ))
                    })
                    &&& (message matches ArtilleryClusterRequest::React(req) ==> {
                        let exp = expired_addrs(old(self).pending_responses@, now);
                        let suspects = timeout_suspects(old(self).members.members@, exp, now);
                        let downs = timeout_downs(old(self).members.members@, exp, now);
                        let d1 = upsert_changes(
                            upsert_changes(old(self).state_changes@, downs),
                            suspects,
                        );
                        let probes = sweep_probes(
                            suspects,
                            final (self).members.members@,
                            old(self).config.ping_request_host_count as int,
                            rand,
                        );
                        let avail = available_of(final (self).members.members@);
                        let retained = pending_unexpired(old(self).pending_responses@, now);
                        &&& final (self).members.members@.len() == old(self).members.members@.len()
                        &&& (forall|i: int|
                            0 <= i < old(self).members.members@.len()
                                ==> final (self).members.members@[i] == timeout_one(
                                old(self).members.members@[i],
                                exp,
                                now,
                            ))
                        &&& final (self).state_changes@ == d1
                        &&& final (self).seed_queue == old(self).seed_queue
                        &&& final (self).wait_list == old(self).wait_list
                        &&& events_view(out.events@) == events_of(suspects, avail, false)
                            + events_of(downs, avail, false)
                        &&& out.datagrams@.len() == 1 + probes.len()
                        &&& out.datagrams@[0].target == req.target
                        &&& payload_of_request(
                            out.datagrams@[0].payload@,
                            old(self).host_key,
                            old(self).config,
                            req.request,
                            d1,
                        )
                        &&& (forall|t: int|
                            0 <= t < probes.len() ==> (#[trigger] probes[t]).target
                                == out.datagrams@[1 + t].target && payload_of_request(
                                out.datagrams@[1 + t].payload@,
                                old(self).host_key,
                                old(self).config,
                                probes[t].request,
                                d1,
                            ))
                        &&& (req.request is Ping ==> {
                            &&& final (self).pending_responses@.len() == retained.len() + 1
                            &&& (forall|x: int|
                                0 <= x < retained.len() ==> final (self).pending_responses@[x]
                                    == retained[x])
                            &&& final (self).pending_responses@.last().target == req.target
                            &&& final (self).pending_responses@.last().deadline == deadline_after(
                                now,
                                old(self).config.ping_timeout,
                            )
                            &&& final (self).pending_responses@.last().digest@ == d1.take(
                                final (self).pending_responses@.last().digest@.len() as int,
                            )
                        })
                        &&& (!(req.request is Ping) ==> final (self).pending_responses@
                            == retained)
                    })
                },
                Err(e) => e == ArtilleryError::Precondition && some_request_oversized(
                    old(self).host_key,
                    old(self).config,
                ),
            },
    {
        let mut datagrams: Vec<Outbound> = Vec::new();
        let mut events: Vec<ArtilleryClusterEvent> = Vec::new();
        let mut exit = false;
        match message {
            ArtilleryClusterRequest::AddSeed(addr) => {
                self.seed_queue.push(*addr);
            },
            ArtilleryClusterRequest::Respond(src_addr, msg) => {
                let res = self.respond_to_message(*src_addr, msg, now, &mut datagrams, &mut events);
                if let Err(e) = res {
                    return Err(e);
                }
                proof {
                    if msg.cluster_key@ == old(self).config.cluster_key@ {
                        assert(events_view(events@).skip(0) =~= events_view(events@));
                        assert(dgrams_view(datagrams@).skip(0) =~= dgrams_view(datagrams@));
                    }
                    assert forall|i: int| 0 <= i < datagrams@.len() implies sent_ok(
                        datagrams@[i],
                        old(self).host_key,
                        old(self).config,
                    ) by {}
                }
            },
            ArtilleryClusterRequest::React(request) => {
                let mut reactions: Vec<TargetedRequest> = Vec::new();
                self.prune_timed_out_responses(now, rand, &mut events, &mut reactions);
                let ghost sp = *self;
                let res1 = self.process_request(*request, now, &mut datagrams);
                if let Err(e) = res1 {
                    return Err(e);
                }
                let ghost sq = *self;
                let res2 = self.emit_requests(&reactions, now, &mut datagrams);
                if let Err(e) = res2 {
                    return Err(e);
                }
                proof {
                    let exp = expired_addrs(old(self).pending_responses@, now);
                    let suspects = timeout_suspects(old(self).members.members@, exp, now);
                    let downs = timeout_downs(old(self).members.members@, exp, now);
                    let d1 = upsert_changes(
                        upsert_changes(old(self).state_changes@, downs),
                        suspects,
                    );
                    let kk = old(self).config.ping_request_host_count as int;
                    let probes = sweep_probes(suspects, self.members.members@, kk, rand);
                    let retained = pending_unexpired(old(self).pending_responses@, now);
                    assert(events_view(Seq::<(Vec<ArtilleryMember>, ArtilleryMemberEvent)>::empty())
                        =~= Seq::<(Seq<ArtilleryMember>, ArtilleryMemberEvent)>::empty());
                    assert(sp.members.members@ == self.members.members@);
                    assert(reactions@ =~= probes);
                    assert(sp.state_changes@ == d1);
                    assert(sq.state_changes@ == d1);
                    assert(datagrams@[0].target == request.target);
                    assert forall|t: int| 0 <= t < probes.len() implies (#[trigger] probes[t]).target
                        == datagrams@[1 + t].target && payload_of_request(
                        datagrams@[1 + t].payload@,
                        old(self).host_key,
                        old(self).config,
                        probes[t].request,
                        d1,
                    ) by {
                        assert(reactions@[t] == probes[t]);
                        assert(datagrams@[1 + t].target == reactions@[t].target);
                    }
                    lemma_sweep_probes_shape(suspects, self.members.members@, kk, rand);
                    assert forall|t: int| 0 <= t < reactions@.len() implies !(
                    #[trigger] reactions@[t].request is Ping) by {
                        assert(reactions@[t] == probes[t]);
                        assert(probes[t].request is PingRequest);
                    }
                    lemma_ping_targets_none(reactions@);
                    assert(self.pending_responses@ =~= sq.pending_responses@);
                    if request.request is Ping {
                        assert(self.pending_responses@.len() == retained.len() + 1);
                        assert forall|x: int| 0 <= x < retained.len() implies
                            self.pending_responses@[x] == retained[x] by {
                            assert(sq.pending_responses@[x] == sp.pending_responses@[x]);
                        }
                        assert(self.pending_responses@.last() == sq.pending_responses@.last());
                    } else {
                        assert(self.pending_responses@ =~= retained);
                    }
                    assert forall|i: int| 0 <= i < datagrams@.len() implies sent_ok(
                        datagrams@[i],
                        old(self).host_key,
                        old(self).config,
                    ) by {
                        if i >= 1 {
                            let t = i - 1;
                            assert(reactions@[t] == probes[t]);
                            assert(datagrams@[1 + t].target == reactions@[t].target);
                        }
                    }
                }
            },
            ArtilleryClusterRequest::LeaveCluster => {
                let myself = self.members.leave(now);
                let mut mv: Vec<ArtilleryMember> = Vec::new();
                mv.push(myself);
                proof {
                    assert(mv@ =~= seq![myself]);
                    lemma_upsert_singleton(old(self).state_changes@, myself);
                }
                enqueue_state_change(&mut self.state_changes, &mv);
            },
            ArtilleryClusterRequest::Exit => {
                exit = true;
            },
        }
        Ok(ReactorOutput { datagrams, events, exit })
    }

    /// One elapsed `ping_interval`: sweep the timeouts, then probe every
    /// unconfirmed seed in queue order, probe the randomly drawn Alive or
    /// Suspect peer if one exists, and emit the indirect probes the sweep
    /// demanded -- exactly one datagram per request, each carrying the
    /// largest under-MTU prefix of the swept digest.
    #[verifier::rlimit(100)]
    #[verifier::spinoff_prover]
    pub fn timer_tick(&mut self, now: u64, rand: u64) -> (r: Result<
        ReactorOutput,
        ArtilleryError,
    >)
        requires
            old(self).wf(),
        ensures
            final (self).wf(),
            old(self).same_identity(final (self)),
            final (self).seed_queue == old(self).seed_queue,
            final (self).wait_list == old(self).wait_list,
            match r {
                Ok(out) => {
                    &&& forall|i: int|
                        0 <= i < out.datagrams@.len() ==> sent_ok(
                            out.datagrams@[i],
                            old(self).host_key,
                            old(self).config,
                        )
                    &&& !out.exit
                    &&& ({
                        let exp = expired_addrs(old(self).pending_responses@, now);
                        let suspects = timeout_suspects(old(self).members.members@, exp, now);
                        let downs = timeout_downs(old(self).members.members@, exp, now);
                        let d1 = upsert_changes(
                            upsert_changes(old(self).state_changes@, downs),
                            suspects,
                        );
                        let probes = sweep_probes(
                            suspects,
                            final (self).members.members@,
                            old(self).config.ping_request_host_count as int,
                            rand,
                        );
                        let avail = available_of(final (self).members.members@);
                        let retained = pending_unexpired(old(self).pending_responses@, now);
                        let cands = ping_candidates(final (self).members.members@.skip(1));
                        let pick: Option<NodeAddr> = if cands.len() == 0 {
                            None
                        } else {
                            cands[rand as int % cands.len() as int].remote_host
                        };
                        let seedn = old(self).seed_queue@.len() as int;
                        let optn: int = if pick is Some {
                            1
                        } else {
                            0
                        };
                        &&& final (self).members.members@.len() == old(self).members.members@.len()
                        &&& (forall|i: int|
                            0 <= i < old(self).members.members@.len()
                                ==> final (self).members.members@[i] == timeout_one(
                                old(self).members.members@[i],
                                exp,
                                now,
                            ))
                        &&& final (self).state_changes@ == d1
                        &&& events_view(out.events@) == events_of(suspects, avail, false)
                            + events_of(downs, avail, false)
                        &&& out.datagrams@.len() == seedn + optn + probes.len()
                        &&& (forall|sx: int|
                            0 <= sx < seedn ==> (#[trigger] out.datagrams@[sx]).target == old(
                                self,
                            ).seed_queue@[sx] && payload_of_request(
                                out.datagrams@[sx].payload@,
                                old(self).host_key,
                                old(self).config,
                                Request::Ping,
                                d1,
                            ))
                        &&& (pick matches Some(ad) ==> out.datagrams@[seedn].target == ad
                            && payload_of_request(
                            out.datagrams@[seedn].payload@,
                            old(self).host_key,
                            old(self).config,
                            Request::Ping,
                            d1,
                        ))
                        &&& (forall|t: int|
                            0 <= t < probes.len() ==> (#[trigger] probes[t]).target
                                == out.datagrams@[seedn + optn + t].target && payload_of_request(
                                out.datagrams@[seedn + optn + t].payload@,
                                old(self).host_key,
                                old(self).config,
                                probes[t].request,
                                d1,
                            ))
                        &&& final (self).pending_responses@.len() == retained.len() + seedn + optn
                        &&& (forall|x: int|
                            0 <= x < retained.len() ==> final (self).pending_responses@[x]
                                == retained[x])
                        &&& (forall|sx: int|
                            0 <= sx < seedn ==> {
                                let e = final (self).pending_responses@[retained.len() + sx];
                                &&& e.target == #[trigger] old(self).seed_queue@[sx]
                                &&& e.deadline == deadline_after(
                                    now,
                                    old(self).config.ping_timeout,
                                )
                                &&& e.digest@ == d1.take(e.digest@.len() as int)
                            })
                        &&& (pick matches Some(ad) ==> {
                            let e = final (self).pending_responses@.last();
                            &&& e.target == ad
                            &&& e.deadline == deadline_after(now, old(self).config.ping_timeout)
                            &&& e.digest@ == d1.take(e.digest@.len() as int)
                        })
                    })
                },
                Err(e) => e == ArtilleryError::Precondition && some_request_oversized(
                    old(self).host_key,
                    old(self).config,
                ),
            },
    {
        let mut datagrams: Vec<Outbound> = Vec::new();
        let mut events: Vec<ArtilleryClusterEvent> = Vec::new();
        let mut reactions: Vec<TargetedRequest> = Vec::new();
        self.prune_timed_out_responses(now, rand, &mut events, &mut reactions);
        let ghost sp = *self;
        let ghost fping = |a: NodeAddr| (TargetedRequest { request: Request::Ping, target: a });
        let mut requests: Vec<TargetedRequest> = Vec::new();
        let mut i: usize = 0;
        proof {
            assert(self.seed_queue@.take(0) =~= Seq::<NodeAddr>::empty());
            assert(requests@ =~= self.seed_queue@.take(0).map_values(fping));
        }
        while i < self.seed_queue.len()
            invariant
                i <= self.seed_queue@.len(),
                *self == sp,
                fping == (|a: NodeAddr| (TargetedRequest { request: Request::Ping, target: a })),
                requests@ == self.seed_queue@.take(i as int).map_values(fping),
            decreases self.seed_queue@.len() - i,
        {
            let seed = self.seed_queue[i];
            requests.push(TargetedRequest { request: Request::Ping, target: seed });
            proof {
                assert(self.seed_queue@.take(i + 1) =~= self.seed_queue@.take(i as int).push(
                    self.seed_queue@[i as int],
                ));
                assert(self.seed_queue@.take(i + 1).map_values(fping) =~= self.seed_queue@.take(
                    i as int,
                ).map_values(fping).push(fping(self.seed_queue@[i as int])));
                assert(requests@ =~= self.seed_queue@.take(i + 1).map_values(fping));
            }
            i += 1;
        }
        proof {
            assert(self.seed_queue@.take(self.seed_queue@.len() as int) =~= self.seed_queue@);
        }
        let ghost seed_part = self.seed_queue@.map_values(fping);
        let ghost cands = ping_candidates(self.members.members@.skip(1));
        let ghost pick: Option<NodeAddr> = if cands.len() == 0 {
            None
        } else {
            cands[rand as int % cands.len() as int].remote_host
        };
        match self.members.next_random_member(rand) {
            Some(member) => {
                match member.remote_host {
                    Some(addr) => {
                        requests.push(TargetedRequest { request: Request::Ping, target: addr });
                        proof {
                            assert(pick == Some(addr));
                            assert(requests@ =~= seed_part + seq![
                                TargetedRequest { request: Request::Ping, target: addr },
                            ]);
                        }
                    },
                    None => {
                        proof {
                            assert(pick is None);
                            assert(requests@ =~= seed_part + Seq::<TargetedRequest>::empty());
                        }
                    },
                }
            },
            None => {
                proof {
                    assert(pick is None);
                    assert(requests@ =~= seed_part + Seq::<TargetedRequest>::empty());
                }
            },
        }
        let ghost opt_part: Seq<TargetedRequest> = match pick {
            Some(ad) => seq![TargetedRequest { request: Request::Ping, target: ad }],
            None => Seq::<TargetedRequest>::empty(),
        };
        let ghost base = requests@;
        proof {
            assert(base == seed_part + opt_part);
        }
        let mut t: usize = 0;
        proof {
            assert(reactions@.take(0) =~= Seq::<TargetedRequest>::empty());
            assert(requests@ =~= base + reactions@.take(0));
        }
        while t < reactions.len()
            invariant
                t <= reactions@.len(),
                *self == sp,
                requests@ == base + reactions@.take(t as int),
            decreases reactions@.len() - t,
        {
            let req = reactions[t];
            requests.push(req);
            proof {
                assert(reactions@.take(t + 1) =~= reactions@.take(t as int).push(
                    reactions@[t as int],
                ));
                assert(requests@ =~= base + reactions@.take(t + 1));
            }
            t += 1;
        }
        proof {
            assert(reactions@.take(reactions@.len() as int) =~= reactions@);
        }
        let res = self.emit_requests(&requests, now, &mut datagrams);
        if let Err(e) = res {
            return Err(e);
        }
        proof {
            let exp = expired_addrs(old(self).pending_responses@, now);
            let suspects = timeout_suspects(old(self).members.members@, exp, now);
            let downs = timeout_downs(old(self).members.members@, exp, now);
            let kk = old(self).config.ping_request_host_count as int;
            let probes = sweep_probes(suspects, self.members.members@, kk, rand);
            let d1 = upsert_changes(upsert_changes(old(self).state_changes@, downs), suspects);
            let retained = pending_unexpired(old(self).pending_responses@, now);
            let seedn = old(self).seed_queue@.len() as int;
            let optn: int = if pick is Some {
                1
            } else {
                0
            };
            let hk = old(self).host_key;
            let cfg = old(self).config;
            assert(sp.members.members@ == self.members.members@);
            assert(reactions@ =~= probes);
            assert(requests@ =~= seed_part + opt_part + probes);
            assert(sp.state_changes@ == d1);
            assert(self.state_changes@ == d1);
            assert(events_view(Seq::<(Vec<ArtilleryMember>, ArtilleryMemberEvent)>::empty())
                =~= Seq::<(Seq<ArtilleryMember>, ArtilleryMemberEvent)>::empty());
            assert(seed_part.len() == seedn && opt_part.len() == optn);
            assert(requests@.len() == seedn + optn + probes.len());
            assert forall|x: int| 0 <= x < datagrams@.len() implies sent_ok(
                datagrams@[x],
                hk,
                cfg,
            ) by {
                assert(requests@[x].target == requests@[x].target);
                assert(datagrams@[0 + x].target == requests@[x].target);
            }
            assert forall|sx: int| 0 <= sx < seedn implies (#[trigger] datagrams@[sx]).target
                == old(self).seed_queue@[sx] && payload_of_request(
                datagrams@[sx].payload@,
                hk,
                cfg,
                Request::Ping,
                d1,
            ) by {
                assert(seed_part[sx] == fping(old(self).seed_queue@[sx]));
                assert(requests@[sx] == seed_part[sx]);
                assert(datagrams@[0 + sx].target == requests@[sx].target);
            }
            if pick is Some {
                let ad = pick->0;
                assert(opt_part[0] == (TargetedRequest { request: Request::Ping, target: ad }));
                assert(requests@[seedn] == opt_part[0]);
                assert(datagrams@[0 + seedn].target == requests@[seedn].target);
            }
            assert forall|t: int| 0 <= t < probes.len() implies (#[trigger] probes[t]).target
                == datagrams@[seedn + optn + t].target && payload_of_request(
                datagrams@[seedn + optn + t].payload@,
                hk,
                cfg,
                probes[t].request,
                d1,
            ) by {
                assert(requests@[seedn + optn + t] == probes[t]);
                assert(datagrams@[0 + (seedn + optn + t)].target == requests@[seedn + optn
                    + t].target);
            }
            // the direct Pings among the requests: every seed, then the pick
            assert forall|sx: int| 0 <= sx < seedn implies (#[trigger] seed_part[sx].request)
                is Ping by {
                assert(seed_part[sx] == fping(old(self).seed_queue@[sx]));
            }
            lemma_ping_targets_all(seed_part);
            lemma_sweep_probes_shape(suspects, self.members.members@, kk, rand);
            assert forall|t: int| 0 <= t < probes.len() implies !(#[trigger] probes[t].request
                is Ping) by {
                assert(probes[t].request is PingRequest);
            }
            lemma_ping_targets_none(probes);
            lemma_ping_targets_concat(seed_part, opt_part);
            lemma_ping_targets_concat(seed_part + opt_part, probes);
            assert(requests@ == (seed_part + opt_part) + probes);
            if pick is Some {
                let ad = pick->0;
                assert(opt_part.drop_last() =~= Seq::<TargetedRequest>::empty());
                assert(ping_targets(Seq::<TargetedRequest>::empty()).len() == 0);
                assert(ping_targets(opt_part) =~= seq![ad]);
            } else {
                assert(ping_targets(Seq::<TargetedRequest>::empty()).len() == 0);
            }
            assert(ping_targets(requests@).len() == seedn + optn);
            assert(self.pending_responses@.len() == retained.len() + seedn + optn);
            assert forall|x: int| 0 <= x < retained.len() implies self.pending_responses@[x]
                == retained[x] by {
                assert(sp.pending_responses@[x] == retained[x]);
            }
            assert forall|sx: int| 0 <= sx < seedn implies {
                let e = self.pending_responses@[retained.len() + sx];
                &&& e.target == #[trigger] old(self).seed_queue@[sx]
                &&& e.deadline == deadline_after(now, cfg.ping_timeout)
                &&& e.digest@ == d1.take(e.digest@.len() as int)
            } by {
                assert(ping_targets(requests@)[sx] == ping_targets(seed_part)[sx]);
                assert(ping_targets(seed_part)[sx] == seed_part[sx].target);
                assert(seed_part[sx] == fping(old(self).seed_queue@[sx]));
            }
            if pick is Some {
                let ad = pick->0;
                assert(ping_targets(requests@)[seedn] == ping_targets(opt_part)[0]);
                assert(ping_targets(opt_part)[0] == ad);
                assert(self.pending_responses@.last() == self.pending_responses@[retained.len()
                    + seedn]);
            }
        }
        Ok(ReactorOutput { datagrams, events, exit: false })
    }
}

} // verus!