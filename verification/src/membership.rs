//! The member table: an indexed collection of member records with
//! precedence-based merge, random selection, and the timeout sweep.

use vstd::prelude::*;
use crate::member::{ArtilleryMember, ArtilleryMemberState, ArtilleryStateChange, NodeAddr, state_precedence};

verus! {

// ------------------------------------------------------------------
// Spec-level model of the table and of one merge step.
// ------------------------------------------------------------------

pub open spec fn has_key(s: Seq<ArtilleryMember>, k: u128) -> bool {
    exists|i: int| 0 <= i < s.len() && s[i].host_key == k
}

pub open spec fn key_index(s: Seq<ArtilleryMember>, k: u128) -> int {
    choose|i: int| 0 <= i < s.len() && s[i].host_key == k
}

/// Table well-formedness: non-empty (the local member sits at index 0) and
/// at most one record per host key.
pub open spec fn wf_members(s: Seq<ArtilleryMember>) -> bool {
    &&& s.len() >= 1
    &&& forall|i: int, j: int|
        0 <= i < j < s.len() ==> s[i].host_key != s[j].host_key
}

/// Saturating incarnation bump.
pub open spec fn bumped(i: u64) -> u64 {
    if i < u64::MAX { (i + 1) as u64 } else { u64::MAX }
}

/// The refutation the local member asserts about itself.
pub open spec fn reincarnated_of(m: ArtilleryMember, now: u64) -> ArtilleryMember {
    ArtilleryMember {
        host_key: m.host_key,
        remote_host: m.remote_host,
        incarnation: bumped(m.incarnation),
        state: ArtilleryMemberState::Alive,
        last_state_change: now,
    }
}

/// Whether an incoming record wins against the local one: strictly higher
/// incarnation, or equal incarnation with strictly higher state precedence
/// (Left > Down > Suspect > Alive).
pub open spec fn overwrites(local: ArtilleryMember, incoming: ArtilleryMember) -> bool {
    ||| incoming.incarnation > local.incarnation
    ||| (incoming.incarnation == local.incarnation && state_precedence(incoming.state)
        > state_precedence(local.state))
}

/// The merge of an incoming record into the matching local record.
pub open spec fn merged(local: ArtilleryMember, incoming: ArtilleryMember) -> ArtilleryMember {
    if overwrites(local, incoming) {
        ArtilleryMember {
            host_key: local.host_key,
            remote_host: local.remote_host,
            incarnation: incoming.incarnation,
            state: incoming.state,
            last_state_change: incoming.last_state_change,
        }
    } else {
        local
    }
}

/// A first-seen record, with the datagram's source address substituted when
/// the record carries none.
pub open spec fn with_default_addr(m: ArtilleryMember, from: NodeAddr) -> ArtilleryMember {
    if m.remote_host is None {
        ArtilleryMember {
            host_key: m.host_key,
            remote_host: Some(from),
            incarnation: m.incarnation,
            state: m.state,
            last_state_change: m.last_state_change,
        }
    } else {
        m
    }
}

pub open spec fn is_self_key(tbl: Seq<ArtilleryMember>, c: ArtilleryMember) -> bool {
    tbl.len() >= 1 && c.host_key == tbl[0].host_key
}

/// Self-defense fires when a record asserts a non-Alive state about the
/// local member while the local member has not departed.
pub open spec fn self_defense_fires(tbl: Seq<ArtilleryMember>, c: ArtilleryMember) -> bool {
    &&& is_self_key(tbl, c)
    &&& c.state != ArtilleryMemberState::Alive
    &&& tbl[0].state == ArtilleryMemberState::Alive
}

/// One incoming record applied to the table.
pub open spec fn apply_change(
    tbl: Seq<ArtilleryMember>,
    c: ArtilleryMember,
    from: NodeAddr,
    now: u64,
) -> Seq<ArtilleryMember> {
    if is_self_key(tbl, c) {
        if self_defense_fires(tbl, c) {
            tbl.update(0, reincarnated_of(tbl[0], now))
        } else {
            tbl
        }
    } else if has_key(tbl, c.host_key) {
        tbl.update(key_index(tbl, c.host_key), merged(tbl[key_index(tbl, c.host_key)], c))
    } else {
        tbl.push(with_default_addr(c, from))
    }
}

/// A whole digest applied in order.  Yields the table, the newly seen
/// members, the changed members (each in arrival order, post-merge), and
/// the latest self refutation if self-defense fired.
pub open spec fn apply_fold(
    tbl: Seq<ArtilleryMember>,
    cs: Seq<ArtilleryStateChange>,
    from: NodeAddr,
    now: u64,
) -> (Seq<ArtilleryMember>, Seq<ArtilleryMember>, Seq<ArtilleryMember>, Option<ArtilleryMember>)
    decreases cs.len(),
{
    if cs.len() == 0 {
        (tbl, Seq::<ArtilleryMember>::empty(), Seq::<ArtilleryMember>::empty(), None::<ArtilleryMember>)
    } else {
        let c = cs[0].member;
        let tbl1 = apply_change(tbl, c, from, now);
        let new1: Seq<ArtilleryMember> = if !is_self_key(tbl, c) && !has_key(tbl, c.host_key) {
            seq![with_default_addr(c, from)]
        } else {
            Seq::<ArtilleryMember>::empty()
        };
        let chg1: Seq<ArtilleryMember> = if !is_self_key(tbl, c) && has_key(tbl, c.host_key)
            && overwrites(tbl[key_index(tbl, c.host_key)], c) {
            seq![merged(tbl[key_index(tbl, c.host_key)], c)]
        } else {
            Seq::<ArtilleryMember>::empty()
        };
        let ref1: Option<ArtilleryMember> = if self_defense_fires(tbl, c) {
            Some(reincarnated_of(tbl[0], now))
        } else {
            None
        };
        let r = apply_fold(tbl1, cs.skip(1), from, now);
        (r.0, new1 + r.1, chg1 + r.2, if r.3 is Some { r.3 } else { ref1 })
    }
}

// ------------------------------------------------------------------
// Laws of the merge.
// ------------------------------------------------------------------

/// One change applied: keys keep their positions, incarnations never
/// decrease, the local member's state is untouched, well-formedness holds.
proof fn lemma_apply_change_table(tbl: Seq<ArtilleryMember>, c: ArtilleryMember, from: NodeAddr, now: u64)
    requires
        wf_members(tbl),
    ensures
        ({
            let t2 = apply_change(tbl, c, from, now);
            &&& wf_members(t2)
            &&& t2.len() >= tbl.len()
            &&& forall|i: int| 0 <= i < tbl.len() ==> #[trigger] t2[i].host_key == tbl[i].host_key
            &&& forall|i: int|
                0 <= i < tbl.len() ==> #[trigger] t2[i].incarnation >= tbl[i].incarnation
            &&& t2[0].state == tbl[0].state
            &&& forall|k: u128| #[trigger] has_key(t2, k) <==> has_key(tbl, k) || k == c.host_key
        }),
{
    let t2 = apply_change(tbl, c, from, now);
    if is_self_key(tbl, c) {
        assert forall|k: u128| #[trigger] has_key(t2, k) implies has_key(tbl, k) || k == c.host_key by {
            let w = choose|i: int| 0 <= i < t2.len() && t2[i].host_key == k;
            assert(tbl[w].host_key == k);
        }
        assert forall|k: u128| has_key(tbl, k) || k == c.host_key implies #[trigger] has_key(t2, k) by {
            if has_key(tbl, k) {
                let w = choose|i: int| 0 <= i < tbl.len() && tbl[i].host_key == k;
                assert(t2[w].host_key == k);
            } else {
                assert(t2[0].host_key == c.host_key);
            }
        }
    } else if has_key(tbl, c.host_key) {
        let ki = key_index(tbl, c.host_key);
        assert(0 <= ki < tbl.len() && tbl[ki].host_key == c.host_key);
        assert(ki != 0);
        assert forall|k: u128| #[trigger] has_key(t2, k) implies has_key(tbl, k) || k == c.host_key by {
            let w = choose|i: int| 0 <= i < t2.len() && t2[i].host_key == k;
            assert(tbl[w].host_key == k);
        }
        assert forall|k: u128| has_key(tbl, k) || k == c.host_key implies #[trigger] has_key(t2, k) by {
            if has_key(tbl, k) {
                let w = choose|i: int| 0 <= i < tbl.len() && tbl[i].host_key == k;
                assert(t2[w].host_key == k);
            } else {
                assert(t2[ki].host_key == c.host_key);
            }
        }
    } else {
        assert forall|k: u128| #[trigger] has_key(t2, k) implies has_key(tbl, k) || k == c.host_key by {
            let w = choose|i: int| 0 <= i < t2.len() && t2[i].host_key == k;
            if w < tbl.len() {
                assert(tbl[w].host_key == k);
            }
        }
        assert forall|k: u128| has_key(tbl, k) || k == c.host_key implies #[trigger] has_key(t2, k) by {
            if has_key(tbl, k) {
                let w = choose|i: int| 0 <= i < tbl.len() && tbl[i].host_key == k;
                assert(t2[w].host_key == k);
            } else {
                assert(t2[tbl.len() as int].host_key == c.host_key);
            }
        }
    }
}

/// A digest applied: same guarantees, extended over the whole fold.
pub proof fn lemma_apply_fold_table(
    tbl: Seq<ArtilleryMember>,
    cs: Seq<ArtilleryStateChange>,
    from: NodeAddr,
    now: u64,
)
    requires
        wf_members(tbl),
    ensures
        ({
            let t2 = apply_fold(tbl, cs, from, now).0;
            &&& wf_members(t2)
            &&& t2.len() >= tbl.len()
            &&& forall|i: int| 0 <= i < tbl.len() ==> #[trigger] t2[i].host_key == tbl[i].host_key
            &&& forall|i: int|
                0 <= i < tbl.len() ==> #[trigger] t2[i].incarnation >= tbl[i].incarnation
            &&& t2[0].state == tbl[0].state
        }),
    decreases cs.len(),
{
    if cs.len() > 0 {
        let c = cs[0].member;
        lemma_apply_change_table(tbl, c, from, now);
        lemma_apply_fold_table(apply_change(tbl, c, from, now), cs.skip(1), from, now);
    }
}

/// Monotonic incarnation per host key: applying any sequence of state
/// changes never removes a host key and never decreases the incarnation the
/// table records for it.
pub proof fn lemma_incarnation_monotonic(
    tbl: Seq<ArtilleryMember>,
    cs: Seq<ArtilleryStateChange>,
    from: NodeAddr,
    now: u64,
    k: u128,
)
    requires
        wf_members(tbl),
        has_key(tbl, k),
    ensures
        ({
            let t2 = apply_fold(tbl, cs, from, now).0;
            &&& has_key(t2, k)
            &&& t2[key_index(t2, k)].incarnation >= tbl[key_index(tbl, k)].incarnation
        }),
{
    let t2 = apply_fold(tbl, cs, from, now).0;
    lemma_apply_fold_table(tbl, cs, from, now);
    let i = key_index(tbl, k);
    assert(0 <= i < tbl.len() && tbl[i].host_key == k);
    assert(t2[i].host_key == k);
    assert(has_key(t2, k));
    let j = key_index(t2, k);
    assert(0 <= j < t2.len() && t2[j].host_key == k);
    if i != j {
        assert(false);
    }
}

/// State precedence at equal incarnation: merging two records that carry
/// the local incarnation leaves, in either order, the state of highest
/// precedence among the three.
pub proof fn lemma_equal_incarnation_precedence(
    m: ArtilleryMember,
    a: ArtilleryMember,
    b: ArtilleryMember,
)
    requires
        a.incarnation == m.incarnation,
        b.incarnation == m.incarnation,
    ensures
        merged(merged(m, a), b).state == merged(merged(m, b), a).state,
        merged(merged(m, a), b).incarnation == m.incarnation,
        state_precedence(merged(merged(m, a), b).state) >= state_precedence(m.state),
        state_precedence(merged(merged(m, a), b).state) >= state_precedence(a.state),
        state_precedence(merged(merged(m, a), b).state) >= state_precedence(b.state),
        merged(merged(m, a), b).state == m.state || merged(merged(m, a), b).state == a.state
            || merged(merged(m, a), b).state == b.state,
{
}

/// Self-defense: when a digest asserts a non-Alive state about the local
/// member while it is alive, the local incarnation strictly increases and
/// an Alive refutation about the local key is produced.
pub proof fn lemma_self_defense(
    tbl: Seq<ArtilleryMember>,
    cs: Seq<ArtilleryStateChange>,
    from: NodeAddr,
    now: u64,
)
    requires
        wf_members(tbl),
        tbl[0].state == ArtilleryMemberState::Alive,
        tbl[0].incarnation < u64::MAX,
        exists|i: int|
            0 <= i < cs.len() && #[trigger] cs[i].member.host_key == tbl[0].host_key
                && cs[i].member.state != ArtilleryMemberState::Alive,
    ensures
        ({
            let r = apply_fold(tbl, cs, from, now);
            &&& r.0[0].incarnation > tbl[0].incarnation
            &&& r.3 is Some
            &&& r.3->0.state == ArtilleryMemberState::Alive
            &&& r.3->0.host_key == tbl[0].host_key
            &&& r.3->0.incarnation > tbl[0].incarnation
        }),
    decreases cs.len(),
{
    let w = choose|i: int|
        0 <= i < cs.len() && #[trigger] cs[i].member.host_key == tbl[0].host_key
            && cs[i].member.state != ArtilleryMemberState::Alive;
    let c = cs[0].member;
    let tbl1 = apply_change(tbl, c, from, now);
    lemma_apply_change_table(tbl, c, from, now);
    let r = apply_fold(tbl1, cs.skip(1), from, now);
    if w == 0 {
        assert(self_defense_fires(tbl, c));
        assert(tbl1[0].incarnation == tbl[0].incarnation + 1);
        lemma_apply_fold_table(tbl1, cs.skip(1), from, now);
        assert(r.0[0].incarnation > tbl[0].incarnation);
        if r.3 is Some {
            lemma_apply_fold_refute(tbl1, cs.skip(1), from, now);
        }
    } else {
        assert(cs.skip(1)[w - 1] == cs[w]);
        assert(tbl1[0].host_key == tbl[0].host_key);
        assert(tbl1[0].state == tbl[0].state);
        assert(tbl1[0].incarnation >= tbl[0].incarnation);
        if tbl1[0].incarnation < u64::MAX {
            lemma_self_defense(tbl1, cs.skip(1), from, now);
        } else {
            assert(self_defense_fires(tbl, c) || tbl1[0].incarnation == tbl[0].incarnation);
            assert(self_defense_fires(tbl, c));
            lemma_apply_fold_table(tbl1, cs.skip(1), from, now);
            if r.3 is Some {
                lemma_apply_fold_refute(tbl1, cs.skip(1), from, now);
            }
        }
    }
}

/// Any refutation the fold yields is an Alive record about the local key
/// with an incarnation at least the local one.
proof fn lemma_apply_fold_refute(
    tbl: Seq<ArtilleryMember>,
    cs: Seq<ArtilleryStateChange>,
    from: NodeAddr,
    now: u64,
)
    requires
        wf_members(tbl),
    ensures
        ({
            let r = apply_fold(tbl, cs, from, now);
            r.3 is Some ==> {
                &&& r.3->0.state == ArtilleryMemberState::Alive
                &&& r.3->0.host_key == tbl[0].host_key
                &&& r.3->0.incarnation >= bumped(tbl[0].incarnation)
            }
        }),
    decreases cs.len(),
{
    if cs.len() > 0 {
        let c = cs[0].member;
        let tbl1 = apply_change(tbl, c, from, now);
        lemma_apply_change_table(tbl, c, from, now);
        lemma_apply_fold_refute(tbl1, cs.skip(1), from, now);
    }
}

// ------------------------------------------------------------------
// The executable table.
// ------------------------------------------------------------------

/// The indexed collection of member records.  Index 0 is the local member.
pub struct ArtilleryMemberList {
    pub members: Vec<ArtilleryMember>,
}

impl ArtilleryMemberList {
    pub open spec fn wf(&self) -> bool {
        wf_members(self.members@)
    }

    pub open spec fn myself(&self) -> ArtilleryMember {
        self.members@[0]
    }

    pub fn new(me: ArtilleryMember) -> (r: ArtilleryMemberList)
        ensures
            r.wf(),
            r.members@ == seq![me],
    {
        let mut members: Vec<ArtilleryMember> = Vec::new();
        members.push(me);
        proof {
            assert(members@ =~= seq![me]);
        }
        ArtilleryMemberList { members }
    }

    /// Read-only snapshot of the local member.
    pub fn current(&self) -> (m: ArtilleryMember)
        requires
            self.wf(),
        ensures
            m == self.myself(),
    {
        self.members[0]
    }

    fn find_key(&self, k: u128) -> (r: Option<usize>)
        ensures
            match r {
                None => !has_key(self.members@, k),
                Some(i) => 0 <= i < self.members@.len() && self.members@[i as int].host_key == k,
            },
    {
        let mut i: usize = 0;
        while i < self.members.len()
            invariant
                i <= self.members@.len(),
                forall|j: int| 0 <= j < i ==> self.members@[j].host_key != k,
            decreases self.members@.len() - i,
        {
            if self.members[i].host_key == k {
                return Some(i);
            }
            i += 1;
        }
        None
    }

    /// Whether some member is known under this address.
    pub fn has_member(&self, addr: &NodeAddr) -> (r: bool)
        ensures
            r == exists|i: int|
                0 <= i < self.members@.len() && #[trigger] self.members@[i].remote_host == Some(
                    *addr,
                ),
    {
        let mut i: usize = 0;
        while i < self.members.len()
            invariant
                i <= self.members@.len(),
                forall|j: int| 0 <= j < i ==> #[trigger] self.members@[j].remote_host != Some(*addr),
            decreases self.members@.len() - i,
        {
            let m = self.members[i];
            match m.remote_host {
                Some(a) => {
                    if a == *addr {
                        return true;
                    }
                },
                None => {},
            }
            i += 1;
        }
        false
    }

    /// Inserts a first-seen member.  The host key must not be present.
    pub fn add_member(&mut self, member: ArtilleryMember)
        requires
            old(self).wf(),
            !has_key(old(self).members@, member.host_key),
        ensures
            final (self).wf(),
            final (self).members@ == old(self).members@.push(member),
    {
        self.members.push(member);
        proof {
            assert forall|i: int, j: int|
                0 <= i < j < self.members@.len() implies self.members@[i].host_key
                != self.members@[j].host_key by {
                if j == self.members@.len() - 1 {
                    assert(!(self.members@[i].host_key == member.host_key)) by {
                        if self.members@[i].host_key == member.host_key {
                            assert(has_key(old(self).members@, member.host_key));
                        }
                    }
                }
            }
        }
    }

    /// Merges a digest of incoming records, in order, under the precedence
    /// rule, inserting unknown members and defending the local entry.
    /// Returns the newly seen members, the changed members, and the latest
    /// self refutation, exactly as the fold of the merge rule yields them.
    pub fn apply_state_changes(
        &mut self,
        changes: &Vec<ArtilleryStateChange>,
        from: NodeAddr,
        now: u64,
    ) -> (r: (Vec<ArtilleryMember>, Vec<ArtilleryMember>, Option<ArtilleryMember>))
        requires
            old(self).wf(),
        ensures
            final (self).wf(),
            ({
                let fr = apply_fold(old(self).members@, changes@, from, now);
                &&& final (self).members@ == fr.0
                &&& r.0@ == fr.1
                &&& r.1@ == fr.2
                &&& r.2 == fr.3
            }),
    {
        let ghost tbl0 = self.members@;
        let mut new_members: Vec<ArtilleryMember> = Vec::new();
        let mut changed_members: Vec<ArtilleryMember> = Vec::new();
        let mut refute: Option<ArtilleryMember> = None;
        let mut i: usize = 0;
        proof {
            assert(changes@.skip(0) =~= changes@);
            let fr0 = apply_fold(tbl0, changes@, from, now);
            assert(Seq::<ArtilleryMember>::empty() + fr0.1 =~= fr0.1);
            assert(Seq::<ArtilleryMember>::empty() + fr0.2 =~= fr0.2);
        }
        while i < changes.len()
            invariant
                i <= changes@.len(),
                wf_members(self.members@),
                ({
                    let fr = apply_fold(self.members@, changes@.skip(i as int), from, now);
                    let whole = apply_fold(tbl0, changes@, from, now);
                    &&& whole.0 == fr.0
                    &&& whole.1 == new_members@ + fr.1
                    &&& whole.2 == changed_members@ + fr.2
                    &&& whole.3 == (if fr.3 is Some { fr.3 } else { refute })
                }),
            decreases changes@.len() - i,
        {
            let ghost pre = self.members@;
            let ghost rest_pre = changes@.skip(i as int);
            let ghost old_new = new_members@;
            let ghost old_chg = changed_members@;
            let c = changes[i].member;
            proof {
                assert(rest_pre[0] == changes@[i as int]);
                assert(rest_pre.skip(1) =~= changes@.skip(i + 1));
            }
            let me_key = self.members[0].host_key;
            if c.host_key == me_key {
                let my_state = self.members[0].state;
                if !matches!(c.state, ArtilleryMemberState::Alive) && matches!(
                    my_state,
                    ArtilleryMemberState::Alive,
                ) {
                    let zeroth = self.members[0];
                    let defended = zeroth.reincarnated(now);
                    self.members.set(0, defended);
                    refute = Some(defended);
                    proof {
                        assert(self_defense_fires(pre, c));
                        assert(defended == reincarnated_of(pre[0], now));
                        assert(self.members@ =~= apply_change(pre, c, from, now));
                    }
                } else {
                    proof {
                        assert(!self_defense_fires(pre, c));
                        assert(self.members@ =~= apply_change(pre, c, from, now));
                    }
                }
            } else {
                match self.find_key(c.host_key) {
                    Some(idx) => {
                        let local = self.members[idx];
                        proof {
                            let ki = key_index(pre, c.host_key);
                            assert(has_key(pre, c.host_key));
                            assert(0 <= ki < pre.len() && pre[ki].host_key == c.host_key);
                            if ki != idx {
                                assert(false);
                            }
                        }
                        let wins = c.incarnation > local.incarnation || (c.incarnation
                            == local.incarnation && precedence_of(c.state) > precedence_of(
                            local.state,
                        ));
                        if wins {
                            let m = ArtilleryMember {
                                host_key: local.host_key,
                                remote_host: local.remote_host,
                                incarnation: c.incarnation,
                                state: c.state,
                                last_state_change: c.last_state_change,
                            };
                            self.members.set(idx, m);
                            changed_members.push(m);
                            proof {
                                assert(overwrites(local, c));
                                assert(m == merged(local, c));
                                assert(self.members@ =~= apply_change(pre, c, from, now));
                            }
                        } else {
                            proof {
                                assert(!overwrites(local, c));
                                assert(merged(local, c) == local);
                                assert(pre.update(idx as int, local) =~= pre);
                                assert(self.members@ =~= apply_change(pre, c, from, now));
                            }
                        }
                    },
                    None => {
                        let fixed = match c.remote_host {
                            None => ArtilleryMember {
                                host_key: c.host_key,
                                remote_host: Some(from),
                                incarnation: c.incarnation,
                                state: c.state,
                                last_state_change: c.last_state_change,
                            },
                            Some(_) => c,
                        };
                        self.members.push(fixed);
                        new_members.push(fixed);
                        proof {
                            assert(fixed == with_default_addr(c, from));
                            assert(self.members@ =~= apply_change(pre, c, from, now));
                        }
                    },
                }
            }
            proof {
                lemma_apply_change_table(pre, c, from, now);
            }
            i += 1;
            proof {
                let fr_new = apply_fold(self.members@, changes@.skip(i as int), from, now);
                let step_new: Seq<ArtilleryMember> = if !is_self_key(pre, c) && !has_key(
                    pre,
                    c.host_key,
                ) {
                    seq![with_default_addr(c, from)]
                } else {
                    Seq::<ArtilleryMember>::empty()
                };
                let step_chg: Seq<ArtilleryMember> = if !is_self_key(pre, c) && has_key(
                    pre,
                    c.host_key,
                ) && overwrites(pre[key_index(pre, c.host_key)], c) {
                    seq![merged(pre[key_index(pre, c.host_key)], c)]
                } else {
                    Seq::<ArtilleryMember>::empty()
                };
                assert(apply_fold(pre, rest_pre, from, now) == (
                    fr_new.0,
                    step_new + fr_new.1,
                    step_chg + fr_new.2,
                    if fr_new.3 is Some {
                        fr_new.3
                    } else {
                        if self_defense_fires(pre, c) {
                            Some(reincarnated_of(pre[0], now))
                        } else {
                            None
                        }
                    },
                ));
                assert(new_members@ =~= old_new + step_new);
                assert(changed_members@ =~= old_chg + step_chg);
                assert(old_new + (step_new + fr_new.1) =~= (old_new + step_new) + fr_new.1);
                assert(old_chg + (step_chg + fr_new.2) =~= (old_chg + step_chg) + fr_new.2);
            }
        }
        proof {
            assert(changes@.skip(changes@.len() as int) =~= Seq::<ArtilleryStateChange>::empty());
            assert(new_members@ + Seq::<ArtilleryMember>::empty() =~= new_members@);
            assert(changed_members@ + Seq::<ArtilleryMember>::empty() =~= changed_members@);
        }
        (new_members, changed_members, refute)
    }
}

// ------------------------------------------------------------------
// Timeout sweep, promotion, departure, selection.
// ------------------------------------------------------------------

/// A member re-stamped as Suspect.
pub open spec fn suspected_of(m: ArtilleryMember, now: u64) -> ArtilleryMember {
    ArtilleryMember {
        host_key: m.host_key,
        remote_host: m.remote_host,
        incarnation: m.incarnation,
        state: ArtilleryMemberState::Suspect,
        last_state_change: now,
    }
}

/// A member re-stamped as Down.
pub open spec fn downed_of(m: ArtilleryMember, now: u64) -> ArtilleryMember {
    ArtilleryMember {
        host_key: m.host_key,
        remote_host: m.remote_host,
        incarnation: m.incarnation,
        state: ArtilleryMemberState::Down,
        last_state_change: now,
    }
}

/// A member re-stamped as Alive, with the incarnation kept.
pub open spec fn alive_of(m: ArtilleryMember, now: u64) -> ArtilleryMember {
    ArtilleryMember {
        host_key: m.host_key,
        remote_host: m.remote_host,
        incarnation: m.incarnation,
        state: ArtilleryMemberState::Alive,
        last_state_change: now,
    }
}

/// The local member after a voluntary departure: Left, incarnation bumped.
pub open spec fn left_of(m: ArtilleryMember, now: u64) -> ArtilleryMember {
    ArtilleryMember {
        host_key: m.host_key,
        remote_host: m.remote_host,
        incarnation: bumped(m.incarnation),
        state: ArtilleryMemberState::Left,
        last_state_change: now,
    }
}

pub open spec fn expired_hit(m: ArtilleryMember, expired: Seq<NodeAddr>) -> bool {
    match m.remote_host {
        Some(a) => expired.contains(a),
        None => false,
    }
}

/// One member after the timeout sweep: Alive lapses to Suspect, Suspect
/// lapses to Down, everything else is untouched.  Alive never lapses to
/// Down in one sweep.
pub open spec fn timeout_one(m: ArtilleryMember, expired: Seq<NodeAddr>, now: u64) -> ArtilleryMember {
    if expired_hit(m, expired) {
        if m.state == ArtilleryMemberState::Alive {
            suspected_of(m, now)
        } else if m.state == ArtilleryMemberState::Suspect {
            downed_of(m, now)
        } else {
            m
        }
    } else {
        m
    }
}

/// The members a sweep turns Suspect, in table order.
pub open spec fn timeout_suspects(s: Seq<ArtilleryMember>, expired: Seq<NodeAddr>, now: u64) -> Seq<
    ArtilleryMember,
>
    decreases s.len(),
{
    if s.len() == 0 {
        Seq::<ArtilleryMember>::empty()
    } else {
        let prev = timeout_suspects(s.drop_last(), expired, now);
        let m = s.last();
        if expired_hit(m, expired) && m.state == ArtilleryMemberState::Alive {
            prev.push(suspected_of(m, now))
        } else {
            prev
        }
    }
}

/// The members a sweep turns Down, in table order.
pub open spec fn timeout_downs(s: Seq<ArtilleryMember>, expired: Seq<NodeAddr>, now: u64) -> Seq<
    ArtilleryMember,
>
    decreases s.len(),
{
    if s.len() == 0 {
        Seq::<ArtilleryMember>::empty()
    } else {
        let prev = timeout_downs(s.drop_last(), expired, now);
        let m = s.last();
        if expired_hit(m, expired) && m.state == ArtilleryMemberState::Suspect {
            prev.push(downed_of(m, now))
        } else {
            prev
        }
    }
}

/// No Alive member goes Down in one sweep: every member the sweep reports
/// Down was already Suspect before the sweep.
pub proof fn lemma_no_alive_to_down(s: Seq<ArtilleryMember>, expired: Seq<NodeAddr>, now: u64)
    ensures
        forall|j: int|
            0 <= j < timeout_downs(s, expired, now).len() ==> exists|i: int|
                0 <= i < s.len() && s[i].state == ArtilleryMemberState::Suspect
                    && #[trigger] timeout_downs(s, expired, now)[j] == downed_of(s[i], now),
    decreases s.len(),
{
    if s.len() > 0 {
        lemma_no_alive_to_down(s.drop_last(), expired, now);
        let prev = timeout_downs(s.drop_last(), expired, now);
        let whole = timeout_downs(s, expired, now);
        assert forall|j: int| 0 <= j < whole.len() implies exists|i: int|
            0 <= i < s.len() && s[i].state == ArtilleryMemberState::Suspect
                && #[trigger] whole[j] == downed_of(s[i], now) by {
            if j < prev.len() {
                let i = choose|i: int|
                    0 <= i < s.drop_last().len() && s.drop_last()[i].state
                        == ArtilleryMemberState::Suspect && #[trigger] prev[j] == downed_of(
                        s.drop_last()[i],
                        now,
                    );
                assert(s.drop_last()[i] == s[i]);
                assert(whole[j] == downed_of(s[i], now));
            } else {
                assert(s.last() == s[s.len() - 1]);
                assert(whole[j] == downed_of(s[s.len() - 1], now));
            }
        }
    }
}

/// Whether a peer may be the target of a routine probe.
pub open spec fn pingable(m: ArtilleryMember) -> bool {
    (m.state == ArtilleryMemberState::Alive || m.state == ArtilleryMemberState::Suspect)
        && m.remote_host is Some
}

/// The probe candidates among a run of members, in order.
pub open spec fn ping_candidates(s: Seq<ArtilleryMember>) -> Seq<ArtilleryMember>
    decreases s.len(),
{
    if s.len() == 0 {
        Seq::<ArtilleryMember>::empty()
    } else {
        let prev = ping_candidates(s.drop_last());
        if pingable(s.last()) {
            prev.push(s.last())
        } else {
            prev
        }
    }
}

/// Whether a peer may relay an indirect probe toward `exclude`'s owner.
pub open spec fn relay_ok(m: ArtilleryMember, exclude: NodeAddr) -> bool {
    m.state == ArtilleryMemberState::Alive && m.remote_host is Some && m.remote_host->0 != exclude
}

/// The relay candidate addresses among a run of members, in order.
pub open spec fn relay_candidates(s: Seq<ArtilleryMember>, exclude: NodeAddr) -> Seq<NodeAddr>
    decreases s.len(),
{
    if s.len() == 0 {
        Seq::<NodeAddr>::empty()
    } else {
        let prev = relay_candidates(s.drop_last(), exclude);
        if relay_ok(s.last(), exclude) {
            prev.push(s.last().remote_host->0)
        } else {
            prev
        }
    }
}

/// The members visible to the embedder: everything not Down and not Left.
pub open spec fn available_of(s: Seq<ArtilleryMember>) -> Seq<ArtilleryMember>
    decreases s.len(),
{
    if s.len() == 0 {
        Seq::<ArtilleryMember>::empty()
    } else {
        let prev = available_of(s.drop_last());
        let m = s.last();
        if m.state != ArtilleryMemberState::Down && m.state != ArtilleryMemberState::Left {
            prev.push(m)
        } else {
            prev
        }
    }
}

/// The available-node snapshot never shows a Down or departed member.
pub proof fn lemma_available_excludes(s: Seq<ArtilleryMember>)
    ensures
        forall|j: int|
            0 <= j < available_of(s).len() ==> #[trigger] available_of(s)[j].state
                != ArtilleryMemberState::Down && available_of(s)[j].state
                != ArtilleryMemberState::Left,
    decreases s.len(),
{
    if s.len() > 0 {
        lemma_available_excludes(s.drop_last());
        let prev = available_of(s.drop_last());
        let whole = available_of(s);
        assert forall|j: int|
            0 <= j < whole.len() implies #[trigger] whole[j].state != ArtilleryMemberState::Down
            && whole[j].state != ArtilleryMemberState::Left by {
            if j < prev.len() {
                assert(whole[j] == prev[j]);
            }
        }
    }
}

/// Walking a ring of `len` slots from `start`, the slot reached after
/// `offset` single steps.
pub open spec fn wrap_index(start: int, offset: nat, len: int) -> int
    decreases offset,
{
    if offset == 0 {
        start
    } else {
        let p = wrap_index(start, (offset - 1) as nat, len);
        if p + 1 >= len {
            0
        } else {
            p + 1
        }
    }
}

fn addr_in(list: &Vec<NodeAddr>, a: &NodeAddr) -> (r: bool)
    ensures
        r == list@.contains(*a),
{
    let mut i: usize = 0;
    while i < list.len()
        invariant
            i <= list@.len(),
            forall|j: int| 0 <= j < i ==> list@[j] != *a,
        decreases list@.len() - i,
    {
        if list[i] == *a {
            return true;
        }
        i += 1;
    }
    false
}

impl ArtilleryMemberList {
    /// The timeout sweep: every member whose address lapsed goes Alive to
    /// Suspect or Suspect to Down; the two transition lists come back in
    /// table order.
    pub fn time_out_nodes(&mut self, expired: &Vec<NodeAddr>, now: u64) -> (r: (
        Vec<ArtilleryMember>,
        Vec<ArtilleryMember>,
    ))
        requires
            old(self).wf(),
        ensures
            final (self).wf(),
            final (self).members@.len() == old(self).members@.len(),
            forall|i: int|
                0 <= i < old(self).members@.len() ==> final (self).members@[i] == timeout_one(
                    old(self).members@[i],
                    expired@,
                    now,
                ),
            r.0@ == timeout_suspects(old(self).members@, expired@, now),
            r.1@ == timeout_downs(old(self).members@, expired@, now),
            forall|j: int|
                0 <= j < r.1@.len() ==> exists|i: int|
                    0 <= i < old(self).members@.len() && old(self).members@[i].state
                        == ArtilleryMemberState::Suspect && #[trigger] r.1@[j] == downed_of(
                        old(self).members@[i],
                        now,
                    ),
    {
        let ghost tbl0 = self.members@;
        let mut suspects: Vec<ArtilleryMember> = Vec::new();
        let mut downs: Vec<ArtilleryMember> = Vec::new();
        let mut i: usize = 0;
        while i < self.members.len()
            invariant
                i <= self.members@.len(),
                self.members@.len() == tbl0.len(),
                forall|j: int| 0 <= j < i ==> self.members@[j] == timeout_one(tbl0[j], expired@, now),
                forall|j: int| i <= j < tbl0.len() ==> self.members@[j] == tbl0[j],
                suspects@ == timeout_suspects(tbl0.take(i as int), expired@, now),
                downs@ == timeout_downs(tbl0.take(i as int), expired@, now),
            decreases self.members@.len() - i,
        {
            proof {
                assert(tbl0.take(i + 1).drop_last() =~= tbl0.take(i as int));
                assert(tbl0.take(i + 1).last() == tbl0[i as int]);
            }
            let m = self.members[i];
            let hit = match m.remote_host {
                Some(a) => addr_in(expired, &a),
                None => false,
            };
            if hit {
                if matches!(m.state, ArtilleryMemberState::Alive) {
                    let s = ArtilleryMember {
                        host_key: m.host_key,
                        remote_host: m.remote_host,
                        incarnation: m.incarnation,
                        state: ArtilleryMemberState::Suspect,
                        last_state_change: now,
                    };
                    self.members.set(i, s);
                    suspects.push(s);
                } else if matches!(m.state, ArtilleryMemberState::Suspect) {
                    let d = ArtilleryMember {
                        host_key: m.host_key,
                        remote_host: m.remote_host,
                        incarnation: m.incarnation,
                        state: ArtilleryMemberState::Down,
                        last_state_change: now,
                    };
                    self.members.set(i, d);
                    downs.push(d);
                }
            }
            i += 1;
        }
        proof {
            assert(tbl0.take(tbl0.len() as int) =~= tbl0);
            assert forall|i2: int, j2: int|
                0 <= i2 < j2 < self.members@.len() implies self.members@[i2].host_key
                != self.members@[j2].host_key by {
                assert(self.members@[i2].host_key == tbl0[i2].host_key);
                assert(self.members@[j2].host_key == tbl0[j2].host_key);
            }
            lemma_no_alive_to_down(tbl0, expired@, now);
        }
        (suspects, downs)
    }

    /// Promotes the first Suspect member known under `addr` back to Alive,
    /// without touching its incarnation; reports the promoted member.
    pub fn mark_node_alive(&mut self, addr: &NodeAddr, now: u64) -> (r: Option<ArtilleryMember>)
        requires
            old(self).wf(),
        ensures
            final (self).wf(),
            match r {
                None => *final (self) == *old(self) && forall|i: int|
                    0 <= i < old(self).members@.len() ==> !(#[trigger] old(self).members@[i].remote_host
                        == Some(*addr) && old(self).members@[i].state
                        == ArtilleryMemberState::Suspect),
                Some(m) => exists|i: int|
                    {
                        &&& 0 <= i < old(self).members@.len()
                        &&& #[trigger] old(self).members@[i].remote_host == Some(*addr)
                        &&& old(self).members@[i].state == ArtilleryMemberState::Suspect
                        &&& forall|j: int|
                            0 <= j < i ==> !(old(self).members@[j].remote_host == Some(*addr)
                                && old(self).members@[j].state == ArtilleryMemberState::Suspect)
                        &&& m == alive_of(old(self).members@[i], now)
                        &&& final (self).members@ == old(self).members@.update(i, m)
                    },
            },
    {
        let mut i: usize = 0;
        while i < self.members.len()
            invariant
                *old(self) == *self,
                old(self).wf(),
                i <= self.members@.len(),
                forall|j: int|
                    0 <= j < i ==> !(#[trigger] self.members@[j].remote_host == Some(*addr)
                        && self.members@[j].state == ArtilleryMemberState::Suspect),
            decreases self.members@.len() - i,
        {
            let m = self.members[i];
            let is_match = match m.remote_host {
                Some(a) => a == *addr && matches!(m.state, ArtilleryMemberState::Suspect),
                None => false,
            };
            if is_match {
                let promoted = ArtilleryMember {
                    host_key: m.host_key,
                    remote_host: m.remote_host,
                    incarnation: m.incarnation,
                    state: ArtilleryMemberState::Alive,
                    last_state_change: now,
                };
                self.members.set(i, promoted);
                proof {
                    assert forall|i2: int, j2: int|
                        0 <= i2 < j2 < self.members@.len() implies self.members@[i2].host_key
                        != self.members@[j2].host_key by {
                        assert(self.members@[i2].host_key == old(self).members@[i2].host_key);
                        assert(self.members@[j2].host_key == old(self).members@[j2].host_key);
                    }
                }
                return Some(promoted);
            }
            i += 1;
        }
        None
    }

    /// Voluntary departure: the local member goes Left with a bumped
    /// incarnation; the departed snapshot comes back for dissemination.
    pub fn leave(&mut self, now: u64) -> (r: ArtilleryMember)
        requires
            old(self).wf(),
        ensures
            final (self).wf(),
            r == left_of(old(self).members@[0], now),
            final (self).members@ == old(self).members@.update(0, r),
    {
        let me = self.members[0];
        let departed = ArtilleryMember {
            host_key: me.host_key,
            remote_host: me.remote_host,
            incarnation: if me.incarnation < u64::MAX {
                me.incarnation + 1
            } else {
                u64::MAX
            },
            state: ArtilleryMemberState::Left,
            last_state_change: now,
        };
        self.members.set(0, departed);
        proof {
            assert forall|i2: int, j2: int|
                0 <= i2 < j2 < self.members@.len() implies self.members@[i2].host_key
                != self.members@[j2].host_key by {
                assert(self.members@[i2].host_key == old(self).members@[i2].host_key);
                assert(self.members@[j2].host_key == old(self).members@[j2].host_key);
            }
        }
        departed
    }

    /// Picks a probe target uniformly among the Alive or Suspect peers,
    /// never the local member, driven by the supplied random draw.
    pub fn next_random_member(&self, rand: u64) -> (r: Option<ArtilleryMember>)
        requires
            self.wf(),
        ensures
            ({
                let cands = ping_candidates(self.members@.skip(1));
                if cands.len() == 0 {
                    r is None
                } else {
                    r == Some(cands[rand as int % cands.len() as int])
                }
            }),
    {
        let mut cands: Vec<ArtilleryMember> = Vec::new();
        let mut i: usize = 1;
        proof {
            assert(self.members@.subrange(1, 1) =~= Seq::<ArtilleryMember>::empty());
        }
        while i < self.members.len()
            invariant
                1 <= i <= self.members@.len() || (self.members@.len() < 1 && i == 1),
                i <= usize::MAX,
                self.wf(),
                cands@ == ping_candidates(self.members@.subrange(1, i as int)),
            decreases self.members@.len() - i,
        {
            proof {
                assert(self.members@.subrange(1, i + 1).drop_last() =~= self.members@.subrange(
                    1,
                    i as int,
                ));
                assert(self.members@.subrange(1, i + 1).last() == self.members@[i as int]);
            }
            let m = self.members[i];
            let ok = match m.remote_host {
                Some(_) => matches!(m.state, ArtilleryMemberState::Alive)
                    || matches!(m.state, ArtilleryMemberState::Suspect),
                None => false,
            };
            if ok {
                cands.push(m);
            }
            i += 1;
        }
        proof {
            assert(self.members@.subrange(1, self.members@.len() as int) =~= self.members@.skip(1));
        }
        if cands.len() == 0 {
            None
        } else {
            let idx = (rand % (cands.len() as u64)) as usize;
            Some(cands[idx])
        }
    }

    /// Up to `k` Alive relay addresses other than `exclude`, walked from a
    /// random start around the candidate ring.
    pub fn hosts_for_indirect_ping(&self, k: usize, exclude: &NodeAddr, rand: u64) -> (r: Vec<
        NodeAddr,
    >)
        requires
            self.wf(),
        ensures
            ({
                let cands = relay_candidates(self.members@.skip(1), *exclude);
                let cnt: int = if k <= cands.len() {
                    k as int
                } else {
                    cands.len() as int
                };
                &&& r@.len() == cnt
                &&& forall|t: int|
                    0 <= t < cnt ==> r@[t] == cands[wrap_index(
                        rand as int % cands.len() as int,
                        t as nat,
                        cands.len() as int,
                    )]
            }),
    {
        let mut cands: Vec<NodeAddr> = Vec::new();
        let mut i: usize = 1;
        proof {
            assert(self.members@.subrange(1, 1) =~= Seq::<ArtilleryMember>::empty());
        }
        while i < self.members.len()
            invariant
                1 <= i <= self.members@.len() || (self.members@.len() < 1 && i == 1),
                self.wf(),
                cands@ == relay_candidates(self.members@.subrange(1, i as int), *exclude),
            decreases self.members@.len() - i,
        {
            proof {
                assert(self.members@.subrange(1, i + 1).drop_last() =~= self.members@.subrange(
                    1,
                    i as int,
                ));
                assert(self.members@.subrange(1, i + 1).last() == self.members@[i as int]);
            }
            let m = self.members[i];
            match m.remote_host {
                Some(a) => {
                    if matches!(m.state, ArtilleryMemberState::Alive) && a != *exclude {
                        cands.push(a);
                    }
                },
                None => {},
            }
            i += 1;
        }
        proof {
            assert(self.members@.subrange(1, self.members@.len() as int) =~= self.members@.skip(1));
        }
        let mut out: Vec<NodeAddr> = Vec::new();
        if cands.len() == 0 {
            return out;
        }
        let count = if k <= cands.len() {
            k
        } else {
            cands.len()
        };
        let start = (rand % (cands.len() as u64)) as usize;
        let mut cur = start;
        let mut t: usize = 0;
        while t < count
            invariant
                t <= count,
                count <= cands@.len(),
                cands@.len() >= 1,
                start == rand as int % cands@.len() as int,
                0 <= cur < cands@.len(),
                cur == wrap_index(start as int, t as nat, cands@.len() as int),
                out@.len() == t,
                forall|u: int|
                    0 <= u < t ==> out@[u] == cands@[wrap_index(
                        start as int,
                        u as nat,
                        cands@.len() as int,
                    )],
            decreases count - t,
        {
            out.push(cands[cur]);
            cur = if cur >= cands.len() - 1 {
                0
            } else {
                cur + 1
            };
            t += 1;
        }
        out
    }

    /// Snapshot of every member that is neither Down nor Left.
    pub fn available_nodes(&self) -> (r: Vec<ArtilleryMember>)
        ensures
            r@ == available_of(self.members@),
    {
        let mut out: Vec<ArtilleryMember> = Vec::new();
        let mut i: usize = 0;
        proof {
            assert(self.members@.take(0) =~= Seq::<ArtilleryMember>::empty());
        }
        while i < self.members.len()
            invariant
                i <= self.members@.len(),
                out@ == available_of(self.members@.take(i as int)),
            decreases self.members@.len() - i,
        {
            proof {
                assert(self.members@.take(i + 1).drop_last() =~= self.members@.take(i as int));
                assert(self.members@.take(i + 1).last() == self.members@[i as int]);
            }
            let m = self.members[i];
            if !matches!(m.state, ArtilleryMemberState::Down) && !matches!(
                m.state,
                ArtilleryMemberState::Left,
            ) {
                out.push(m);
            }
            i += 1;
        }
        proof {
            assert(self.members@.take(self.members@.len() as int) =~= self.members@);
        }
        out
    }
}

/// Exact executable counterpart of `state_precedence`.
pub fn precedence_of(s: ArtilleryMemberState) -> (r: u8)
    ensures
        r as int == state_precedence(s),
{
    match s {
        ArtilleryMemberState::Alive => 0,
        ArtilleryMemberState::Suspect => 1,
        ArtilleryMemberState::Down => 2,
        ArtilleryMemberState::Left => 3,
    }
}

} // verus!
