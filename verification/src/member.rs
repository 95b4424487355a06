//! Member records: identity, address, incarnation and liveness state.

use vstd::prelude::*;

verus! {

/// Liveness state of a cluster member, as known locally.
#[derive(Clone, Copy, Debug, PartialEq, Eq, Structural)]
pub enum ArtilleryMemberState {
    /// Responding to probes (or assumed so).
    Alive,
    /// Missed a direct Ack; failure is suspected but not confirmed.
    Suspect,
    /// Failure confirmed after a suspicion timeout.
    Down,
    /// Voluntarily departed.
    Left,
}

/// A UDP endpoint held as plain values: the IP address as an integer, the
/// port, and whether the address is IPv6.  The I/O shell converts between
/// this and a real socket address.
#[derive(Clone, Copy, Debug, PartialEq, Eq, Structural)]
pub struct NodeAddr {
    pub ip: u128,
    pub port: u16,
    pub is_v6: bool,
}

/// A member of the cluster.
///
/// `host_key` is the immutable 128-bit identity; `incarnation` is the
/// monotonically non-decreasing counter the member asserts about itself;
/// `last_state_change` is a wall-clock timestamp in milliseconds, used only
/// for diagnostics.  `remote_host` is absent only for the local member.
#[derive(Clone, Copy, Debug)]
pub struct ArtilleryMember {
    pub host_key: u128,
    pub remote_host: Option<NodeAddr>,
    pub incarnation: u64,
    pub state: ArtilleryMemberState,
    pub last_state_change: u64,
}

/// Precedence of a state assertion at equal incarnation:
/// Left > Down > Suspect > Alive.
pub open spec fn state_precedence(s: ArtilleryMemberState) -> int {
    match s {
        ArtilleryMemberState::Alive => 0,
        ArtilleryMemberState::Suspect => 1,
        ArtilleryMemberState::Down => 2,
        ArtilleryMemberState::Left => 3,
    }
}

impl ArtilleryMember {
    /// The local member at construction: no externally visible address yet,
    /// incarnation zero, alive.
    pub fn current(host_key: u128, now: u64) -> (m: ArtilleryMember)
        ensures
            m == (ArtilleryMember {
                host_key,
                remote_host: None,
                incarnation: 0,
                state: ArtilleryMemberState::Alive,
                last_state_change: now,
            }),
    {
        ArtilleryMember {
            host_key,
            remote_host: None,
            incarnation: 0,
            state: ArtilleryMemberState::Alive,
            last_state_change: now,
        }
    }

    /// A remote member first seen at `remote_host`.
    pub fn new(
        host_key: u128,
        remote_host: NodeAddr,
        incarnation: u64,
        state: ArtilleryMemberState,
        now: u64,
    ) -> (m: ArtilleryMember)
        ensures
            m == (ArtilleryMember {
                host_key,
                remote_host: Some(remote_host),
                incarnation,
                state,
                last_state_change: now,
            }),
    {
        ArtilleryMember { host_key, remote_host: Some(remote_host), incarnation, state, last_state_change: now }
    }

    pub fn host_key(&self) -> (k: u128)
        ensures
            k == self.host_key,
    {
        self.host_key
    }

    pub fn remote_host(&self) -> (a: Option<NodeAddr>)
        ensures
            a == self.remote_host,
    {
        self.remote_host
    }

    pub fn incarnation(&self) -> (i: u64)
        ensures
            i == self.incarnation,
    {
        self.incarnation
    }

    pub fn state(&self) -> (s: ArtilleryMemberState)
        ensures
            s == self.state,
    {
        self.state
    }

    /// The member with its incarnation bumped by one (saturating at the type
    /// limit) and its state reasserted as Alive: the shape of a self-defense
    /// refutation.
    pub fn reincarnated(&self, now: u64) -> (m: ArtilleryMember)
        ensures
            m.host_key == self.host_key,
            m.remote_host == self.remote_host,
            m.state == ArtilleryMemberState::Alive,
            m.last_state_change == now,
            self.incarnation < u64::MAX ==> m.incarnation == self.incarnation + 1,
            self.incarnation == u64::MAX ==> m.incarnation == u64::MAX,
    {
        let incarnation: u64 = if self.incarnation < u64::MAX { self.incarnation + 1 } else { u64::MAX };
        ArtilleryMember {
            host_key: self.host_key,
            remote_host: self.remote_host,
            incarnation,
            state: ArtilleryMemberState::Alive,
            last_state_change: now,
        }
    }
}

/// The unit of gossip dissemination: a member snapshot together with the time
/// it entered that state locally (carried inside the snapshot).
#[derive(Clone, Copy, Debug)]
pub struct ArtilleryStateChange {
    pub member: ArtilleryMember,
}

impl ArtilleryStateChange {
    pub fn new(member: ArtilleryMember) -> (c: ArtilleryStateChange)
        ensures
            c.member == member,
    {
        ArtilleryStateChange { member }
    }

    pub fn member(&self) -> (m: ArtilleryMember)
        ensures
            m == self.member,
    {
        self.member
    }

    pub fn update(&mut self, member: ArtilleryMember)
        ensures
            final (self).member == member,
    {
        self.member = member;
    }
}

} // verus!
