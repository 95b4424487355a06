//! Wire codec: a self-describing textual encoding of the message record,
//! with MTU-aware truncation of the piggybacked digest.
//!
//! Every datagram carries one message record `{sender, cluster_key, request,
//! state_changes}`.  Numbers are fixed-width lowercase hexadecimal, lists are
//! length-prefixed, and each variant is tagged by one ASCII byte, so the
//! encoding is self-describing and round-trips exactly.

use vstd::prelude::*;
use crate::errors::ArtilleryError;
use crate::member::{ArtilleryMember, ArtilleryMemberState, ArtilleryStateChange, NodeAddr};

verus! {

/// A request carried by a message record.
#[derive(Clone, Copy, Debug)]
pub enum Request {
    /// Direct probe; the receiver answers with Ack.
    Ping,
    /// Answer to a direct probe.
    Ack,
    /// Ask the receiver to probe the carried address on our behalf.
    PingRequest(NodeAddr),
    /// Tell a relay that the carried member answered a probe.
    AckHost(ArtilleryMember),
}

/// The wire record.
#[derive(Clone, Debug)]
pub struct ArtilleryMessage {
    pub sender: u128,
    pub cluster_key: Vec<u8>,
    pub request: Request,
    pub state_changes: Vec<ArtilleryStateChange>,
}

/// Mathematical model of a message record: the vectors as sequences.
pub ghost struct MessageModel {
    pub sender: u128,
    pub cluster_key: Seq<u8>,
    pub request: Request,
    pub state_changes: Seq<ArtilleryStateChange>,
}

impl View for ArtilleryMessage {
    type V = MessageModel;

    open spec fn view(&self) -> MessageModel {
        MessageModel {
            sender: self.sender,
            cluster_key: self.cluster_key@,
            request: self.request,
            state_changes: self.state_changes@,
        }
    }
}

/// The wire format length-prefixes both lists with 16 bits.
pub open spec fn wf_message(m: MessageModel) -> bool {
    &&& m.cluster_key.len() < 0x10000
    &&& m.state_changes.len() < 0x10000
}

// ------------------------------------------------------------------
// Hexadecimal primitives.
// ------------------------------------------------------------------

/// The ASCII byte for one hexadecimal digit.
pub open spec fn hex_digit(d: int) -> u8 {
    if d < 10 { (48 + d) as u8 } else { (87 + d) as u8 }
}

pub open spec fn is_hex(c: u8) -> bool {
    (48 <= c && c <= 57) || (97 <= c && c <= 102)
}

/// The value of one hexadecimal ASCII byte.
pub open spec fn hex_val(c: u8) -> nat {
    if 48 <= c && c <= 57 {
        (c - 48) as nat
    } else if 97 <= c && c <= 102 {
        (c - 87) as nat
    } else {
        0
    }
}

pub open spec fn pow16(w: nat) -> nat
    decreases w,
{
    if w == 0 { 1 } else { 16 * pow16((w - 1) as nat) }
}

/// `n` in `w` hexadecimal digits, most significant first.
pub open spec fn enc_nat(n: nat, w: nat) -> Seq<u8>
    decreases w,
{
    if w == 0 { Seq::empty() } else { enc_nat(n / 16, (w - 1) as nat).push(hex_digit((n % 16) as int)) }
}

pub open spec fn hex_seq_ok(s: Seq<u8>) -> bool {
    forall|i: int| 0 <= i < s.len() ==> is_hex(s[i])
}

/// The value of a sequence of hexadecimal digits, most significant first.
pub open spec fn parse_nat(s: Seq<u8>) -> nat
    decreases s.len(),
{
    if s.len() == 0 { 0 } else { parse_nat(s.drop_last()) * 16 + hex_val(s.last()) }
}

proof fn lemma_hex_digit(d: nat)
    requires
        d < 16,
    ensures
        is_hex(hex_digit(d as int)),
        hex_val(hex_digit(d as int)) == d,
{
}

proof fn lemma_enc_nat_shape(n: nat, w: nat)
    ensures
        enc_nat(n, w).len() == w,
        hex_seq_ok(enc_nat(n, w)),
    decreases w,
{
    if w > 0 {
        lemma_enc_nat_shape(n / 16, (w - 1) as nat);
        lemma_hex_digit((n % 16) as nat);
        assert forall|i: int| 0 <= i < enc_nat(n, w).len() implies is_hex(enc_nat(n, w)[i]) by {
            if i < w - 1 {
                assert(enc_nat(n, w)[i] == enc_nat(n / 16, (w - 1) as nat)[i]);
            }
        }
    }
}

proof fn lemma_parse_enc(n: nat, w: nat)
    requires
        n < pow16(w),
    ensures
        parse_nat(enc_nat(n, w)) == n,
    decreases w,
{
    if w == 0 {
        assert(n == 0);
    } else {
        let rest = enc_nat(n / 16, (w - 1) as nat);
        let d = hex_digit((n % 16) as int);
        lemma_enc_nat_shape(n / 16, (w - 1) as nat);
        assert(rest.push(d).drop_last() =~= rest);
        assert(rest.push(d).last() == d);
        assert(n / 16 < pow16((w - 1) as nat)) by {
            assert(n < 16 * pow16((w - 1) as nat));
            assert(n / 16 < pow16((w - 1) as nat)) by (nonlinear_arith)
                requires n < 16 * pow16((w - 1) as nat),
            ;
        }
        lemma_parse_enc(n / 16, (w - 1) as nat);
        lemma_hex_digit((n % 16) as nat);
        assert(parse_nat(enc_nat(n, w)) == (n / 16) * 16 + (n % 16));
        assert((n / 16) * 16 + (n % 16) == n) by (nonlinear_arith);
    }
}

proof fn lemma_parse_bound(s: Seq<u8>)
    ensures
        parse_nat(s) < pow16(s.len() as nat),
    decreases s.len(),
{
    if s.len() > 0 {
        lemma_parse_bound(s.drop_last());
        assert(hex_val(s.last()) <= 15);
        assert(parse_nat(s.drop_last()) * 16 + 15 < 16 * pow16((s.len() - 1) as nat)) by (nonlinear_arith)
            requires parse_nat(s.drop_last()) < pow16((s.len() - 1) as nat),
        ;
    }
}

proof fn lemma_pow16_32()
    ensures
        pow16(2) == 0x100,
        pow16(4) == 0x10000,
        pow16(16) == 0x10000000000000000,
        pow16(32) == 0x100000000000000000000000000000000,
{
    assert(pow16(0) == 0x1);
    assert(pow16(1) == 0x10);
    assert(pow16(2) == 0x100);
    assert(pow16(3) == 0x1000);
    assert(pow16(4) == 0x10000);
    assert(pow16(5) == 0x100000);
    assert(pow16(6) == 0x1000000);
    assert(pow16(7) == 0x10000000);
    assert(pow16(8) == 0x100000000);
    assert(pow16(9) == 0x1000000000);
    assert(pow16(10) == 0x10000000000);
    assert(pow16(11) == 0x100000000000);
    assert(pow16(12) == 0x1000000000000);
    assert(pow16(13) == 0x10000000000000);
    assert(pow16(14) == 0x100000000000000);
    assert(pow16(15) == 0x1000000000000000);
    assert(pow16(16) == 0x10000000000000000);
    assert(pow16(17) == 0x100000000000000000);
    assert(pow16(18) == 0x1000000000000000000);
    assert(pow16(19) == 0x10000000000000000000);
    assert(pow16(20) == 0x100000000000000000000);
    assert(pow16(21) == 0x1000000000000000000000);
    assert(pow16(22) == 0x10000000000000000000000);
    assert(pow16(23) == 0x100000000000000000000000);
    assert(pow16(24) == 0x1000000000000000000000000);
    assert(pow16(25) == 0x10000000000000000000000000);
    assert(pow16(26) == 0x100000000000000000000000000);
    assert(pow16(27) == 0x1000000000000000000000000000);
    assert(pow16(28) == 0x10000000000000000000000000000);
    assert(pow16(29) == 0x100000000000000000000000000000);
    assert(pow16(30) == 0x1000000000000000000000000000000);
    assert(pow16(31) == 0x10000000000000000000000000000000);
    assert(pow16(32) == 0x100000000000000000000000000000000);
}

// ------------------------------------------------------------------
// Spec-level encoders.
// ------------------------------------------------------------------

pub open spec fn enc_bool(b: bool) -> Seq<u8> {
    seq![if b { 49u8 } else { 48u8 }]
}

pub open spec fn state_tag(s: ArtilleryMemberState) -> u8 {
    match s {
        ArtilleryMemberState::Alive => 97,
        ArtilleryMemberState::Suspect => 115,
        ArtilleryMemberState::Down => 100,
        ArtilleryMemberState::Left => 108,
    }
}

pub open spec fn enc_addr(a: NodeAddr) -> Seq<u8> {
    enc_bool(a.is_v6) + enc_nat(a.ip as nat, 32) + enc_nat(a.port as nat, 4)
}

pub open spec fn enc_opt_addr(a: Option<NodeAddr>) -> Seq<u8> {
    match a {
        None => seq![48u8],
        Some(x) => seq![49u8] + enc_addr(x),
    }
}

pub open spec fn enc_member(m: ArtilleryMember) -> Seq<u8> {
    enc_nat(m.host_key as nat, 32) + enc_opt_addr(m.remote_host) + enc_nat(m.incarnation as nat, 16)
        + seq![state_tag(m.state)] + enc_nat(m.last_state_change as nat, 16)
}

pub open spec fn enc_request(r: Request) -> Seq<u8> {
    match r {
        Request::Ping => seq![80u8],
        Request::Ack => seq![65u8],
        Request::PingRequest(a) => seq![82u8] + enc_addr(a),
        Request::AckHost(m) => seq![72u8] + enc_member(m),
    }
}

pub open spec fn enc_key_items(k: Seq<u8>) -> Seq<u8>
    decreases k.len(),
{
    if k.len() == 0 { Seq::empty() } else { enc_nat(k[0] as nat, 2) + enc_key_items(k.skip(1)) }
}

pub open spec fn enc_change_items(cs: Seq<ArtilleryStateChange>) -> Seq<u8>
    decreases cs.len(),
{
    if cs.len() == 0 { Seq::empty() } else { enc_member(cs[0].member) + enc_change_items(cs.skip(1)) }
}

/// The full wire image of a message record.
pub open spec fn spec_encode(m: MessageModel) -> Seq<u8> {
    enc_nat(m.sender as nat, 32) + enc_nat(m.cluster_key.len() as nat, 4) + enc_key_items(m.cluster_key)
        + enc_request(m.request) + enc_nat(m.state_changes.len() as nat, 4)
        + enc_change_items(m.state_changes)
}

// ------------------------------------------------------------------
// Spec-level decoders.  Each consumes a prefix and yields the remainder.
// ------------------------------------------------------------------

pub open spec fn sdec_nat(s: Seq<u8>, w: nat) -> Option<(nat, Seq<u8>)> {
    if s.len() >= w && hex_seq_ok(s.take(w as int)) {
        Some((parse_nat(s.take(w as int)), s.skip(w as int)))
    } else {
        None
    }
}

pub open spec fn sdec_byte(s: Seq<u8>) -> Option<(u8, Seq<u8>)> {
    if s.len() >= 1 { Some((s[0], s.skip(1))) } else { None }
}

pub open spec fn sdec_bool(s: Seq<u8>) -> Option<(bool, Seq<u8>)> {
    match sdec_byte(s) {
        None => None,
        Some((c, s1)) => if c == 48 { Some((false, s1)) } else if c == 49 { Some((true, s1)) } else { None },
    }
}

pub open spec fn sdec_state(s: Seq<u8>) -> Option<(ArtilleryMemberState, Seq<u8>)> {
    match sdec_byte(s) {
        None => None,
        Some((c, s1)) => {
            if c == 97 { Some((ArtilleryMemberState::Alive, s1)) }
            else if c == 115 { Some((ArtilleryMemberState::Suspect, s1)) }
            else if c == 100 { Some((ArtilleryMemberState::Down, s1)) }
            else if c == 108 { Some((ArtilleryMemberState::Left, s1)) }
            else { None }
        },
    }
}

pub open spec fn sdec_addr(s: Seq<u8>) -> Option<(NodeAddr, Seq<u8>)> {
    match sdec_bool(s) {
        None => None,
        Some((is_v6, s1)) => match sdec_nat(s1, 32) {
            None => None,
            Some((ip, s2)) => match sdec_nat(s2, 4) {
                None => None,
                Some((port, s3)) => Some((NodeAddr { ip: ip as u128, port: port as u16, is_v6 }, s3)),
            },
        },
    }
}

pub open spec fn sdec_opt_addr(s: Seq<u8>) -> Option<(Option<NodeAddr>, Seq<u8>)> {
    match sdec_bool(s) {
        None => None,
        Some((present, s1)) => {
            if present {
                match sdec_addr(s1) {
                    None => None,
                    Some((a, s2)) => Some((Some(a), s2)),
                }
            } else {
                Some((None, s1))
            }
        },
    }
}

pub open spec fn sdec_member(s: Seq<u8>) -> Option<(ArtilleryMember, Seq<u8>)> {
    match sdec_nat(s, 32) {
        None => None,
        Some((host_key, s1)) => match sdec_opt_addr(s1) {
            None => None,
            Some((remote_host, s2)) => match sdec_nat(s2, 16) {
                None => None,
                Some((incarnation, s3)) => match sdec_state(s3) {
                    None => None,
                    Some((state, s4)) => match sdec_nat(s4, 16) {
                        None => None,
                        Some((last_state_change, s5)) => Some((
                            ArtilleryMember {
                                host_key: host_key as u128,
                                remote_host,
                                incarnation: incarnation as u64,
                                state,
                                last_state_change: last_state_change as u64,
                            },
                            s5,
                        )),
                    },
                },
            },
        },
    }
}

pub open spec fn sdec_request(s: Seq<u8>) -> Option<(Request, Seq<u8>)> {
    match sdec_byte(s) {
        None => None,
        Some((c, s1)) => {
            if c == 80 { Some((Request::Ping, s1)) }
            else if c == 65 { Some((Request::Ack, s1)) }
            else if c == 82 {
                match sdec_addr(s1) {
                    None => None,
                    Some((a, s2)) => Some((Request::PingRequest(a), s2)),
                }
            } else if c == 72 {
                match sdec_member(s1) {
                    None => None,
                    Some((m, s2)) => Some((Request::AckHost(m), s2)),
                }
            } else { None }
        },
    }
}

pub open spec fn sdec_key_items(s: Seq<u8>, n: nat) -> Option<(Seq<u8>, Seq<u8>)>
    decreases n,
{
    if n == 0 {
        Some((Seq::empty(), s))
    } else {
        match sdec_nat(s, 2) {
            None => None,
            Some((b, s1)) => match sdec_key_items(s1, (n - 1) as nat) {
                None => None,
                Some((rest, s2)) => Some((seq![b as u8] + rest, s2)),
            },
        }
    }
}

pub open spec fn sdec_change_items(s: Seq<u8>, n: nat) -> Option<(Seq<ArtilleryStateChange>, Seq<u8>)>
    decreases n,
{
    if n == 0 {
        Some((Seq::empty(), s))
    } else {
        match sdec_member(s) {
            None => None,
            Some((m, s1)) => match sdec_change_items(s1, (n - 1) as nat) {
                None => None,
                Some((rest, s2)) => Some((seq![ArtilleryStateChange { member: m }] + rest, s2)),
            },
        }
    }
}

/// Decoding of a whole datagram: the record, with nothing left over.
pub open spec fn spec_decode(s: Seq<u8>) -> Option<MessageModel> {
    match sdec_nat(s, 32) {
        None => None,
        Some((sender, s1)) => match sdec_nat(s1, 4) {
            None => None,
            Some((klen, s2)) => match sdec_key_items(s2, klen) {
                None => None,
                Some((cluster_key, s3)) => match sdec_request(s3) {
                    None => None,
                    Some((request, s4)) => match sdec_nat(s4, 4) {
                        None => None,
                        Some((clen, s5)) => match sdec_change_items(s5, clen) {
                            None => None,
                            Some((state_changes, s6)) => {
                                if s6.len() == 0 {
                                    Some(MessageModel {
                                        sender: sender as u128,
                                        cluster_key,
                                        request,
                                        state_changes,
                                    })
                                } else {
                                    None
                                }
                            },
                        },
                    },
                },
            },
        },
    }
}

// ------------------------------------------------------------------
// Round trip: decoding what was encoded yields the record back.
// ------------------------------------------------------------------

proof fn lemma_rt_nat(n: nat, w: nat, rest: Seq<u8>)
    requires
        n < pow16(w),
    ensures
        sdec_nat(enc_nat(n, w) + rest, w) == Some((n, rest)),
{
    lemma_enc_nat_shape(n, w);
    lemma_parse_enc(n, w);
    let s = enc_nat(n, w) + rest;
    assert(s.take(w as int) =~= enc_nat(n, w));
    assert(s.skip(w as int) =~= rest);
}

proof fn lemma_rt_byte(c: u8, rest: Seq<u8>)
    ensures
        sdec_byte(seq![c] + rest) == Some((c, rest)),
{
    let s = seq![c] + rest;
    assert(s[0] == c);
    assert(s.skip(1) =~= rest);
}

proof fn lemma_rt_bool(b: bool, rest: Seq<u8>)
    ensures
        sdec_bool(enc_bool(b) + rest) == Some((b, rest)),
{
    lemma_rt_byte(if b { 49u8 } else { 48u8 }, rest);
}

proof fn lemma_rt_state(st: ArtilleryMemberState, rest: Seq<u8>)
    ensures
        sdec_state(seq![state_tag(st)] + rest) == Some((st, rest)),
{
    lemma_rt_byte(state_tag(st), rest);
}

proof fn lemma_rt_addr(a: NodeAddr, rest: Seq<u8>)
    ensures
        sdec_addr(enc_addr(a) + rest) == Some((a, rest)),
{
    lemma_pow16_32();
    let e_ip = enc_nat(a.ip as nat, 32);
    let e_port = enc_nat(a.port as nat, 4);
    assert(enc_addr(a) + rest =~= enc_bool(a.is_v6) + (e_ip + (e_port + rest)));
    lemma_rt_bool(a.is_v6, e_ip + (e_port + rest));
    lemma_rt_nat(a.ip as nat, 32, e_port + rest);
    lemma_rt_nat(a.port as nat, 4, rest);
}

proof fn lemma_rt_opt_addr(a: Option<NodeAddr>, rest: Seq<u8>)
    ensures
        sdec_opt_addr(enc_opt_addr(a) + rest) == Some((a, rest)),
{
    match a {
        None => {
            assert(enc_opt_addr(a) + rest =~= enc_bool(false) + rest);
            lemma_rt_bool(false, rest);
        },
        Some(x) => {
            assert(enc_opt_addr(a) + rest =~= enc_bool(true) + (enc_addr(x) + rest));
            lemma_rt_bool(true, enc_addr(x) + rest);
            lemma_rt_addr(x, rest);
        },
    }
}

proof fn lemma_rt_member(m: ArtilleryMember, rest: Seq<u8>)
    ensures
        sdec_member(enc_member(m) + rest) == Some((m, rest)),
{
    lemma_pow16_32();
    let e_hk = enc_nat(m.host_key as nat, 32);
    let e_rh = enc_opt_addr(m.remote_host);
    let e_inc = enc_nat(m.incarnation as nat, 16);
    let e_st = seq![state_tag(m.state)];
    let e_ts = enc_nat(m.last_state_change as nat, 16);
    assert(enc_member(m) + rest =~= e_hk + (e_rh + (e_inc + (e_st + (e_ts + rest)))));
    lemma_rt_nat(m.host_key as nat, 32, e_rh + (e_inc + (e_st + (e_ts + rest))));
    lemma_rt_opt_addr(m.remote_host, e_inc + (e_st + (e_ts + rest)));
    lemma_rt_nat(m.incarnation as nat, 16, e_st + (e_ts + rest));
    lemma_rt_state(m.state, e_ts + rest);
    lemma_rt_nat(m.last_state_change as nat, 16, rest);
}

proof fn lemma_rt_request(r: Request, rest: Seq<u8>)
    ensures
        sdec_request(enc_request(r) + rest) == Some((r, rest)),
{
    match r {
        Request::Ping => { lemma_rt_byte(80, rest); },
        Request::Ack => { lemma_rt_byte(65, rest); },
        Request::PingRequest(a) => {
            assert(enc_request(r) + rest =~= seq![82u8] + (enc_addr(a) + rest));
            lemma_rt_byte(82, enc_addr(a) + rest);
            lemma_rt_addr(a, rest);
        },
        Request::AckHost(m) => {
            assert(enc_request(r) + rest =~= seq![72u8] + (enc_member(m) + rest));
            lemma_rt_byte(72, enc_member(m) + rest);
            lemma_rt_member(m, rest);
        },
    }
}

proof fn lemma_rt_key_items(k: Seq<u8>, rest: Seq<u8>)
    ensures
        sdec_key_items(enc_key_items(k) + rest, k.len() as nat) == Some((k, rest)),
    decreases k.len(),
{
    lemma_pow16_32();
    if k.len() == 0 {
        assert(enc_key_items(k) + rest =~= rest);
        assert(sdec_key_items(rest, 0) == Some((Seq::<u8>::empty(), rest)));
        assert(k =~= Seq::<u8>::empty());
    } else {
        let tail = k.skip(1);
        assert(enc_key_items(k) + rest =~= enc_nat(k[0] as nat, 2) + (enc_key_items(tail) + rest));
        lemma_rt_nat(k[0] as nat, 2, enc_key_items(tail) + rest);
        lemma_rt_key_items(tail, rest);
        assert(seq![k[0]] + tail =~= k);
    }
}

proof fn lemma_rt_change_items(cs: Seq<ArtilleryStateChange>, rest: Seq<u8>)
    ensures
        sdec_change_items(enc_change_items(cs) + rest, cs.len() as nat) == Some((cs, rest)),
    decreases cs.len(),
{
    if cs.len() == 0 {
        assert(enc_change_items(cs) + rest =~= rest);
        assert(cs =~= Seq::<ArtilleryStateChange>::empty());
    } else {
        let tail = cs.skip(1);
        assert(enc_change_items(cs) + rest =~= enc_member(cs[0].member) + (enc_change_items(tail) + rest));
        lemma_rt_member(cs[0].member, enc_change_items(tail) + rest);
        lemma_rt_change_items(tail, rest);
        assert(cs[0] == (ArtilleryStateChange { member: cs[0].member }));
        assert(seq![cs[0]] + tail =~= cs);
    }
}

/// Round trip: every well-formed record decodes back from its own encoding.
pub proof fn lemma_codec_round_trip(m: MessageModel)
    requires
        wf_message(m),
    ensures
        spec_decode(spec_encode(m)) == Some(m),
{
    lemma_pow16_32();
    let e_sender = enc_nat(m.sender as nat, 32);
    let e_klen = enc_nat(m.cluster_key.len() as nat, 4);
    let e_key = enc_key_items(m.cluster_key);
    let e_req = enc_request(m.request);
    let e_clen = enc_nat(m.state_changes.len() as nat, 4);
    let e_cs = enc_change_items(m.state_changes);
    let empty = Seq::<u8>::empty();
    assert(spec_encode(m) =~= e_sender + (e_klen + (e_key + (e_req + (e_clen + (e_cs + empty))))));
    lemma_rt_nat(m.sender as nat, 32, e_klen + (e_key + (e_req + (e_clen + (e_cs + empty)))));
    lemma_rt_nat(m.cluster_key.len() as nat, 4, e_key + (e_req + (e_clen + (e_cs + empty))));
    lemma_rt_key_items(m.cluster_key, e_req + (e_clen + (e_cs + empty)));
    lemma_rt_request(m.request, e_clen + (e_cs + empty));
    lemma_rt_nat(m.state_changes.len() as nat, 4, e_cs + empty);
    lemma_rt_change_items(m.state_changes, empty);
}

// ------------------------------------------------------------------
// Executable encoder.
// ------------------------------------------------------------------

proof fn lemma_pow16_pos(w: nat)
    ensures
        pow16(w) >= 1,
    decreases w,
{
    if w > 0 {
        lemma_pow16_pos((w - 1) as nat);
    }
}

proof fn lemma_pow16_le(a: nat, b: nat)
    requires
        a <= b,
    ensures
        pow16(a) <= pow16(b),
    decreases b,
{
    if a < b {
        lemma_pow16_le(a, (b - 1) as nat);
        lemma_pow16_pos((b - 1) as nat);
    }
}

fn hex_digit_x(d: u8) -> (c: u8)
    requires
        d < 16,
    ensures
        c == hex_digit(d as int),
{
    if d < 10 { 48 + d } else { 87 + d }
}

fn push_hex(out: &mut Vec<u8>, n: u128, w: usize)
    ensures
        final (out)@ == old(out)@ + enc_nat(n as nat, w as nat),
    decreases w,
{
    if w == 0 {
        assert(final (out)@ =~= old(out)@ + enc_nat(n as nat, 0));
    } else {
        push_hex(out, n / 16, w - 1);
        let d = hex_digit_x((n % 16) as u8);
        out.push(d);
        assert(old(out)@ + enc_nat((n / 16) as nat, (w - 1) as nat) + seq![d] =~= old(out)@ + enc_nat(
            n as nat,
            w as nat,
        ));
    }
}

fn push_bool(out: &mut Vec<u8>, b: bool)
    ensures
        final (out)@ == old(out)@ + enc_bool(b),
{
    out.push(if b { 49 } else { 48 });
    assert(final (out)@ =~= old(out)@ + enc_bool(b));
}

fn push_addr(out: &mut Vec<u8>, a: &NodeAddr)
    ensures
        final (out)@ == old(out)@ + enc_addr(*a),
{
    push_bool(out, a.is_v6);
    push_hex(out, a.ip, 32);
    push_hex(out, a.port as u128, 4);
    assert(final (out)@ =~= old(out)@ + enc_addr(*a));
}

fn push_opt_addr(out: &mut Vec<u8>, a: &Option<NodeAddr>)
    ensures
        final (out)@ == old(out)@ + enc_opt_addr(*a),
{
    match a {
        None => {
            out.push(48);
            assert(final (out)@ =~= old(out)@ + enc_opt_addr(*a));
        },
        Some(x) => {
            out.push(49);
            push_addr(out, x);
            assert(final (out)@ =~= old(out)@ + enc_opt_addr(*a));
        },
    }
}

fn state_tag_x(s: ArtilleryMemberState) -> (c: u8)
    ensures
        c == state_tag(s),
{
    match s {
        ArtilleryMemberState::Alive => 97,
        ArtilleryMemberState::Suspect => 115,
        ArtilleryMemberState::Down => 100,
        ArtilleryMemberState::Left => 108,
    }
}

fn push_member(out: &mut Vec<u8>, m: &ArtilleryMember)
    ensures
        final (out)@ == old(out)@ + enc_member(*m),
{
    push_hex(out, m.host_key, 32);
    push_opt_addr(out, &m.remote_host);
    push_hex(out, m.incarnation as u128, 16);
    let t = state_tag_x(m.state);
    out.push(t);
    push_hex(out, m.last_state_change as u128, 16);
    assert(final (out)@ =~= old(out)@ + enc_member(*m));
}

fn push_request(out: &mut Vec<u8>, r: &Request)
    ensures
        final (out)@ == old(out)@ + enc_request(*r),
{
    match r {
        Request::Ping => {
            out.push(80);
            assert(final (out)@ =~= old(out)@ + enc_request(*r));
        },
        Request::Ack => {
            out.push(65);
            assert(final (out)@ =~= old(out)@ + enc_request(*r));
        },
        Request::PingRequest(a) => {
            out.push(82);
            push_addr(out, a);
            assert(final (out)@ =~= old(out)@ + enc_request(*r));
        },
        Request::AckHost(m) => {
            out.push(72);
            push_member(out, m);
            assert(final (out)@ =~= old(out)@ + enc_request(*r));
        },
    }
}

proof fn lemma_enc_key_snoc(s: Seq<u8>, x: u8)
    ensures
        enc_key_items(s.push(x)) == enc_key_items(s) + enc_nat(x as nat, 2),
    decreases s.len(),
{
    if s.len() == 0 {
        assert(s.push(x)[0] == x);
        assert(s.push(x).skip(1) =~= Seq::<u8>::empty());
        assert(enc_key_items(Seq::<u8>::empty()) == Seq::<u8>::empty());
        assert(enc_key_items(s.push(x)) == enc_nat(x as nat, 2) + enc_key_items(s.push(x).skip(1)));
        assert(enc_key_items(s.push(x)) =~= enc_key_items(s) + enc_nat(x as nat, 2));
    } else {
        assert(s.push(x)[0] == s[0]);
        assert(s.push(x).skip(1) =~= s.skip(1).push(x));
        lemma_enc_key_snoc(s.skip(1), x);
        assert(enc_nat(s[0] as nat, 2) + (enc_key_items(s.skip(1)) + enc_nat(x as nat, 2)) =~= (
        enc_nat(s[0] as nat, 2) + enc_key_items(s.skip(1))) + enc_nat(x as nat, 2));
    }
}

proof fn lemma_enc_change_snoc(s: Seq<ArtilleryStateChange>, x: ArtilleryStateChange)
    ensures
        enc_change_items(s.push(x)) == enc_change_items(s) + enc_member(x.member),
    decreases s.len(),
{
    if s.len() == 0 {
        assert(s.push(x)[0] == x);
        assert(s.push(x).skip(1) =~= Seq::<ArtilleryStateChange>::empty());
        assert(enc_change_items(Seq::<ArtilleryStateChange>::empty()) == Seq::<u8>::empty());
        assert(enc_change_items(s.push(x)) == enc_member(x.member) + enc_change_items(
            s.push(x).skip(1),
        ));
        assert(enc_change_items(s.push(x)) =~= enc_change_items(s) + enc_member(x.member));
    } else {
        assert(s.push(x)[0] == s[0]);
        assert(s.push(x).skip(1) =~= s.skip(1).push(x));
        lemma_enc_change_snoc(s.skip(1), x);
        assert(enc_member(s[0].member) + (enc_change_items(s.skip(1)) + enc_member(x.member)) =~= (
        enc_member(s[0].member) + enc_change_items(s.skip(1))) + enc_member(x.member));
    }
}

fn push_key_items(out: &mut Vec<u8>, k: &Vec<u8>)
    ensures
        final (out)@ == old(out)@ + enc_key_items(k@),
{
    let ghost start = out@;
    let mut i: usize = 0;
    while i < k.len()
        invariant
            i <= k.len(),
            out@ == start + enc_key_items(k@.take(i as int)),
        decreases k.len() - i,
    {
        proof {
            assert(k@.take(i + 1) =~= k@.take(i as int).push(k@[i as int]));
            lemma_enc_key_snoc(k@.take(i as int), k@[i as int]);
        }
        push_hex(out, k[i] as u128, 2);
        proof {
            assert(start + enc_key_items(k@.take(i as int)) + enc_nat(k@[i as int] as nat, 2) =~= start
                + enc_key_items(k@.take(i + 1)));
        }
        i += 1;
    }
    proof {
        assert(k@.take(k@.len() as int) =~= k@);
    }
}

fn push_change_items(out: &mut Vec<u8>, cs: &Vec<ArtilleryStateChange>)
    ensures
        final (out)@ == old(out)@ + enc_change_items(cs@),
{
    let ghost start = out@;
    let mut i: usize = 0;
    while i < cs.len()
        invariant
            i <= cs.len(),
            out@ == start + enc_change_items(cs@.take(i as int)),
        decreases cs.len() - i,
    {
        proof {
            assert(cs@.take(i + 1) =~= cs@.take(i as int).push(cs@[i as int]));
            lemma_enc_change_snoc(cs@.take(i as int), cs@[i as int]);
        }
        let c = cs[i];
        push_member(out, &c.member);
        proof {
            assert(start + enc_change_items(cs@.take(i as int)) + enc_member(cs@[i as int].member)
                =~= start + enc_change_items(cs@.take(i + 1)));
        }
        i += 1;
    }
    proof {
        assert(cs@.take(cs@.len() as int) =~= cs@);
    }
}

// ------------------------------------------------------------------
// Executable decoder.
// ------------------------------------------------------------------

fn parse_hex(buf: &Vec<u8>, p: usize, w: usize) -> (r: Option<(u128, usize)>)
    requires
        p <= buf.len(),
        w <= 32,
    ensures
        match r {
            None => sdec_nat(buf@.skip(p as int), w as nat) is None,
            Some(v) => {
                &&& v.1 == p + w
                &&& v.1 <= buf.len()
                &&& (v.0 as nat) < pow16(w as nat)
                &&& sdec_nat(buf@.skip(p as int), w as nat) == Some(
                    ((v.0 as nat), buf@.skip(v.1 as int)),
                )
            },
        },
{
    let ghost s = buf@.skip(p as int);
    if buf.len() - p < w {
        return None;
    }
    let mut acc: u128 = 0;
    let mut i: usize = 0;
    while i < w
        invariant
            i <= w,
            w <= 32,
            p + w <= buf.len(),
            s == buf@.skip(p as int),
            s.len() == buf.len() - p,
            hex_seq_ok(s.take(i as int)),
            acc as nat == parse_nat(s.take(i as int)),
            (acc as nat) < pow16(i as nat),
        decreases w - i,
    {
        let c = buf[p + i];
        proof {
            assert(s[i as int] == buf@[(p + i) as int]);
        }
        let v: u8;
        if 48 <= c && c <= 57 {
            v = c - 48;
        } else if 97 <= c && c <= 102 {
            v = c - 87;
        } else {
            proof {
                assert(s.take(w as int)[i as int] == s[i as int]);
                assert(!is_hex(s[i as int]));
            }
            return None;
        }
        proof {
            lemma_pow16_le((i + 1) as nat, 32);
            lemma_pow16_32();
            assert(pow16((i + 1) as nat) == 16 * pow16(i as nat));
            assert(16 * (acc as nat) + 15 < 16 * pow16(i as nat)) by (nonlinear_arith)
                requires
                    (acc as nat) < pow16(i as nat),
            ;
        }
        let new_acc = acc * 16 + (v as u128);
        proof {
            assert(s.take((i + 1) as int).drop_last() =~= s.take(i as int));
            assert(s.take((i + 1) as int).last() == s[i as int]);
            assert(hex_val(c) == v as nat);
            assert(new_acc as nat == parse_nat(s.take((i + 1) as int)));
            assert forall|j: int| 0 <= j < i + 1 implies #[trigger] is_hex(s.take((i + 1) as int)[j]) by {
                if j < i {
                    assert(s.take((i + 1) as int)[j] == s.take(i as int)[j]);
                }
            }
        }
        acc = new_acc;
        i += 1;
    }
    proof {
        assert(buf@.skip((p + w) as int) =~= s.skip(w as int));
    }
    Some((acc, p + w))
}

fn read_byte(buf: &Vec<u8>, p: usize) -> (r: Option<(u8, usize)>)
    requires
        p <= buf.len(),
    ensures
        match r {
            None => sdec_byte(buf@.skip(p as int)) is None,
            Some(v) => {
                &&& v.1 == p + 1
                &&& v.1 <= buf.len()
                &&& sdec_byte(buf@.skip(p as int)) == Some((v.0, buf@.skip(v.1 as int)))
            },
        },
{
    if p < buf.len() {
        let c = buf[p];
        proof {
            assert(buf@.skip(p as int)[0] == buf@[p as int]);
            assert(buf@.skip(p as int).skip(1) =~= buf@.skip((p + 1) as int));
        }
        Some((c, p + 1))
    } else {
        None
    }
}

fn dec_bool(buf: &Vec<u8>, p: usize) -> (r: Option<(bool, usize)>)
    requires
        p <= buf.len(),
    ensures
        match r {
            None => sdec_bool(buf@.skip(p as int)) is None,
            Some(v) => {
                &&& v.1 <= buf.len()
                &&& sdec_bool(buf@.skip(p as int)) == Some((v.0, buf@.skip(v.1 as int)))
            },
        },
{
    match read_byte(buf, p) {
        None => None,
        Some((c, p1)) => {
            if c == 48 {
                Some((false, p1))
            } else if c == 49 {
                Some((true, p1))
            } else {
                None
            }
        },
    }
}

fn dec_state(buf: &Vec<u8>, p: usize) -> (r: Option<(ArtilleryMemberState, usize)>)
    requires
        p <= buf.len(),
    ensures
        match r {
            None => sdec_state(buf@.skip(p as int)) is None,
            Some(v) => {
                &&& v.1 <= buf.len()
                &&& sdec_state(buf@.skip(p as int)) == Some((v.0, buf@.skip(v.1 as int)))
            },
        },
{
    match read_byte(buf, p) {
        None => None,
        Some((c, p1)) => {
            if c == 97 {
                Some((ArtilleryMemberState::Alive, p1))
            } else if c == 115 {
                Some((ArtilleryMemberState::Suspect, p1))
            } else if c == 100 {
                Some((ArtilleryMemberState::Down, p1))
            } else if c == 108 {
                Some((ArtilleryMemberState::Left, p1))
            } else {
                None
            }
        },
    }
}

fn dec_addr(buf: &Vec<u8>, p: usize) -> (r: Option<(NodeAddr, usize)>)
    requires
        p <= buf.len(),
    ensures
        match r {
            None => sdec_addr(buf@.skip(p as int)) is None,
            Some(v) => {
                &&& v.1 <= buf.len()
                &&& sdec_addr(buf@.skip(p as int)) == Some((v.0, buf@.skip(v.1 as int)))
            },
        },
{
    let (is_v6, p1) = match dec_bool(buf, p) {
        Some(x) => x,
        None => { return None; },
    };
    let (ip, p2) = match parse_hex(buf, p1, 32) {
        Some(x) => x,
        None => { return None; },
    };
    let (port, p3) = match parse_hex(buf, p2, 4) {
        Some(x) => x,
        None => { return None; },
    };
    proof {
        lemma_pow16_32();
    }
    Some((NodeAddr { ip, port: port as u16, is_v6 }, p3))
}

fn dec_opt_addr(buf: &Vec<u8>, p: usize) -> (r: Option<(Option<NodeAddr>, usize)>)
    requires
        p <= buf.len(),
    ensures
        match r {
            None => sdec_opt_addr(buf@.skip(p as int)) is None,
            Some(v) => {
                &&& v.1 <= buf.len()
                &&& sdec_opt_addr(buf@.skip(p as int)) == Some((v.0, buf@.skip(v.1 as int)))
            },
        },
{
    match dec_bool(buf, p) {
        None => None,
        Some((present, p1)) => {
            if present {
                match dec_addr(buf, p1) {
                    None => None,
                    Some((a, p2)) => Some((Some(a), p2)),
                }
            } else {
                Some((None, p1))
            }
        },
    }
}

fn dec_member(buf: &Vec<u8>, p: usize) -> (r: Option<(ArtilleryMember, usize)>)
    requires
        p <= buf.len(),
    ensures
        match r {
            None => sdec_member(buf@.skip(p as int)) is None,
            Some(v) => {
                &&& v.1 <= buf.len()
                &&& sdec_member(buf@.skip(p as int)) == Some((v.0, buf@.skip(v.1 as int)))
            },
        },
{
    let (host_key, p1) = match parse_hex(buf, p, 32) {
        Some(x) => x,
        None => { return None; },
    };
    let (remote_host, p2) = match dec_opt_addr(buf, p1) {
        Some(x) => x,
        None => { return None; },
    };
    let (incarnation, p3) = match parse_hex(buf, p2, 16) {
        Some(x) => x,
        None => { return None; },
    };
    let (state, p4) = match dec_state(buf, p3) {
        Some(x) => x,
        None => { return None; },
    };
    let (last_state_change, p5) = match parse_hex(buf, p4, 16) {
        Some(x) => x,
        None => { return None; },
    };
    proof {
        lemma_pow16_32();
    }
    Some((
        ArtilleryMember {
            host_key,
            remote_host,
            incarnation: incarnation as u64,
            state,
            last_state_change: last_state_change as u64,
        },
        p5,
    ))
}

fn dec_request(buf: &Vec<u8>, p: usize) -> (r: Option<(Request, usize)>)
    requires
        p <= buf.len(),
    ensures
        match r {
            None => sdec_request(buf@.skip(p as int)) is None,
            Some(v) => {
                &&& v.1 <= buf.len()
                &&& sdec_request(buf@.skip(p as int)) == Some((v.0, buf@.skip(v.1 as int)))
            },
        },
{
    match read_byte(buf, p) {
        None => None,
        Some((c, p1)) => {
            if c == 80 {
                Some((Request::Ping, p1))
            } else if c == 65 {
                Some((Request::Ack, p1))
            } else if c == 82 {
                match dec_addr(buf, p1) {
                    None => None,
                    Some((a, p2)) => Some((Request::PingRequest(a), p2)),
                }
            } else if c == 72 {
                match dec_member(buf, p1) {
                    None => None,
                    Some((m, p2)) => Some((Request::AckHost(m), p2)),
                }
            } else {
                None
            }
        },
    }
}

fn dec_key_items(buf: &Vec<u8>, p: usize, n: usize) -> (r: Option<(Vec<u8>, usize)>)
    requires
        p <= buf.len(),
    ensures
        match r {
            None => sdec_key_items(buf@.skip(p as int), n as nat) is None,
            Some(v) => {
                &&& v.1 <= buf.len()
                &&& v.0.len() == n
                &&& sdec_key_items(buf@.skip(p as int), n as nat) == Some(
                    (v.0@, buf@.skip(v.1 as int)),
                )
            },
        },
{
    let ghost s0 = buf@.skip(p as int);
    let mut out: Vec<u8> = Vec::new();
    let mut cur: usize = p;
    let mut i: usize = 0;
    while i < n
        invariant
            i <= n,
            cur <= buf.len(),
            out@.len() == i,
            s0 == buf@.skip(p as int),
            sdec_key_items(s0, n as nat) == (match sdec_key_items(
                buf@.skip(cur as int),
                (n - i) as nat,
            ) {
                None => None::<(Seq<u8>, Seq<u8>)>,
                Some((rest, sr)) => Some((out@ + rest, sr)),
            }),
        decreases n - i,
    {
        match parse_hex(buf, cur, 2) {
            None => {
                return None;
            },
            Some((b, p2)) => {
                proof {
                    lemma_pow16_32();
                }
                let ghost old_out = out@;
                let ghost old_cur = cur;
                out.push(b as u8);
                cur = p2;
                i += 1;
                proof {
                    let tail2 = sdec_key_items(buf@.skip(cur as int), (n - i) as nat);
                    assert(out@ =~= old_out + seq![b as u8]);
                    assert(sdec_key_items(buf@.skip(old_cur as int), (n - (i - 1)) as nat) == (
                    match tail2 {
                        None => None::<(Seq<u8>, Seq<u8>)>,
                        Some((rest, sr)) => Some((seq![b as u8] + rest, sr)),
                    }));
                    match tail2 {
                        None => {},
                        Some((rest, sr)) => {
                            assert(old_out + (seq![b as u8] + rest) =~= (old_out + seq![b as u8])
                                + rest);
                        },
                    }
                }
            },
        }
    }
    proof {
        assert(out@ + Seq::<u8>::empty() =~= out@);
    }
    Some((out, cur))
}

fn dec_change_items(buf: &Vec<u8>, p: usize, n: usize) -> (r: Option<(
    Vec<ArtilleryStateChange>,
    usize,
)>)
    requires
        p <= buf.len(),
    ensures
        match r {
            None => sdec_change_items(buf@.skip(p as int), n as nat) is None,
            Some(v) => {
                &&& v.1 <= buf.len()
                &&& v.0.len() == n
                &&& sdec_change_items(buf@.skip(p as int), n as nat) == Some(
                    (v.0@, buf@.skip(v.1 as int)),
                )
            },
        },
{
    let ghost s0 = buf@.skip(p as int);
    let mut out: Vec<ArtilleryStateChange> = Vec::new();
    let mut cur: usize = p;
    let mut i: usize = 0;
    while i < n
        invariant
            i <= n,
            cur <= buf.len(),
            out@.len() == i,
            s0 == buf@.skip(p as int),
            sdec_change_items(s0, n as nat) == (match sdec_change_items(
                buf@.skip(cur as int),
                (n - i) as nat,
            ) {
                None => None::<(Seq<ArtilleryStateChange>, Seq<u8>)>,
                Some((rest, sr)) => Some((out@ + rest, sr)),
            }),
        decreases n - i,
    {
        match dec_member(buf, cur) {
            None => {
                return None;
            },
            Some((m, p2)) => {
                let ghost old_out = out@;
                let ghost old_cur = cur;
                out.push(ArtilleryStateChange { member: m });
                cur = p2;
                i += 1;
                proof {
                    let tail2 = sdec_change_items(buf@.skip(cur as int), (n - i) as nat);
                    assert(out@ =~= old_out + seq![ArtilleryStateChange { member: m }]);
                    assert(sdec_change_items(buf@.skip(old_cur as int), (n - (i - 1)) as nat) == (
                    match tail2 {
                        None => None::<(Seq<ArtilleryStateChange>, Seq<u8>)>,
                        Some((rest, sr)) => Some(
                            (seq![ArtilleryStateChange { member: m }] + rest, sr),
                        ),
                    }));
                    match tail2 {
                        None => {},
                        Some((rest, sr)) => {
                            assert(old_out + (seq![ArtilleryStateChange { member: m }] + rest) =~= (
                            old_out + seq![ArtilleryStateChange { member: m }]) + rest);
                        },
                    }
                }
            },
        }
    }
    proof {
        assert(out@ + Seq::<ArtilleryStateChange>::empty() =~= out@);
    }
    Some((out, cur))
}

/// Decodes one datagram.  Succeeds exactly when the bytes are a complete,
/// well-formed wire image; a malformed datagram yields the Decode error.
pub fn decode_message(buf: &Vec<u8>) -> (r: Result<ArtilleryMessage, ArtilleryError>)
    ensures
        match r {
            Ok(m) => spec_decode(buf@) == Some(m@) && wf_message(m@),
            Err(e) => e == ArtilleryError::Decode && spec_decode(buf@) is None,
        },
{
    proof {
        assert(buf@.skip(0) =~= buf@);
    }
    let (sender, p1) = match parse_hex(buf, 0, 32) {
        Some(x) => x,
        None => { return Err(ArtilleryError::Decode); },
    };
    let (klen, p2) = match parse_hex(buf, p1, 4) {
        Some(x) => x,
        None => { return Err(ArtilleryError::Decode); },
    };
    proof {
        lemma_pow16_32();
    }
    let (cluster_key, p3) = match dec_key_items(buf, p2, klen as usize) {
        Some(x) => x,
        None => { return Err(ArtilleryError::Decode); },
    };
    let (request, p4) = match dec_request(buf, p3) {
        Some(x) => x,
        None => { return Err(ArtilleryError::Decode); },
    };
    let (clen, p5) = match parse_hex(buf, p4, 4) {
        Some(x) => x,
        None => { return Err(ArtilleryError::Decode); },
    };
    let (state_changes, p6) = match dec_change_items(buf, p5, clen as usize) {
        Some(x) => x,
        None => { return Err(ArtilleryError::Decode); },
    };
    if p6 != buf.len() {
        proof {
            assert(buf@.skip(p6 as int).len() > 0);
        }
        return Err(ArtilleryError::Decode);
    }
    proof {
        assert(buf@.skip(p6 as int).len() == 0);
    }
    Ok(ArtilleryMessage { sender, cluster_key, request, state_changes })
}

// ------------------------------------------------------------------
// MTU-bounded message building.
// ------------------------------------------------------------------

/// The model of a record assembled from the given parts.
pub open spec fn message_model(
    sender: u128,
    cluster_key: Seq<u8>,
    request: Request,
    state_changes: Seq<ArtilleryStateChange>,
) -> MessageModel {
    MessageModel { sender, cluster_key, request, state_changes }
}

/// Length of the wire image when only the first `i` digest entries ride along.
pub open spec fn encoded_len_at(
    sender: u128,
    cluster_key: Seq<u8>,
    request: Request,
    state_changes: Seq<ArtilleryStateChange>,
    i: int,
) -> int {
    spec_encode(message_model(sender, cluster_key, request, state_changes.take(i))).len() as int
}

/// Copies a byte vector.
pub fn copy_bytes(v: &Vec<u8>) -> (r: Vec<u8>)
    ensures
        r@ == v@,
{
    let mut r: Vec<u8> = Vec::new();
    let mut i: usize = 0;
    while i < v.len()
        invariant
            i <= v.len(),
            r@ == v@.take(i as int),
        decreases v.len() - i,
    {
        r.push(v[i]);
        proof {
            assert(v@.take(i as int).push(v@[i as int]) =~= v@.take(i + 1));
        }
        i += 1;
    }
    proof {
        assert(v@.take(v@.len() as int) =~= v@);
    }
    r
}

/// Copies the first `i` entries of a digest.
pub fn prefix_changes(v: &Vec<ArtilleryStateChange>, n: usize) -> (r: Vec<ArtilleryStateChange>)
    requires
        n <= v.len(),
    ensures
        r@ == v@.take(n as int),
{
    let mut r: Vec<ArtilleryStateChange> = Vec::new();
    let mut i: usize = 0;
    while i < n
        invariant
            i <= n,
            n <= v.len(),
            r@ == v@.take(i as int),
        decreases n - i,
    {
        r.push(v[i]);
        proof {
            assert(v@.take(i as int).push(v@[i as int]) =~= v@.take(i + 1));
        }
        i += 1;
    }
    r
}

/// Assembles the outbound record, truncating the digest to the largest
/// prefix whose encoding fits strictly under the MTU.  When not even the
/// empty digest fits, the full record is returned anyway: the caller's
/// invariant has already failed and it reports the misconfiguration.
pub fn build_message(
    sender: u128,
    cluster_key: &Vec<u8>,
    request: Request,
    state_changes: &Vec<ArtilleryStateChange>,
    network_mtu: usize,
) -> (r: ArtilleryMessage)
    requires
        cluster_key@.len() < 0x10000,
        state_changes@.len() < 0x10000,
    ensures
        r.sender == sender,
        r.cluster_key@ == cluster_key@,
        r.request == request,
        r.state_changes@.len() <= state_changes@.len(),
        r.state_changes@ == state_changes@.take(r.state_changes@.len() as int),
        forall|j: int|
            r.state_changes@.len() < j <= state_changes@.len() ==> encoded_len_at(
                sender,
                cluster_key@,
                request,
                state_changes@,
                j,
            ) >= network_mtu,
        encoded_len_at(sender, cluster_key@, request, state_changes@, 0) < network_mtu
            ==> spec_encode(r@).len() < network_mtu,
        (forall|j: int|
            0 <= j <= state_changes@.len() ==> encoded_len_at(
                sender,
                cluster_key@,
                request,
                state_changes@,
                j,
            ) >= network_mtu) ==> r.state_changes@ == state_changes@,
{
    let n = state_changes.len();
    let mut i = n;
    loop
        invariant
            i <= n,
            n == state_changes@.len(),
            cluster_key@.len() < 0x10000,
            state_changes@.len() < 0x10000,
            forall|j: int|
                i < j <= n ==> encoded_len_at(sender, cluster_key@, request, state_changes@, j)
                    >= network_mtu,
        decreases i,
    {
        let prefix = prefix_changes(state_changes, i);
        let msg = ArtilleryMessage {
            sender,
            cluster_key: copy_bytes(cluster_key),
            request,
            state_changes: prefix,
        };
        let encoded = encode_message(&msg);
        if encoded.len() < network_mtu {
            proof {
                assert(msg.state_changes@.len() == i);
                assert(encoded_len_at(sender, cluster_key@, request, state_changes@, i as int)
                    < network_mtu);
            }
            return msg;
        }
        if i == 0 {
            let full = ArtilleryMessage {
                sender,
                cluster_key: copy_bytes(cluster_key),
                request,
                state_changes: prefix_changes(state_changes, n),
            };
            proof {
                assert(state_changes@.take(n as int) =~= state_changes@);
            }
            return full;
        }
        proof {
            assert(encoded_len_at(sender, cluster_key@, request, state_changes@, i as int)
                >= network_mtu);
        }
        i -= 1;
    }
}

/// Encodes a message record into its wire image.
pub fn encode_message(m: &ArtilleryMessage) -> (r: Vec<u8>)
    requires
        wf_message(m@),
    ensures
        r@ == spec_encode(m@),
{
    let mut out: Vec<u8> = Vec::new();
    push_hex(&mut out, m.sender, 32);
    push_hex(&mut out, m.cluster_key.len() as u128, 4);
    push_key_items(&mut out, &m.cluster_key);
    push_request(&mut out, &m.request);
    push_hex(&mut out, m.state_changes.len() as u128, 4);
    push_change_items(&mut out, &m.state_changes);
    proof {
        assert(out@ =~= spec_encode(m@));
    }
    out
}

} // verus!
