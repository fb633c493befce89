//! The binary envelope codec. A rumor travels inside an envelope carrying
//! a kind tag, the sender's member id and a variant-specific payload:
//!
//! - field 1, varint: the kind tag (one through seven);
//! - field 2, length-delimited: the sender's member id;
//! - field 3, length-delimited: the payload;
//! - field 4, repeated, length-delimited: a reserved tag list, ignored on
//!   read and never written.
//!
//! Encoding is deterministic: fields are written in ascending order,
//! votes sorted by member id (the canonical form every stored election
//! already keeps). Integers travel as base-128 varints, least significant
//! group first.

use vstd::prelude::*;

verus! {

use crate::error::RumorError;
use crate::expiration::Expiration;
use crate::rumor::{
    exp_of, health_rank, kind_of, kind_tag, Departure, DepartureV, Election, ElectionStatus,
    ElectionV, Health, Membership, MembershipV, RumorKind, RumorV, Service, ServiceConfig, ServiceConfigV,
    ServiceFile, ServiceFileV, ServiceV,
};
use crate::text::{bytes_of, lex_lt};

/// The varint encoding of an unsigned integer: seven bits per byte, least
/// significant group first, the high bit marking continuation.
pub open spec fn varint(n: u64) -> Seq<u8>
    decreases n,
{
    if n < 128 {
        seq![n as u8]
    } else {
        seq![(n % 128 + 128) as u8] + varint(n / 128)
    }
}

/// What reading a varint at `pos` yields: the value and the position just
/// after it, or nothing when the bytes run out or the value overflows.
pub open spec fn dec_varint(b: Seq<u8>, pos: int) -> Option<(u64, int)>
    decreases b.len() - pos,
{
    if pos < 0 || pos >= b.len() {
        None
    } else {
        let x = b[pos];
        if x < 128 {
            Some((x as u64, pos + 1))
        } else {
            match dec_varint(b, pos + 1) {
                Some((v, p)) => if v <= (u64::MAX - ((x - 128) as u64)) / 128 {
                    Some(((v * 128 + ((x - 128) as u64)) as u64, p))
                } else {
                    None
                },
                None => None,
            }
        }
    }
}

/// A varint reads back as the value it encodes, wherever it sits.
pub proof fn lemma_varint_roundtrip(n: u64, b: Seq<u8>, pos: int)
    requires
        0 <= pos,
        pos + varint(n).len() <= b.len(),
        b.subrange(pos, pos + varint(n).len() as int) == varint(n),
    ensures
        dec_varint(b, pos) == Some((n, pos + varint(n).len())),
    decreases n,
{
    let vn = varint(n);
    assert(b[pos] == vn[0]);
    if n < 128 {
        assert(vn =~= seq![n as u8]);
    } else {
        let tail = varint(n / 128);
        assert(vn =~= seq![(n % 128 + 128) as u8] + tail);
        let whole = b.subrange(pos, pos + vn.len() as int);
        let t2 = b.subrange(pos + 1, pos + 1 + tail.len() as int);
        assert forall|i: int| 0 <= i < tail.len() implies #[trigger] t2[i] == tail[i] by {
            assert(t2[i] == b[pos + 1 + i]);
            assert(whole[1 + i] == b[pos + 1 + i]);
            assert(whole[1 + i] == vn[1 + i]);
            assert(vn[1 + i] == tail[i]);
        }
        assert(t2 =~= tail);
        lemma_varint_roundtrip(n / 128, b, pos + 1);
        assert(b[pos] == (n % 128 + 128) as u8);
        assert((b[pos] - 128) as u64 == n % 128);
        assert(n / 128 <= (u64::MAX - (n % 128)) / 128) by {
            assert(n / 128 * 128 + n % 128 == n);
        }
        assert((n / 128) * 128 + n % 128 == n);
    }
}

/// Reads one varint; mirrors `dec_varint` exactly.
pub fn read_varint(b: &[u8], pos: usize) -> (r: Option<(u64, usize)>)
    ensures
        match r {
            Some((v, p)) => dec_varint(b@, pos as int) == Some((v, p as int)) && pos < p <= b@.len(),
            None => dec_varint(b@, pos as int) is None,
        },
    decreases b@.len() - pos,
{
    if pos >= b.len() {
        return None;
    }
    let x = b[pos];
    if x < 128 {
        Some((x as u64, pos + 1))
    } else {
        match read_varint(b, pos + 1) {
            Some((v, p)) => {
                let low: u64 = (x - 128) as u64;
                if v <= (u64::MAX - low) / 128 {
                    Some((v * 128 + low, p))
                } else {
                    None
                }
            },
            None => None,
        }
    }
}

/// Appends the varint encoding of `n`.
pub fn write_varint(out: &mut Vec<u8>, n: u64)
    ensures
        final(out)@ == old(out)@ + varint(n),
    decreases n,
{
    if n < 128 {
        out.push(n as u8);
        proof {
            assert(final(out)@ =~= old(out)@ + varint(n));
        }
    } else {
        out.push((n % 128 + 128) as u8);
        write_varint(out, n / 128);
        proof {
            assert(final(out)@ =~= old(out)@ + varint(n));
        }
    }
}

/// A length-delimited block: the length as a varint, then the bytes.
pub open spec fn lp(b: Seq<u8>) -> Seq<u8> {
    varint(b.len() as u64) + b
}

/// A length-delimited string: its UTF-8 bytes, length-delimited.
pub open spec fn lp_str(s: Seq<char>) -> Seq<u8> {
    lp(bytes_of(s))
}

/// What reading a length-delimited block at `pos` yields.
pub open spec fn dec_lp(b: Seq<u8>, pos: int) -> Option<(Seq<u8>, int)> {
    match dec_varint(b, pos) {
        Some((n, p)) => if p + n <= b.len() {
            Some((b.subrange(p, p + n as int), p + n as int))
        } else {
            None
        },
        None => None,
    }
}

/// A length-delimited block reads back as the bytes it carries.
pub proof fn lemma_lp_roundtrip(d: Seq<u8>, b: Seq<u8>, pos: int)
    requires
        0 <= pos,
        d.len() <= u64::MAX,
        pos + lp(d).len() <= b.len(),
        b.subrange(pos, pos + lp(d).len() as int) == lp(d),
    ensures
        dec_lp(b, pos) == Some((d, pos + lp(d).len())),
{
    let vn = varint(d.len() as u64);
    let whole = b.subrange(pos, pos + lp(d).len() as int);
    assert(b.subrange(pos, pos + vn.len() as int) =~= vn) by {
        assert(forall|i: int| 0 <= i < vn.len() ==> #[trigger] whole[i] == lp(d)[i]);
    }
    lemma_varint_roundtrip(d.len() as u64, b, pos);
    let p = pos + vn.len();
    let t2 = b.subrange(p, p + d.len() as int);
    assert forall|i: int| 0 <= i < d.len() implies #[trigger] t2[i] == d[i] by {
        assert(t2[i] == b[p + i]);
        assert(whole[vn.len() + i] == b[p + i]);
        assert(whole[vn.len() + i] == lp(d)[vn.len() + i]);
        assert(lp(d)[vn.len() + i] == d[i]);
    }
    assert(t2 =~= d);
}

/// Reads one length-delimited block; mirrors `dec_lp` exactly.
pub fn read_lp<'a>(b: &'a [u8], pos: usize) -> (r: Option<(&'a [u8], usize)>)
    ensures
        match r {
            Some((d, p)) => dec_lp(b@, pos as int) matches Some((dd, pp)) && dd == d@ && pp == p
                as int && pos < p <= b@.len(),
            None => dec_lp(b@, pos as int) is None,
        },
{
    match read_varint(b, pos) {
        Some((n, p)) => {
            if n <= (b.len() - p) as u64 {
                let end = p + (n as usize);
                Some((vstd::slice::slice_subrange(b, p, end), end))
            } else {
                None
            }
        },
        None => None,
    }
}

/// Appends a length-delimited block.
pub fn write_lp(out: &mut Vec<u8>, data: &[u8])
    ensures
        final(out)@ == old(out)@ + lp(data@),
{
    write_varint(out, data.len() as u64);
    let ghost mid = out@;
    let mut i: usize = 0;
    while i < data.len()
        invariant
            0 <= i <= data@.len(),
            out@ == mid + data@.subrange(0, i as int),
        decreases data@.len() - i,
    {
        out.push(data[i]);
        proof {
            assert(mid + data@.subrange(0, i + 1) =~= (mid + data@.subrange(0, i as int)).push(
                data@[i as int],
            ));
        }
        i = i + 1;
    }
    proof {
        assert(data@.subrange(0, data@.len() as int) =~= data@);
        assert(final(out)@ =~= old(out)@ + lp(data@));
    }
}

/// Appends a length-delimited string.
pub fn write_lp_str(out: &mut Vec<u8>, s: &str)
    ensures
        final(out)@ == old(out)@ + lp_str(s@),
{
    write_lp(out, s.as_bytes());
}


/// Whether `b` carries `piece` at `pos`.
pub open spec fn starts_with(b: Seq<u8>, pos: int, piece: Seq<u8>) -> bool {
    0 <= pos && pos + piece.len() <= b.len() && b.subrange(pos, pos + piece.len() as int)
        == piece
}

/// A carried concatenation decomposes into its two halves.
pub proof fn lemma_starts_with_concat(b: Seq<u8>, pos: int, p1: Seq<u8>, p2: Seq<u8>)
    requires
        starts_with(b, pos, p1 + p2),
    ensures
        starts_with(b, pos, p1),
        starts_with(b, pos + p1.len(), p2),
{
    let whole = b.subrange(pos, pos + (p1 + p2).len() as int);
    let t1 = b.subrange(pos, pos + p1.len() as int);
    let t2 = b.subrange(pos + p1.len(), pos + p1.len() + p2.len() as int);
    assert forall|i: int| 0 <= i < p1.len() implies #[trigger] t1[i] == p1[i] by {
        assert(t1[i] == b[pos + i]);
        assert(whole[i] == b[pos + i]);
        assert(whole[i] == (p1 + p2)[i]);
    }
    assert(t1 =~= p1);
    assert forall|i: int| 0 <= i < p2.len() implies #[trigger] t2[i] == p2[i] by {
        assert(t2[i] == b[pos + p1.len() + i]);
        assert(whole[p1.len() + i] == b[pos + p1.len() + i]);
        assert(whole[p1.len() + i] == (p1 + p2)[p1.len() + i]);
    }
    assert(t2 =~= p2);
}

/// An expiration on the wire: a presence flag, then the RFC 3339 text.
/// The writer always writes the text; an absent text (flag zero) reads
/// back as "forever".
pub open spec fn exp_enc_text(s: Seq<char>) -> Seq<u8> {
    seq![1u8] + lp_str(s)
}

/// The wire payload of a rumor, with the expiration text factored out so
/// that contracts can speak about malformed texts.
pub open spec fn payload_body(v: RumorV, exp_text: Seq<char>) -> Seq<u8> {
    match v {
        RumorV::Membership(m) => lp_str(m.member_id) + lp_str(m.address) + varint(
            m.swim_port as u64,
        ) + varint(m.gossip_port as u64) + varint(health_rank(m.health) as u64) + varint(
            m.incarnation,
        ) + exp_enc_text(exp_text),
        RumorV::Departure(d) => lp_str(d.member_id) + exp_enc_text(exp_text),
        RumorV::Service(x) => lp_str(x.member_id) + lp_str(x.service_group) + lp_str(x.pkg)
            + varint(x.incarnation) + varint(
            if x.initialized {
                1u64
            } else {
                0u64
            },
        ) + lp(x.cfg) + lp(x.sys) + exp_enc_text(exp_text),
        RumorV::ServiceConfig(x) => lp_str(x.service_group) + varint(x.incarnation) + varint(
            if x.encrypted {
                1u64
            } else {
                0u64
            },
        ) + lp(x.config) + exp_enc_text(exp_text),
        RumorV::ServiceFile(x) => lp_str(x.service_group) + lp_str(x.filename) + varint(
            x.incarnation,
        ) + lp(x.body) + exp_enc_text(exp_text),
        RumorV::Election(e) => election_body(e, exp_text),
        RumorV::ElectionUpdate(e) => election_body(e, exp_text),
    }
}

/// The wire payload shared by the two election rumor kinds.
pub open spec fn election_body(e: ElectionV, exp_text: Seq<char>) -> Seq<u8> {
    lp_str(e.member_id) + lp_str(e.service_group) + varint(e.term) + varint(e.suitability)
        + varint(status_rank(e.status) as u64) + varint(e.votes.len() as u64) + votes_enc(
        e.votes,
    ) + exp_enc_text(exp_text)
}

/// The votes of an election, each length-delimited, in stored (sorted)
/// order.
pub open spec fn votes_enc(vs: Seq<Seq<char>>) -> Seq<u8>
    decreases vs.len(),
{
    if vs.len() == 0 {
        Seq::<u8>::empty()
    } else {
        votes_enc(vs.drop_last()) + lp_str(vs.last())
    }
}

/// The wire rank of an election phase.
pub open spec fn status_rank(s: ElectionStatus) -> int {
    match s {
        ElectionStatus::Running => 0,
        ElectionStatus::NoQuorum => 1,
        ElectionStatus::Finished => 2,
    }
}

/// The wire payload of a rumor: its body with its own expiration text.
pub open spec fn payload_of(v: RumorV) -> Seq<u8> {
    payload_body(v, crate::expiration::rfc3339_of(exp_of(v)))
}

/// A whole envelope from raw parts: kind tag, sender bytes, payload.
pub open spec fn envelope_raw(tag: u64, fid: Seq<u8>, payload: Seq<u8>) -> Seq<u8> {
    seq![8u8] + varint(tag) + seq![18u8] + lp(fid) + seq![26u8] + lp(payload)
}

/// The envelope a rumor travels in.
pub open spec fn envelope_enc(v: RumorV, from_id: Seq<char>) -> Seq<u8> {
    envelope_raw(kind_tag(kind_of(v)) as u64, bytes_of(from_id), payload_of(v))
}

/// Appends an expiration: flag then text.
fn write_exp(out: &mut Vec<u8>, e: &Expiration)
    ensures
        final(out)@ == old(out)@ + exp_enc_text(crate::expiration::rfc3339_of(e.at_nanos)),
        crate::expiration::rfc3339_parse(crate::expiration::rfc3339_of(e.at_nanos)) == Some(
            e.at_nanos,
        ),
{
    out.push(1u8);
    let text = e.for_proto();
    write_lp_str(out, text.as_str());
    proof {
        assert(final(out)@ =~= old(out)@ + exp_enc_text(
            crate::expiration::rfc3339_of(e.at_nanos),
        ));
    }
}

/// Appends every vote, length-delimited, in stored order.
fn write_votes(out: &mut Vec<u8>, votes: &Vec<String>)
    ensures
        final(out)@ == old(out)@ + votes_enc(votes.deep_view()),
{
    let mut i: usize = 0;
    while i < votes.len()
        invariant
            0 <= i <= votes@.len(),
            out@ == old(out)@ + votes_enc(votes.deep_view().subrange(0, i as int)),
        decreases votes@.len() - i,
    {
        write_lp_str(out, votes[i].as_str());
        proof {
            let vs = votes.deep_view();
            assert(vs.subrange(0, i + 1).drop_last() =~= vs.subrange(0, i as int));
            assert(vs.subrange(0, i + 1).last() == vs[i as int]);
            assert(vs[i as int] == votes@[i as int]@);
        }
        i = i + 1;
    }
    proof {
        assert(votes.deep_view().subrange(0, votes.deep_view().len() as int)
            =~= votes.deep_view());
        assert(votes.deep_view().len() == votes@.len());
    }
}

/// Encodes a rumor's payload.
pub fn encode_payload(rumor: &RumorKind) -> (r: Vec<u8>)
    ensures
        r@ == payload_of(rumor@),
        crate::expiration::rfc3339_parse(crate::expiration::rfc3339_of(exp_of(rumor@))) == Some(
            exp_of(rumor@),
        ),
{
    let mut out: Vec<u8> = Vec::new();
    match rumor {
        RumorKind::Membership(m) => {
            write_lp_str(&mut out, m.member_id.as_str());
            write_lp_str(&mut out, m.address.as_str());
            write_varint(&mut out, m.swim_port as u64);
            write_varint(&mut out, m.gossip_port as u64);
            write_varint(&mut out, m.health.rank() as u64);
            write_varint(&mut out, m.incarnation);
            write_exp(&mut out, &m.expiration);
            proof {
                assert(out@ =~= payload_of(rumor@));
            }
        },
        RumorKind::Departure(d) => {
            write_lp_str(&mut out, d.member_id.as_str());
            write_exp(&mut out, &d.expiration);
            proof {
                assert(out@ =~= payload_of(rumor@));
            }
        },
        RumorKind::Service(x) => {
            write_lp_str(&mut out, x.member_id.as_str());
            write_lp_str(&mut out, x.service_group.as_str());
            write_lp_str(&mut out, x.pkg.as_str());
            write_varint(&mut out, x.incarnation);
            write_varint(
                &mut out,
                if x.initialized {
                    1u64
                } else {
                    0u64
                },
            );
            write_lp(&mut out, x.cfg.as_slice());
            write_lp(&mut out, x.sys.as_slice());
            write_exp(&mut out, &x.expiration);
            proof {
                assert(out@ =~= payload_of(rumor@));
            }
        },
        RumorKind::ServiceConfig(x) => {
            write_lp_str(&mut out, x.service_group.as_str());
            write_varint(&mut out, x.incarnation);
            write_varint(
                &mut out,
                if x.encrypted {
                    1u64
                } else {
                    0u64
                },
            );
            write_lp(&mut out, x.config.as_slice());
            write_exp(&mut out, &x.expiration);
            proof {
                assert(out@ =~= payload_of(rumor@));
            }
        },
        RumorKind::ServiceFile(x) => {
            write_lp_str(&mut out, x.service_group.as_str());
            write_lp_str(&mut out, x.filename.as_str());
            write_varint(&mut out, x.incarnation);
            write_lp(&mut out, x.body.as_slice());
            write_exp(&mut out, &x.expiration);
            proof {
                assert(out@ =~= payload_of(rumor@));
            }
        },
        RumorKind::Election(e) => {
            write_election_body(&mut out, e);
            proof {
                assert(out@ =~= payload_of(rumor@));
            }
        },
        RumorKind::ElectionUpdate(e) => {
            write_election_body(&mut out, e);
            proof {
                assert(out@ =~= payload_of(rumor@));
            }
        },
    }
    out
}

/// Appends the election body shared by both election kinds.
fn write_election_body(out: &mut Vec<u8>, e: &Election)
    ensures
        final(out)@ == old(out)@ + election_body(
            e@,
            crate::expiration::rfc3339_of(e.expiration.at_nanos),
        ),
        crate::expiration::rfc3339_parse(
            crate::expiration::rfc3339_of(e.expiration.at_nanos),
        ) == Some(e.expiration.at_nanos),
{
    write_lp_str(out, e.member_id.as_str());
    write_lp_str(out, e.service_group.as_str());
    write_varint(out, e.term);
    write_varint(out, e.suitability);
    let rank: u64 = match e.status {
        ElectionStatus::Running => 0,
        ElectionStatus::NoQuorum => 1,
        ElectionStatus::Finished => 2,
    };
    write_varint(out, rank);
    write_varint(out, e.votes.len() as u64);
    write_votes(out, &e.votes);
    write_exp(out, &e.expiration);
    proof {
        assert(e@.votes.len() == e.votes@.len());
        assert(final(out)@ =~= old(out)@ + election_body(
            e@,
            crate::expiration::rfc3339_of(e.expiration.at_nanos),
        ));
    }
}

/// Encodes a whole envelope: kind tag, sender id, payload.
pub fn encode_envelope(from_id: &str, rumor: &RumorKind) -> (r: Vec<u8>)
    ensures
        r@ == envelope_enc(rumor@, from_id@),
        crate::expiration::rfc3339_parse(crate::expiration::rfc3339_of(exp_of(rumor@))) == Some(
            exp_of(rumor@),
        ),
{
    let mut out: Vec<u8> = Vec::new();
    out.push(8u8);
    write_varint(&mut out, rumor.kind().tag() as u64);
    out.push(18u8);
    write_lp_str(&mut out, from_id);
    out.push(26u8);
    let payload = encode_payload(rumor);
    write_lp(&mut out, payload.as_slice());
    proof {
        assert(out@ =~= envelope_enc(rumor@, from_id@));
    }
    out
}


/// Reads one length-delimited UTF-8 string.
fn read_string(b: &[u8], pos: usize) -> (r: Option<(String, usize)>)
    ensures
        match r {
            Some((s2, p)) => dec_lp(b@, pos as int) matches Some((d, pp)) && vstd::utf8::valid_utf8(
                d,
            ) && s2@ == vstd::utf8::decode_utf8(d) && p as int == pp && pos < p <= b@.len(),
            None => !(dec_lp(b@, pos as int) matches Some((d, _)) && vstd::utf8::valid_utf8(d)),
        },
{
    match read_lp(b, pos) {
        Some((d, p)) => {
            match crate::text::string_from_utf8(d) {
                Some(s2) => Some((s2, p)),
                None => None,
            }
        },
        None => None,
    }
}

/// A protocol mismatch for one field.
fn mismatch(field: &str) -> (r: RumorError)
    ensures
        r matches RumorError::ProtocolMismatch { field: f } && f@ == field@,
{
    RumorError::ProtocolMismatch { field: field.to_owned() }
}

/// A string wire field pins down the string it encodes.
proof fn lemma_str_field(x: Seq<char>, b: Seq<u8>, pos: int)
    requires
        starts_with(b, pos, lp_str(x)),
        b.len() <= u64::MAX,
    ensures
        dec_lp(b, pos) matches Some((d, p)) && d == bytes_of(x) && vstd::utf8::valid_utf8(d)
            && vstd::utf8::decode_utf8(d) == x && p == pos + lp_str(x).len(),
{
    lemma_lp_roundtrip(bytes_of(x), b, pos);
    vstd::utf8::encode_utf8_valid_utf8(x);
    vstd::utf8::encode_utf8_decode_utf8(x);
}

/// A varint wire field pins down the value it encodes.
proof fn lemma_varint_field(n: u64, b: Seq<u8>, pos: int)
    requires
        starts_with(b, pos, varint(n)),
    ensures
        dec_varint(b, pos) == Some((n, pos + varint(n).len())),
{
    lemma_varint_roundtrip(n, b, pos);
}

/// An expiration wire field pins down the flag and the text.
proof fn lemma_exp_field(s: Seq<char>, b: Seq<u8>, pos: int)
    requires
        starts_with(b, pos, exp_enc_text(s)),
        b.len() <= u64::MAX,
    ensures
        dec_varint(b, pos) == Some((1u64, pos + 1)),
        dec_lp(b, pos + 1) matches Some((d, p)) && d == bytes_of(s) && vstd::utf8::valid_utf8(d)
            && vstd::utf8::decode_utf8(d) == s && p == pos + exp_enc_text(s).len(),
{
    lemma_starts_with_concat(b, pos, seq![1u8], lp_str(s));
    assert(b.subrange(pos, pos + 1) =~= seq![1u8]);
    assert(b.subrange(pos, pos + 1)[0] == b[pos]);
    assert(b[pos] == 1u8);
    assert(pos < b.len());
    lemma_str_field(s, b, pos + 1);
}

/// Reads an expiration: a presence flag, then RFC 3339 text. An absent
/// text means "forever"; a malformed one is a protocol mismatch.
fn read_exp(b: &[u8], pos: usize) -> (r: Result<(Expiration, usize), RumorError>)
    ensures
        forall|s: Seq<char>| starts_with(b@, pos as int, exp_enc_text(s)) ==> (
        match crate::expiration::rfc3339_parse(s) {
            Some(n) => r matches Ok((e, p)) && e.at_nanos == n && p as int == pos
                + exp_enc_text(s).len(),
            None => r matches Err(e) && (e matches RumorError::ProtocolMismatch { field }
                && field@ == "expiration"@),
        }),
{
    let blen = b.len();
    proof {
        assert(b@.len() <= u64::MAX);
    }
    let flagr = read_varint(b, pos);
    match flagr {
        None => {
            proof {
                assert forall|s: Seq<char>|
                    !starts_with(b@, pos as int, exp_enc_text(s)) by {
                    if starts_with(b@, pos as int, exp_enc_text(s)) {
                        lemma_exp_field(s, b@, pos as int);
                    }
                }
            }
            Err(mismatch("expiration"))
        },
        Some((flag, p1)) => {
            if flag == 0 {
                proof {
                    assert forall|s: Seq<char>|
                        !starts_with(b@, pos as int, exp_enc_text(s)) by {
                        if starts_with(b@, pos as int, exp_enc_text(s)) {
                            lemma_exp_field(s, b@, pos as int);
                        }
                    }
                }
                return Ok((Expiration::forever(), p1));
            }
            if flag != 1 {
                proof {
                    assert forall|s: Seq<char>|
                        !starts_with(b@, pos as int, exp_enc_text(s)) by {
                        if starts_with(b@, pos as int, exp_enc_text(s)) {
                            lemma_exp_field(s, b@, pos as int);
                        }
                    }
                }
                return Err(mismatch("expiration"));
            }
            match read_string(b, p1) {
                None => {
                    proof {
                        assert forall|s: Seq<char>|
                            !starts_with(b@, pos as int, exp_enc_text(s)) by {
                            if starts_with(b@, pos as int, exp_enc_text(s)) {
                                lemma_exp_field(s, b@, pos as int);
                            }
                        }
                    }
                    Err(mismatch("expiration"))
                },
                Some((text, p2)) => {
                    match crate::expiration::parse_rfc3339(text.as_str()) {
                        Some(n) => {
                            proof {
                                assert forall|s: Seq<char>|
                                    starts_with(b@, pos as int, exp_enc_text(s)) implies s
                                    == text@ && p2 as int == pos + exp_enc_text(s).len() by {
                                    lemma_exp_field(s, b@, pos as int);
                                    crate::text::lemma_utf8_injective(s, text@);
                                }
                            }
                            Ok((Expiration::new(n), p2))
                        },
                        None => {
                            proof {
                                assert forall|s: Seq<char>|
                                    starts_with(b@, pos as int, exp_enc_text(s)) implies s
                                    == text@ by {
                                    lemma_exp_field(s, b@, pos as int);
                                    crate::text::lemma_utf8_injective(s, text@);
                                }
                            }
                            Err(mismatch("expiration"))
                        },
                    }
                },
            }
        },
    }
}


/// The health a wire rank denotes.
fn rank_to_health(r: u64) -> (h: Option<Health>)
    ensures
        r <= 3 ==> (h matches Some(hh) && health_rank(hh) == r as int),
        r > 3 ==> h is None,
{
    if r == 0 {
        Some(Health::Alive)
    } else if r == 1 {
        Some(Health::Suspect)
    } else if r == 2 {
        Some(Health::Confirmed)
    } else if r == 3 {
        Some(Health::Departed)
    } else {
        None
    }
}

/// The election phase a wire rank denotes.
fn rank_to_status(r: u64) -> (h: Option<ElectionStatus>)
    ensures
        r <= 2 ==> (h matches Some(hh) && status_rank(hh) == r as int),
        r > 2 ==> h is None,
{
    if r == 0 {
        Some(ElectionStatus::Running)
    } else if r == 1 {
        Some(ElectionStatus::NoQuorum)
    } else if r == 2 {
        Some(ElectionStatus::Finished)
    } else {
        None
    }
}

/// A membership payload pins down every read the decoder makes.
#[verifier::rlimit(100)]
proof fn lemma_membership_layout(m: MembershipV, s: Seq<char>, b: Seq<u8>)
    requires
        b == payload_body(RumorV::Membership(m), s),
        b.len() <= u64::MAX,
    ensures
        dec_lp(b, 0) matches Some((d1, e1)) && vstd::utf8::valid_utf8(d1)
            && vstd::utf8::decode_utf8(d1) == m.member_id && (dec_lp(b, e1) matches Some((d2, e2))
            && vstd::utf8::valid_utf8(d2) && vstd::utf8::decode_utf8(d2) == m.address && (
        dec_varint(b, e2) matches Some((v3, e3)) && v3 == m.swim_port as u64 && (dec_varint(
            b,
            e3,
        ) matches Some((v4, e4)) && v4 == m.gossip_port as u64 && (dec_varint(b, e4) matches Some(
            (v5, e5),
        ) && v5 == health_rank(m.health) as u64 && (dec_varint(b, e5) matches Some((v6, e6)) && v6
            == m.incarnation && starts_with(b, e6, exp_enc_text(s))))))),
{
    let l1 = lp_str(m.member_id);
    let l2 = l1 + lp_str(m.address);
    let l3 = l2 + varint(m.swim_port as u64);
    let l4 = l3 + varint(m.gossip_port as u64);
    let l5 = l4 + varint(health_rank(m.health) as u64);
    let l6 = l5 + varint(m.incarnation);
    assert(b == l6 + exp_enc_text(s));
    assert(starts_with(b, 0, l6 + exp_enc_text(s))) by {
        assert(b.subrange(0, b.len() as int) =~= b);
    }
    lemma_starts_with_concat(b, 0, l6, exp_enc_text(s));
    lemma_starts_with_concat(b, 0, l5, varint(m.incarnation));
    lemma_starts_with_concat(b, 0, l4, varint(health_rank(m.health) as u64));
    lemma_starts_with_concat(b, 0, l3, varint(m.gossip_port as u64));
    lemma_starts_with_concat(b, 0, l2, varint(m.swim_port as u64));
    lemma_starts_with_concat(b, 0, l1, lp_str(m.address));
    lemma_str_field(m.member_id, b, 0);
    lemma_str_field(m.address, b, l1.len() as int);
    lemma_varint_field(m.swim_port as u64, b, l2.len() as int);
    lemma_varint_field(m.gossip_port as u64, b, l3.len() as int);
    lemma_varint_field(health_rank(m.health) as u64, b, l4.len() as int);
    lemma_varint_field(m.incarnation, b, l5.len() as int);
}

/// Decodes a membership payload.
fn decode_membership(b: &[u8]) -> (r: Result<Membership, RumorError>)
    ensures
        forall|m: MembershipV, s: Seq<char>|
            #[trigger] payload_body(RumorV::Membership(m), s) == b@ ==> (
            match crate::expiration::rfc3339_parse(s) {
                Some(n) => r matches Ok(x) && x@ == (MembershipV { expiration: n, ..m }),
                None => r matches Err(e) && (e matches RumorError::ProtocolMismatch { field }
                    && field@ == "expiration"@),
            }),
{
    let blen = b.len();
    proof {
        assert(b@.len() <= u64::MAX);
    }
    let r1 = read_string(b, 0);
    let (member_id, p1) = match r1 {
        Some(x) => x,
        None => {
            proof {
                assert forall|m: MembershipV, s: Seq<char>|
                    #[trigger] payload_body(RumorV::Membership(m), s) == b@ implies false by {
                    lemma_membership_layout(m, s, b@);
                }
            }
            return Err(mismatch("member-id"));
        },
    };
    let r2 = read_string(b, p1);
    let (address, p2) = match r2 {
        Some(x) => x,
        None => {
            proof {
                assert forall|m: MembershipV, s: Seq<char>|
                    #[trigger] payload_body(RumorV::Membership(m), s) == b@ implies false by {
                    lemma_membership_layout(m, s, b@);
                    crate::text::lemma_utf8_injective(m.member_id, member_id@);
                }
            }
            return Err(mismatch("address"));
        },
    };
    let r3 = read_varint(b, p2);
    let (swim, p3) = match r3 {
        Some(x) => x,
        None => {
            proof {
                assert forall|m: MembershipV, s: Seq<char>|
                    #[trigger] payload_body(RumorV::Membership(m), s) == b@ implies false by {
                    lemma_membership_layout(m, s, b@);
                }
            }
            return Err(mismatch("swim-port"));
        },
    };
    let r4 = read_varint(b, p3);
    let (gossip, p4) = match r4 {
        Some(x) => x,
        None => {
            proof {
                assert forall|m: MembershipV, s: Seq<char>|
                    #[trigger] payload_body(RumorV::Membership(m), s) == b@ implies false by {
                    lemma_membership_layout(m, s, b@);
                }
            }
            return Err(mismatch("gossip-port"));
        },
    };
    let r5 = read_varint(b, p4);
    let (rank, p5) = match r5 {
        Some(x) => x,
        None => {
            proof {
                assert forall|m: MembershipV, s: Seq<char>|
                    #[trigger] payload_body(RumorV::Membership(m), s) == b@ implies false by {
                    lemma_membership_layout(m, s, b@);
                }
            }
            return Err(mismatch("health"));
        },
    };
    let r6 = read_varint(b, p5);
    let (inc, p6) = match r6 {
        Some(x) => x,
        None => {
            proof {
                assert forall|m: MembershipV, s: Seq<char>|
                    #[trigger] payload_body(RumorV::Membership(m), s) == b@ implies false by {
                    lemma_membership_layout(m, s, b@);
                }
            }
            return Err(mismatch("incarnation"));
        },
    };
    if swim > u16::MAX as u64 || gossip > u16::MAX as u64 {
        proof {
            assert forall|m: MembershipV, s: Seq<char>|
                #[trigger] payload_body(RumorV::Membership(m), s) == b@ implies false by {
                lemma_membership_layout(m, s, b@);
            }
        }
        return Err(mismatch("port"));
    }
    let health = match rank_to_health(rank) {
        Some(h) => h,
        None => {
            proof {
                assert forall|m: MembershipV, s: Seq<char>|
                    #[trigger] payload_body(RumorV::Membership(m), s) == b@ implies false by {
                    lemma_membership_layout(m, s, b@);
                }
            }
            return Err(mismatch("health"));
        },
    };
    match read_exp(b, p6) {
        Ok((exp, _p7)) => {
            let x = Membership {
                member_id,
                address,
                swim_port: swim as u16,
                gossip_port: gossip as u16,
                health,
                incarnation: inc,
                expiration: exp,
            };
            let r: Result<Membership, RumorError> = Ok(x);
            proof {
                assert forall|m: MembershipV, s: Seq<char>|
                    #[trigger] payload_body(RumorV::Membership(m), s) == b@ implies (
                match crate::expiration::rfc3339_parse(s) {
                    Some(n) => r matches Ok(x2) && x2@ == (MembershipV { expiration: n, ..m }),
                    None => r matches Err(e) && (e matches RumorError::ProtocolMismatch {
                        field,
                    } && field@ == "expiration"@),
                }) by {
                    lemma_membership_layout(m, s, b@);
                    crate::text::lemma_utf8_injective(m.member_id, member_id@);
                    crate::text::lemma_utf8_injective(m.address, address@);
                }
            }
            r
        },
        Err(e) => {
            let r: Result<Membership, RumorError> = Err(e);
            proof {
                assert forall|m: MembershipV, s: Seq<char>|
                    #[trigger] payload_body(RumorV::Membership(m), s) == b@ implies (
                match crate::expiration::rfc3339_parse(s) {
                    Some(n) => r matches Ok(x2) && x2@ == (MembershipV { expiration: n, ..m }),
                    None => r matches Err(e2) && (e2 matches RumorError::ProtocolMismatch {
                        field,
                    } && field@ == "expiration"@),
                }) by {
                    lemma_membership_layout(m, s, b@);
                }
            }
            r
        },
    }
}


/// A raw byte wire field pins down the bytes it encodes.
proof fn lemma_bytes_field(d: Seq<u8>, b: Seq<u8>, pos: int)
    requires
        starts_with(b, pos, lp(d)),
        b.len() <= u64::MAX,
    ensures
        dec_lp(b, pos) == Some((d, pos + lp(d).len())),
{
    lemma_lp_roundtrip(d, b, pos);
}

/// A departure payload pins down every read the decoder makes.
proof fn lemma_departure_layout(m: DepartureV, s: Seq<char>, b: Seq<u8>)
    requires
        b == payload_body(RumorV::Departure(m), s),
        b.len() <= u64::MAX,
    ensures
        dec_lp(b, 0) matches Some((d1, e1)) && vstd::utf8::valid_utf8(d1) && vstd::utf8::decode_utf8(d1) == m.member_id && starts_with(b, e1, exp_enc_text(s)),
{
    let l1 = lp_str(m.member_id);
    assert(b == l1 + exp_enc_text(s));
    assert(starts_with(b, 0, l1 + exp_enc_text(s))) by {
        assert(b.subrange(0, b.len() as int) =~= b);
    }
    lemma_starts_with_concat(b, 0, l1, exp_enc_text(s));

    lemma_str_field(m.member_id, b, 0);
}

/// Decodes a departure payload.
fn decode_departure(b: &[u8]) -> (r: Result<Departure, RumorError>)
    ensures
        forall|m: DepartureV, s: Seq<char>|
            #[trigger] payload_body(RumorV::Departure(m), s) == b@ ==> (
            match crate::expiration::rfc3339_parse(s) {
                Some(n) => r matches Ok(x) && x@ == (DepartureV { expiration: n, ..m }),
                None => r matches Err(e) && (e matches RumorError::ProtocolMismatch { field }
                    && field@ == "expiration"@),
            }),
{
    let blen = b.len();
    proof {
        assert(b@.len() <= u64::MAX);
    }
    let (member_id, p1) = match read_string(b, 0) {
        Some(x) => x,
        None => {
            proof {
                assert forall|m: DepartureV, s: Seq<char>|
                    #[trigger] payload_body(RumorV::Departure(m), s) == b@ implies false by {
                    lemma_departure_layout(m, s, b@);
                }
            }
            return Err(mismatch("member-id"));
        },
    };
    match read_exp(b, p1) {
        Ok((exp, _pe)) => {
            let x = Departure { member_id, expiration: exp };
            let r: Result<Departure, RumorError> = Ok(x);
            proof {
                assert forall|m: DepartureV, s: Seq<char>|
                    #[trigger] payload_body(RumorV::Departure(m), s) == b@ implies (
                match crate::expiration::rfc3339_parse(s) {
                    Some(n) => r matches Ok(x2) && x2@ == (DepartureV { expiration: n, ..m }),
                    None => r matches Err(e) && (e matches RumorError::ProtocolMismatch {
                        field,
                    } && field@ == "expiration"@),
                }) by {
                    lemma_departure_layout(m, s, b@);
                    crate::text::lemma_utf8_injective(m.member_id, member_id@);
                }
            }
            r
        },
        Err(e) => {
            let r: Result<Departure, RumorError> = Err(e);
            proof {
                assert forall|m: DepartureV, s: Seq<char>|
                    #[trigger] payload_body(RumorV::Departure(m), s) == b@ implies (
                match crate::expiration::rfc3339_parse(s) {
                    Some(n) => r matches Ok(x2) && x2@ == (DepartureV { expiration: n, ..m }),
                    None => r matches Err(e2) && (e2 matches RumorError::ProtocolMismatch {
                        field,
                    } && field@ == "expiration"@),
                }) by {
                    lemma_departure_layout(m, s, b@);
                }
            }
            r
        },
    }
}

/// A service payload pins down every read the decoder makes.
#[verifier::rlimit(100)]
proof fn lemma_service_layout(m: ServiceV, s: Seq<char>, b: Seq<u8>)
    requires
        b == payload_body(RumorV::Service(m), s),
        b.len() <= u64::MAX,
    ensures
        dec_lp(b, 0) matches Some((d1, e1)) && vstd::utf8::valid_utf8(d1) && vstd::utf8::decode_utf8(d1) == m.member_id && (dec_lp(b, e1) matches Some((d2, e2)) && vstd::utf8::valid_utf8(d2) && vstd::utf8::decode_utf8(d2) == m.service_group && (dec_lp(b, e2) matches Some((d3, e3)) && vstd::utf8::valid_utf8(d3) && vstd::utf8::decode_utf8(d3) == m.pkg && (dec_varint(b, e3) matches Some((v4, e4)) && v4 == m.incarnation && (dec_varint(b, e4) matches Some((v5, e5)) && v5 == (if m.initialized { 1u64 } else { 0u64 }) && (dec_lp(b, e5) matches Some((d6, e6)) && d6 == m.cfg && (dec_lp(b, e6) matches Some((d7, e7)) && d7 == m.sys && starts_with(b, e7, exp_enc_text(s)))))))),
{
    let l1 = lp_str(m.member_id);
    let l2 = l1 + lp_str(m.service_group);
    let l3 = l2 + lp_str(m.pkg);
    let l4 = l3 + varint(m.incarnation);
    let l5 = l4 + varint(if m.initialized { 1u64 } else { 0u64 });
    let l6 = l5 + lp(m.cfg);
    let l7 = l6 + lp(m.sys);
    assert(b == l7 + exp_enc_text(s));
    assert(starts_with(b, 0, l7 + exp_enc_text(s))) by {
        assert(b.subrange(0, b.len() as int) =~= b);
    }
    lemma_starts_with_concat(b, 0, l7, exp_enc_text(s));
    lemma_starts_with_concat(b, 0, l6, lp(m.sys));
    lemma_starts_with_concat(b, 0, l5, lp(m.cfg));
    lemma_starts_with_concat(b, 0, l4, varint(if m.initialized { 1u64 } else { 0u64 }));
    lemma_starts_with_concat(b, 0, l3, varint(m.incarnation));
    lemma_starts_with_concat(b, 0, l2, lp_str(m.pkg));
    lemma_starts_with_concat(b, 0, l1, lp_str(m.service_group));
    lemma_str_field(m.member_id, b, 0);
    lemma_str_field(m.service_group, b, l1.len() as int);
    lemma_str_field(m.pkg, b, l2.len() as int);
    lemma_varint_field(m.incarnation, b, l3.len() as int);
    lemma_varint_field(if m.initialized { 1u64 } else { 0u64 }, b, l4.len() as int);
    lemma_bytes_field(m.cfg, b, l5.len() as int);
    lemma_bytes_field(m.sys, b, l6.len() as int);
}

/// Decodes a service payload.
fn decode_service(b: &[u8]) -> (r: Result<Service, RumorError>)
    ensures
        forall|m: ServiceV, s: Seq<char>|
            #[trigger] payload_body(RumorV::Service(m), s) == b@ ==> (
            match crate::expiration::rfc3339_parse(s) {
                Some(n) => r matches Ok(x) && x@ == (ServiceV { expiration: n, ..m }),
                None => r matches Err(e) && (e matches RumorError::ProtocolMismatch { field }
                    && field@ == "expiration"@),
            }),
{
    let blen = b.len();
    proof {
        assert(b@.len() <= u64::MAX);
    }
    let (member_id, p1) = match read_string(b, 0) {
        Some(x) => x,
        None => {
            proof {
                assert forall|m: ServiceV, s: Seq<char>|
                    #[trigger] payload_body(RumorV::Service(m), s) == b@ implies false by {
                    lemma_service_layout(m, s, b@);
                }
            }
            return Err(mismatch("member-id"));
        },
    };
    let (service_group, p2) = match read_string(b, p1) {
        Some(x) => x,
        None => {
            proof {
                assert forall|m: ServiceV, s: Seq<char>|
                    #[trigger] payload_body(RumorV::Service(m), s) == b@ implies false by {
                    lemma_service_layout(m, s, b@);
                }
            }
            return Err(mismatch("service-group"));
        },
    };
    let (pkg, p3) = match read_string(b, p2) {
        Some(x) => x,
        None => {
            proof {
                assert forall|m: ServiceV, s: Seq<char>|
                    #[trigger] payload_body(RumorV::Service(m), s) == b@ implies false by {
                    lemma_service_layout(m, s, b@);
                }
            }
            return Err(mismatch("pkg"));
        },
    };
    let (incarnation_v, p4) = match read_varint(b, p3) {
        Some(x) => x,
        None => {
            proof {
                assert forall|m: ServiceV, s: Seq<char>|
                    #[trigger] payload_body(RumorV::Service(m), s) == b@ implies false by {
                    lemma_service_layout(m, s, b@);
                }
            }
            return Err(mismatch("incarnation"));
        },
    };
    let (initialized_v, p5) = match read_varint(b, p4) {
        Some(x) => x,
        None => {
            proof {
                assert forall|m: ServiceV, s: Seq<char>|
                    #[trigger] payload_body(RumorV::Service(m), s) == b@ implies false by {
                    lemma_service_layout(m, s, b@);
                }
            }
            return Err(mismatch("initialized"));
        },
    };
    let initialized: bool = if initialized_v == 0 {
        false
    } else if initialized_v == 1 {
        true
    } else {
            proof {
                assert forall|m: ServiceV, s: Seq<char>|
                    #[trigger] payload_body(RumorV::Service(m), s) == b@ implies false by {
                    lemma_service_layout(m, s, b@);
                }
            }
        return Err(mismatch("initialized"));
    };
    let (cfg, p6): (Vec<u8>, usize) = match read_lp(b, p5) {
        Some((d, p)) => (vstd::slice::slice_to_vec(d), p),
        None => {
            proof {
                assert forall|m: ServiceV, s: Seq<char>|
                    #[trigger] payload_body(RumorV::Service(m), s) == b@ implies false by {
                    lemma_service_layout(m, s, b@);
                }
            }
            return Err(mismatch("cfg"));
        },
    };
    let (sys, p7): (Vec<u8>, usize) = match read_lp(b, p6) {
        Some((d, p)) => (vstd::slice::slice_to_vec(d), p),
        None => {
            proof {
                assert forall|m: ServiceV, s: Seq<char>|
                    #[trigger] payload_body(RumorV::Service(m), s) == b@ implies false by {
                    lemma_service_layout(m, s, b@);
                }
            }
            return Err(mismatch("sys"));
        },
    };
    match read_exp(b, p7) {
        Ok((exp, _pe)) => {
            let x = Service {
                member_id,
                service_group,
                pkg,
                incarnation: incarnation_v,
                initialized,
                cfg,
                sys,
                expiration: exp,
            };
            let r: Result<Service, RumorError> = Ok(x);
            proof {
                assert forall|m: ServiceV, s: Seq<char>|
                    #[trigger] payload_body(RumorV::Service(m), s) == b@ implies (
                match crate::expiration::rfc3339_parse(s) {
                    Some(n) => r matches Ok(x2) && x2@ == (ServiceV { expiration: n, ..m }),
                    None => r matches Err(e) && (e matches RumorError::ProtocolMismatch {
                        field,
                    } && field@ == "expiration"@),
                }) by {
                    lemma_service_layout(m, s, b@);
                    crate::text::lemma_utf8_injective(m.member_id, member_id@);
                    crate::text::lemma_utf8_injective(m.service_group, service_group@);
                    crate::text::lemma_utf8_injective(m.pkg, pkg@);
                }
            }
            r
        },
        Err(e) => {
            let r: Result<Service, RumorError> = Err(e);
            proof {
                assert forall|m: ServiceV, s: Seq<char>|
                    #[trigger] payload_body(RumorV::Service(m), s) == b@ implies (
                match crate::expiration::rfc3339_parse(s) {
                    Some(n) => r matches Ok(x2) && x2@ == (ServiceV { expiration: n, ..m }),
                    None => r matches Err(e2) && (e2 matches RumorError::ProtocolMismatch {
                        field,
                    } && field@ == "expiration"@),
                }) by {
                    lemma_service_layout(m, s, b@);
                }
            }
            r
        },
    }
}

/// A serviceconfig payload pins down every read the decoder makes.
proof fn lemma_serviceconfig_layout(m: ServiceConfigV, s: Seq<char>, b: Seq<u8>)
    requires
        b == payload_body(RumorV::ServiceConfig(m), s),
        b.len() <= u64::MAX,
    ensures
        dec_lp(b, 0) matches Some((d1, e1)) && vstd::utf8::valid_utf8(d1) && vstd::utf8::decode_utf8(d1) == m.service_group && (dec_varint(b, e1) matches Some((v2, e2)) && v2 == m.incarnation && (dec_varint(b, e2) matches Some((v3, e3)) && v3 == (if m.encrypted { 1u64 } else { 0u64 }) && (dec_lp(b, e3) matches Some((d4, e4)) && d4 == m.config && starts_with(b, e4, exp_enc_text(s))))),
{
    let l1 = lp_str(m.service_group);
    let l2 = l1 + varint(m.incarnation);
    let l3 = l2 + varint(if m.encrypted { 1u64 } else { 0u64 });
    let l4 = l3 + lp(m.config);
    assert(b == l4 + exp_enc_text(s));
    assert(starts_with(b, 0, l4 + exp_enc_text(s))) by {
        assert(b.subrange(0, b.len() as int) =~= b);
    }
    lemma_starts_with_concat(b, 0, l4, exp_enc_text(s));
    lemma_starts_with_concat(b, 0, l3, lp(m.config));
    lemma_starts_with_concat(b, 0, l2, varint(if m.encrypted { 1u64 } else { 0u64 }));
    lemma_starts_with_concat(b, 0, l1, varint(m.incarnation));
    lemma_str_field(m.service_group, b, 0);
    lemma_varint_field(m.incarnation, b, l1.len() as int);
    lemma_varint_field(if m.encrypted { 1u64 } else { 0u64 }, b, l2.len() as int);
    lemma_bytes_field(m.config, b, l3.len() as int);
}

/// Decodes a service-config payload.
fn decode_service_config(b: &[u8]) -> (r: Result<ServiceConfig, RumorError>)
    ensures
        forall|m: ServiceConfigV, s: Seq<char>|
            #[trigger] payload_body(RumorV::ServiceConfig(m), s) == b@ ==> (
            match crate::expiration::rfc3339_parse(s) {
                Some(n) => r matches Ok(x) && x@ == (ServiceConfigV { expiration: n, ..m }),
                None => r matches Err(e) && (e matches RumorError::ProtocolMismatch { field }
                    && field@ == "expiration"@),
            }),
{
    let blen = b.len();
    proof {
        assert(b@.len() <= u64::MAX);
    }
    let (service_group, p1) = match read_string(b, 0) {
        Some(x) => x,
        None => {
            proof {
                assert forall|m: ServiceConfigV, s: Seq<char>|
                    #[trigger] payload_body(RumorV::ServiceConfig(m), s) == b@ implies false by {
                    lemma_serviceconfig_layout(m, s, b@);
                }
            }
            return Err(mismatch("service-group"));
        },
    };
    let (incarnation_v, p2) = match read_varint(b, p1) {
        Some(x) => x,
        None => {
            proof {
                assert forall|m: ServiceConfigV, s: Seq<char>|
                    #[trigger] payload_body(RumorV::ServiceConfig(m), s) == b@ implies false by {
                    lemma_serviceconfig_layout(m, s, b@);
                }
            }
            return Err(mismatch("incarnation"));
        },
    };
    let (encrypted_v, p3) = match read_varint(b, p2) {
        Some(x) => x,
        None => {
            proof {
                assert forall|m: ServiceConfigV, s: Seq<char>|
                    #[trigger] payload_body(RumorV::ServiceConfig(m), s) == b@ implies false by {
                    lemma_serviceconfig_layout(m, s, b@);
                }
            }
            return Err(mismatch("encrypted"));
        },
    };
    let encrypted: bool = if encrypted_v == 0 {
        false
    } else if encrypted_v == 1 {
        true
    } else {
            proof {
                assert forall|m: ServiceConfigV, s: Seq<char>|
                    #[trigger] payload_body(RumorV::ServiceConfig(m), s) == b@ implies false by {
                    lemma_serviceconfig_layout(m, s, b@);
                }
            }
        return Err(mismatch("encrypted"));
    };
    let (config, p4): (Vec<u8>, usize) = match read_lp(b, p3) {
        Some((d, p)) => (vstd::slice::slice_to_vec(d), p),
        None => {
            proof {
                assert forall|m: ServiceConfigV, s: Seq<char>|
                    #[trigger] payload_body(RumorV::ServiceConfig(m), s) == b@ implies false by {
                    lemma_serviceconfig_layout(m, s, b@);
                }
            }
            return Err(mismatch("config"));
        },
    };
    match read_exp(b, p4) {
        Ok((exp, _pe)) => {
            let x = ServiceConfig {
                service_group,
                incarnation: incarnation_v,
                encrypted,
                config,
                expiration: exp,
            };
            let r: Result<ServiceConfig, RumorError> = Ok(x);
            proof {
                assert forall|m: ServiceConfigV, s: Seq<char>|
                    #[trigger] payload_body(RumorV::ServiceConfig(m), s) == b@ implies (
                match crate::expiration::rfc3339_parse(s) {
                    Some(n) => r matches Ok(x2) && x2@ == (ServiceConfigV { expiration: n, ..m }),
                    None => r matches Err(e) && (e matches RumorError::ProtocolMismatch {
                        field,
                    } && field@ == "expiration"@),
                }) by {
                    lemma_serviceconfig_layout(m, s, b@);
                    crate::text::lemma_utf8_injective(m.service_group, service_group@);
                }
            }
            r
        },
        Err(e) => {
            let r: Result<ServiceConfig, RumorError> = Err(e);
            proof {
                assert forall|m: ServiceConfigV, s: Seq<char>|
                    #[trigger] payload_body(RumorV::ServiceConfig(m), s) == b@ implies (
                match crate::expiration::rfc3339_parse(s) {
                    Some(n) => r matches Ok(x2) && x2@ == (ServiceConfigV { expiration: n, ..m }),
                    None => r matches Err(e2) && (e2 matches RumorError::ProtocolMismatch {
                        field,
                    } && field@ == "expiration"@),
                }) by {
                    lemma_serviceconfig_layout(m, s, b@);
                }
            }
            r
        },
    }
}

/// A servicefile payload pins down every read the decoder makes.
proof fn lemma_servicefile_layout(m: ServiceFileV, s: Seq<char>, b: Seq<u8>)
    requires
        b == payload_body(RumorV::ServiceFile(m), s),
        b.len() <= u64::MAX,
    ensures
        dec_lp(b, 0) matches Some((d1, e1)) && vstd::utf8::valid_utf8(d1) && vstd::utf8::decode_utf8(d1) == m.service_group && (dec_lp(b, e1) matches Some((d2, e2)) && vstd::utf8::valid_utf8(d2) && vstd::utf8::decode_utf8(d2) == m.filename && (dec_varint(b, e2) matches Some((v3, e3)) && v3 == m.incarnation && (dec_lp(b, e3) matches Some((d4, e4)) && d4 == m.body && starts_with(b, e4, exp_enc_text(s))))),
{
    let l1 = lp_str(m.service_group);
    let l2 = l1 + lp_str(m.filename);
    let l3 = l2 + varint(m.incarnation);
    let l4 = l3 + lp(m.body);
    assert(b == l4 + exp_enc_text(s));
    assert(starts_with(b, 0, l4 + exp_enc_text(s))) by {
        assert(b.subrange(0, b.len() as int) =~= b);
    }
    lemma_starts_with_concat(b, 0, l4, exp_enc_text(s));
    lemma_starts_with_concat(b, 0, l3, lp(m.body));
    lemma_starts_with_concat(b, 0, l2, varint(m.incarnation));
    lemma_starts_with_concat(b, 0, l1, lp_str(m.filename));
    lemma_str_field(m.service_group, b, 0);
    lemma_str_field(m.filename, b, l1.len() as int);
    lemma_varint_field(m.incarnation, b, l2.len() as int);
    lemma_bytes_field(m.body, b, l3.len() as int);
}

/// Decodes a service-file payload.
fn decode_service_file(b: &[u8]) -> (r: Result<ServiceFile, RumorError>)
    ensures
        forall|m: ServiceFileV, s: Seq<char>|
            #[trigger] payload_body(RumorV::ServiceFile(m), s) == b@ ==> (
            match crate::expiration::rfc3339_parse(s) {
                Some(n) => r matches Ok(x) && x@ == (ServiceFileV { expiration: n, ..m }),
                None => r matches Err(e) && (e matches RumorError::ProtocolMismatch { field }
                    && field@ == "expiration"@),
            }),
{
    let blen = b.len();
    proof {
        assert(b@.len() <= u64::MAX);
    }
    let (service_group, p1) = match read_string(b, 0) {
        Some(x) => x,
        None => {
            proof {
                assert forall|m: ServiceFileV, s: Seq<char>|
                    #[trigger] payload_body(RumorV::ServiceFile(m), s) == b@ implies false by {
                    lemma_servicefile_layout(m, s, b@);
                }
            }
            return Err(mismatch("service-group"));
        },
    };
    let (filename, p2) = match read_string(b, p1) {
        Some(x) => x,
        None => {
            proof {
                assert forall|m: ServiceFileV, s: Seq<char>|
                    #[trigger] payload_body(RumorV::ServiceFile(m), s) == b@ implies false by {
                    lemma_servicefile_layout(m, s, b@);
                }
            }
            return Err(mismatch("filename"));
        },
    };
    let (incarnation_v, p3) = match read_varint(b, p2) {
        Some(x) => x,
        None => {
            proof {
                assert forall|m: ServiceFileV, s: Seq<char>|
                    #[trigger] payload_body(RumorV::ServiceFile(m), s) == b@ implies false by {
                    lemma_servicefile_layout(m, s, b@);
                }
            }
            return Err(mismatch("incarnation"));
        },
    };
    let (body, p4): (Vec<u8>, usize) = match read_lp(b, p3) {
        Some((d, p)) => (vstd::slice::slice_to_vec(d), p),
        None => {
            proof {
                assert forall|m: ServiceFileV, s: Seq<char>|
                    #[trigger] payload_body(RumorV::ServiceFile(m), s) == b@ implies false by {
                    lemma_servicefile_layout(m, s, b@);
                }
            }
            return Err(mismatch("body"));
        },
    };
    match read_exp(b, p4) {
        Ok((exp, _pe)) => {
            let x = ServiceFile {
                service_group,
                filename,
                incarnation: incarnation_v,
                body,
                expiration: exp,
            };
            let r: Result<ServiceFile, RumorError> = Ok(x);
            proof {
                assert forall|m: ServiceFileV, s: Seq<char>|
                    #[trigger] payload_body(RumorV::ServiceFile(m), s) == b@ implies (
                match crate::expiration::rfc3339_parse(s) {
                    Some(n) => r matches Ok(x2) && x2@ == (ServiceFileV { expiration: n, ..m }),
                    None => r matches Err(e) && (e matches RumorError::ProtocolMismatch {
                        field,
                    } && field@ == "expiration"@),
                }) by {
                    lemma_servicefile_layout(m, s, b@);
                    crate::text::lemma_utf8_injective(m.service_group, service_group@);
                    crate::text::lemma_utf8_injective(m.filename, filename@);
                }
            }
            r
        },
        Err(e) => {
            let r: Result<ServiceFile, RumorError> = Err(e);
            proof {
                assert forall|m: ServiceFileV, s: Seq<char>|
                    #[trigger] payload_body(RumorV::ServiceFile(m), s) == b@ implies (
                match crate::expiration::rfc3339_parse(s) {
                    Some(n) => r matches Ok(x2) && x2@ == (ServiceFileV { expiration: n, ..m }),
                    None => r matches Err(e2) && (e2 matches RumorError::ProtocolMismatch {
                        field,
                    } && field@ == "expiration"@),
                }) by {
                    lemma_servicefile_layout(m, s, b@);
                }
            }
            r
        },
    }
}


/// The vote encoding read from the front, starting at vote `j`.
pub open spec fn votes_enc_tail(vs: Seq<Seq<char>>, j: int) -> Seq<u8>
    decreases vs.len() - j,
{
    if j < 0 || j >= vs.len() {
        Seq::<u8>::empty()
    } else {
        lp_str(vs[j]) + votes_enc_tail(vs, j + 1)
    }
}

/// The vote encoding splits at any vote index.
proof fn lemma_votes_enc_split(vs: Seq<Seq<char>>, j: int)
    requires
        0 <= j <= vs.len(),
    ensures
        votes_enc(vs) == votes_enc(vs.subrange(0, j)) + votes_enc_tail(vs, j),
    decreases vs.len() - j,
{
    if j == vs.len() {
        assert(vs.subrange(0, j) =~= vs);
        assert(votes_enc(vs) + Seq::<u8>::empty() =~= votes_enc(vs));
    } else {
        lemma_votes_enc_split(vs, j + 1);
        assert(vs.subrange(0, j + 1).drop_last() =~= vs.subrange(0, j));
        assert(vs.subrange(0, j + 1).last() == vs[j]);
        assert(votes_enc(vs.subrange(0, j + 1)) == votes_enc(vs.subrange(0, j)) + lp_str(
            vs[j],
        ));
        assert((votes_enc(vs.subrange(0, j)) + lp_str(vs[j])) + votes_enc_tail(vs, j + 1)
            =~= votes_enc(vs.subrange(0, j)) + (lp_str(vs[j]) + votes_enc_tail(vs, j + 1)));
    }
}

/// The fixed-field prefix of an election body.
pub open spec fn election_prefix(e: ElectionV) -> Seq<u8> {
    lp_str(e.member_id) + lp_str(e.service_group) + varint(e.term) + varint(e.suitability)
        + varint(status_rank(e.status) as u64) + varint(e.votes.len() as u64)
}

/// An election body pins down every fixed-field read the decoder makes,
/// and carries the votes and the expiration after them.
#[verifier::rlimit(100)]
proof fn lemma_election_layout(m: ElectionV, s: Seq<char>, b: Seq<u8>)
    requires
        b == election_body(m, s),
        b.len() <= u64::MAX,
    ensures
        dec_lp(b, 0) matches Some((d1, e1)) && vstd::utf8::valid_utf8(d1)
            && vstd::utf8::decode_utf8(d1) == m.member_id && (dec_lp(b, e1) matches Some((d2, e2))
            && vstd::utf8::valid_utf8(d2) && vstd::utf8::decode_utf8(d2) == m.service_group && (
        dec_varint(b, e2) matches Some((v3, e3)) && v3 == m.term && (dec_varint(b, e3)
            matches Some((v4, e4)) && v4 == m.suitability && (dec_varint(b, e4) matches Some(
            (v5, e5),
        ) && v5 == status_rank(m.status) as u64 && (dec_varint(b, e5) matches Some((v6, e6)) && v6
            == m.votes.len() as u64 && e6 == election_prefix(m).len() && starts_with(
            b,
            e6,
            votes_enc(m.votes),
        ) && starts_with(
            b,
            e6 + votes_enc(m.votes).len(),
            exp_enc_text(s),
        )))))),
{
    let l1 = lp_str(m.member_id);
    let l2 = l1 + lp_str(m.service_group);
    let l3 = l2 + varint(m.term);
    let l4 = l3 + varint(m.suitability);
    let l5 = l4 + varint(status_rank(m.status) as u64);
    let l6 = l5 + varint(m.votes.len() as u64);
    let l7 = l6 + votes_enc(m.votes);
    assert(b == l7 + exp_enc_text(s));
    assert(starts_with(b, 0, l7 + exp_enc_text(s))) by {
        assert(b.subrange(0, b.len() as int) =~= b);
    }
    lemma_starts_with_concat(b, 0, l7, exp_enc_text(s));
    lemma_starts_with_concat(b, 0, l6, votes_enc(m.votes));
    lemma_starts_with_concat(b, 0, l5, varint(m.votes.len() as u64));
    lemma_starts_with_concat(b, 0, l4, varint(status_rank(m.status) as u64));
    lemma_starts_with_concat(b, 0, l3, varint(m.suitability));
    lemma_starts_with_concat(b, 0, l2, varint(m.term));
    lemma_starts_with_concat(b, 0, l1, lp_str(m.service_group));
    lemma_str_field(m.member_id, b, 0);
    lemma_str_field(m.service_group, b, l1.len() as int);
    lemma_varint_field(m.term, b, l2.len() as int);
    lemma_varint_field(m.suitability, b, l3.len() as int);
    lemma_varint_field(status_rank(m.status) as u64, b, l4.len() as int);
    lemma_varint_field(m.votes.len() as u64, b, l5.len() as int);
}

/// Whether an election value's vote list fits in memory; every executable
/// election satisfies this.
pub open spec fn votes_len_ok(v: RumorV) -> bool {
    match v {
        RumorV::Election(e) => e.votes.len() <= usize::MAX,
        RumorV::ElectionUpdate(e) => e.votes.len() <= usize::MAX,
        _ => true,
    }
}

/// The election-body hypothesis the decoder's contract quantifies over.
pub open spec fn election_hyp(m: ElectionV, s: Seq<char>, b: Seq<u8>) -> bool {
    crate::rumor::votes_sorted(m.votes) && m.votes.len() <= usize::MAX && election_body(m, s)
        == b
}

/// Decodes an election body; the result always carries a sorted,
/// duplicate-free vote list.
#[verifier::rlimit(100)]
fn decode_election(b: &[u8]) -> (r: Result<Election, RumorError>)
    ensures
        forall|m: ElectionV, s: Seq<char>| #[trigger] election_hyp(m, s, b@) ==> (
        match crate::expiration::rfc3339_parse(s) {
            Some(n) => r matches Ok(x) && x@ == (ElectionV { expiration: n, ..m }),
            None => r matches Err(e) && (e matches RumorError::ProtocolMismatch { field }
                && field@ == "expiration"@),
        }),
        r matches Ok(x) ==> crate::rumor::votes_sorted(x@.votes),
{
    let blen = b.len();
    proof {
        assert(b@.len() <= u64::MAX);
    }
    let r1 = read_string(b, 0);
    let (member_id, p1) = match r1 {
        Some(x) => x,
        None => {
            proof {
                assert forall|m: ElectionV, s: Seq<char>|
                    !election_hyp(m, s, b@) by {
                    if election_hyp(m, s, b@) {
                        lemma_election_layout(m, s, b@);
                    }
                }
            }
            return Err(mismatch("member-id"));
        },
    };
    let r2 = read_string(b, p1);
    let (service_group, p2) = match r2 {
        Some(x) => x,
        None => {
            proof {
                assert forall|m: ElectionV, s: Seq<char>|
                    !election_hyp(m, s, b@) by {
                    if election_hyp(m, s, b@) {
                        lemma_election_layout(m, s, b@);
                        crate::text::lemma_utf8_injective(m.member_id, member_id@);
                    }
                }
            }
            return Err(mismatch("service-group"));
        },
    };
    let r3 = read_varint(b, p2);
    let (term, p3) = match r3 {
        Some(x) => x,
        None => {
            proof {
                assert forall|m: ElectionV, s: Seq<char>|
                    !election_hyp(m, s, b@) by {
                    if election_hyp(m, s, b@) {
                        lemma_election_layout(m, s, b@);
                    }
                }
            }
            return Err(mismatch("term"));
        },
    };
    let r4 = read_varint(b, p3);
    let (suitability, p4) = match r4 {
        Some(x) => x,
        None => {
            proof {
                assert forall|m: ElectionV, s: Seq<char>|
                    !election_hyp(m, s, b@) by {
                    if election_hyp(m, s, b@) {
                        lemma_election_layout(m, s, b@);
                    }
                }
            }
            return Err(mismatch("suitability"));
        },
    };
    let r5 = read_varint(b, p4);
    let (rank, p5) = match r5 {
        Some(x) => x,
        None => {
            proof {
                assert forall|m: ElectionV, s: Seq<char>|
                    !election_hyp(m, s, b@) by {
                    if election_hyp(m, s, b@) {
                        lemma_election_layout(m, s, b@);
                    }
                }
            }
            return Err(mismatch("status"));
        },
    };
    let status = match rank_to_status(rank) {
        Some(x) => x,
        None => {
            proof {
                assert forall|m: ElectionV, s: Seq<char>|
                    !election_hyp(m, s, b@) by {
                    if election_hyp(m, s, b@) {
                        lemma_election_layout(m, s, b@);
                    }
                }
            }
            return Err(mismatch("status"));
        },
    };
    let r6 = read_varint(b, p5);
    let (count, p6) = match r6 {
        Some(x) => x,
        None => {
            proof {
                assert forall|m: ElectionV, s: Seq<char>|
                    !election_hyp(m, s, b@) by {
                    if election_hyp(m, s, b@) {
                        lemma_election_layout(m, s, b@);
                    }
                }
            }
            return Err(mismatch("votes"));
        },
    };
    if count > usize::MAX as u64 {
        proof {
            assert forall|m: ElectionV, s: Seq<char>|
                !election_hyp(m, s, b@) by {
                if election_hyp(m, s, b@) {
                    lemma_election_layout(m, s, b@);
                }
            }
        }
        return Err(mismatch("votes"));
    }
    let total: usize = count as usize;
    let mut votes: Vec<String> = Vec::new();
    let mut pos: usize = p6;
    let mut k: usize = 0;
    proof {
        assert forall|m: ElectionV, s: Seq<char>| #[trigger] election_hyp(m, s, b@) implies (
        count == m.votes.len() && pos as int == election_prefix(m).len() + votes_enc(
            m.votes.subrange(0, 0),
        ).len() && votes.deep_view() == m.votes.subrange(0, 0)) by {
            lemma_election_layout(m, s, b@);
            assert(m.votes.subrange(0, 0) =~= Seq::<Seq<char>>::empty());
            assert(votes_enc(Seq::<Seq<char>>::empty()) =~= Seq::<u8>::empty());
            assert(votes.deep_view() =~= m.votes.subrange(0, 0));
        }
    }
    while k < total
        invariant
            0 <= k <= total,
            total == count,
            pos <= b@.len(),
            b@.len() <= u64::MAX,
            crate::rumor::votes_sorted(votes.deep_view()),
            votes@.len() == k,
            k > 0 ==> votes.deep_view().last() == votes@[k - 1]@,
            forall|j: int, q: int|
                0 <= j < q < votes.deep_view().len() ==> lex_lt(
                    bytes_of(#[trigger] votes.deep_view()[j]),
                    bytes_of(#[trigger] votes.deep_view()[q]),
                ),
            forall|m: ElectionV, s: Seq<char>| #[trigger] election_hyp(m, s, b@) ==> (
            count == m.votes.len() && k <= m.votes.len() && pos as int == election_prefix(
                m,
            ).len() + votes_enc(m.votes.subrange(0, k as int)).len() && votes.deep_view()
                == m.votes.subrange(0, k as int)),
        decreases total - k,
    {
        let rv = read_string(b, pos);
        let (vote, p_next) = match rv {
            Some(x) => x,
            None => {
                proof {
                    assert forall|m: ElectionV, s: Seq<char>|
                        !election_hyp(m, s, b@) by {
                        if election_hyp(m, s, b@) {
                            lemma_election_layout(m, s, b@);
                            lemma_votes_enc_split(m.votes, k as int);
                            lemma_starts_with_concat(
                                b@,
                                election_prefix(m).len() as int,
                                votes_enc(m.votes.subrange(0, k as int)),
                                votes_enc_tail(m.votes, k as int),
                            );
                            assert(votes_enc_tail(m.votes, k as int) == lp_str(
                                m.votes[k as int],
                            ) + votes_enc_tail(m.votes, k + 1));
                            lemma_starts_with_concat(
                                b@,
                                pos as int,
                                lp_str(m.votes[k as int]),
                                votes_enc_tail(m.votes, k + 1),
                            );
                            lemma_str_field(m.votes[k as int], b@, pos as int);
                        }
                    }
                }
                return Err(mismatch("votes"));
            },
        };
        let ok_order = if k == 0 {
            true
        } else {
            crate::text::str_lt(votes[k - 1].as_str(), vote.as_str())
        };
        if !ok_order {
            proof {
                assert forall|m: ElectionV, s: Seq<char>|
                    !election_hyp(m, s, b@) by {
                    if election_hyp(m, s, b@) {
                        lemma_election_layout(m, s, b@);
                        lemma_votes_enc_split(m.votes, k as int);
                        lemma_starts_with_concat(
                            b@,
                            election_prefix(m).len() as int,
                            votes_enc(m.votes.subrange(0, k as int)),
                            votes_enc_tail(m.votes, k as int),
                        );
                        assert(votes_enc_tail(m.votes, k as int) == lp_str(m.votes[k as int])
                            + votes_enc_tail(m.votes, k + 1));
                        lemma_starts_with_concat(
                            b@,
                            pos as int,
                            lp_str(m.votes[k as int]),
                            votes_enc_tail(m.votes, k + 1),
                        );
                        lemma_str_field(m.votes[k as int], b@, pos as int);
                        crate::text::lemma_utf8_injective(m.votes[k as int], vote@);
                        assert(votes.deep_view()[k - 1] == m.votes[k - 1]);
                        assert(lex_lt(
                            bytes_of(m.votes[k - 1]),
                            bytes_of(m.votes[k as int]),
                        ));
                    }
                }
            }
            return Err(mismatch("votes"));
        }
        let ghost oldvs = votes.deep_view();
        votes.push(vote);
        proof {
            let vs = votes.deep_view();
            assert(vs =~= oldvs.push(vs.last()));
            assert forall|j: int, q: int| 0 <= j < q < vs.len() implies lex_lt(
                bytes_of(#[trigger] vs[j]),
                bytes_of(#[trigger] vs[q]),
            ) by {
                if q < vs.len() - 1 {
                    assert(vs[j] == oldvs[j] && vs[q] == oldvs[q]);
                } else {
                    assert(vs[q] == vs.last());
                    if j == vs.len() - 2 {
                    } else {
                        assert(lex_lt(bytes_of(oldvs[j]), bytes_of(oldvs[oldvs.len() - 1])));
                        crate::text::lemma_lex_trans(
                            bytes_of(vs[j]),
                            bytes_of(oldvs[oldvs.len() - 1]),
                            bytes_of(vs.last()),
                        );
                    }
                }
            }
            assert forall|m: ElectionV, s: Seq<char>| #[trigger] election_hyp(m, s, b@) implies (
            count == m.votes.len() && k + 1 <= m.votes.len() && p_next as int == election_prefix(
                m,
            ).len() + votes_enc(m.votes.subrange(0, k + 1)).len() && vs == m.votes.subrange(
                0,
                k + 1,
            )) by {
                lemma_election_layout(m, s, b@);
                lemma_votes_enc_split(m.votes, k as int);
                lemma_starts_with_concat(
                    b@,
                    election_prefix(m).len() as int,
                    votes_enc(m.votes.subrange(0, k as int)),
                    votes_enc_tail(m.votes, k as int),
                );
                assert(votes_enc_tail(m.votes, k as int) == lp_str(m.votes[k as int])
                    + votes_enc_tail(m.votes, k + 1));
                lemma_starts_with_concat(
                    b@,
                    pos as int,
                    lp_str(m.votes[k as int]),
                    votes_enc_tail(m.votes, k + 1),
                );
                lemma_str_field(m.votes[k as int], b@, pos as int);
                crate::text::lemma_utf8_injective(m.votes[k as int], vs.last());
                assert(m.votes.subrange(0, k + 1).drop_last() =~= m.votes.subrange(0, k as int));
                assert(votes_enc(m.votes.subrange(0, k + 1)) == votes_enc(
                    m.votes.subrange(0, k as int),
                ) + lp_str(m.votes[k as int]));
                assert(vs =~= m.votes.subrange(0, k + 1));
            }
        }
        pos = p_next;
        k = k + 1;
    }
    match read_exp(b, pos) {
        Ok((exp, _pe)) => {
            let x = Election {
                member_id,
                service_group,
                term,
                suitability,
                status,
                votes,
                expiration: exp,
            };
            let r: Result<Election, RumorError> = Ok(x);
            proof {
                assert forall|m: ElectionV, s: Seq<char>| #[trigger] election_hyp(m, s, b@) implies (
                match crate::expiration::rfc3339_parse(s) {
                    Some(n) => r matches Ok(x2) && x2@ == (ElectionV { expiration: n, ..m }),
                    None => r matches Err(e) && (e matches RumorError::ProtocolMismatch {
                        field,
                    } && field@ == "expiration"@),
                }) by {
                    lemma_election_layout(m, s, b@);
                    lemma_votes_enc_split(m.votes, m.votes.len() as int);
                    assert(m.votes.subrange(0, m.votes.len() as int) =~= m.votes);
                    assert(votes_enc_tail(m.votes, m.votes.len() as int)
                        =~= Seq::<u8>::empty());
                    assert(votes_enc(m.votes) + Seq::<u8>::empty() =~= votes_enc(m.votes));
                    crate::text::lemma_utf8_injective(m.member_id, member_id@);
                    crate::text::lemma_utf8_injective(m.service_group, service_group@);
                    assert(x@.votes == m.votes);
                }
            }
            r
        },
        Err(e) => {
            let r: Result<Election, RumorError> = Err(e);
            proof {
                assert forall|m: ElectionV, s: Seq<char>| #[trigger] election_hyp(m, s, b@) implies (
                match crate::expiration::rfc3339_parse(s) {
                    Some(n) => r matches Ok(x2) && x2@ == (ElectionV { expiration: n, ..m }),
                    None => r matches Err(e2) && (e2 matches RumorError::ProtocolMismatch {
                        field,
                    } && field@ == "expiration"@),
                }) by {
                    lemma_election_layout(m, s, b@);
                    assert(m.votes.subrange(0, m.votes.len() as int) =~= m.votes);
                }
            }
            r
        },
    }
}


/// An envelope pins down the header reads: the marker bytes, the kind
/// tag, the sender bytes and the payload bytes.
#[verifier::rlimit(100)]
proof fn lemma_envelope_layout(t: u64, fid: Seq<u8>, p: Seq<u8>, b: Seq<u8>)
    requires
        b == envelope_raw(t, fid, p),
        b.len() <= u64::MAX,
    ensures
        b.len() > 0 && b[0] == 8,
        dec_varint(b, 1) matches Some((tv, e1)) && tv == t && e1 < b.len() && b[e1] == 18 && (
        dec_lp(b, e1 + 1) matches Some((d2, e2)) && d2 == fid && e2 < b.len() && b[e2] == 26 && (
        dec_lp(b, e2 + 1) matches Some((d3, e3)) && d3 == p && e3 == b.len())),
{
    let l1 = seq![8u8];
    let l2 = l1 + varint(t);
    let l3 = l2 + seq![18u8];
    let l4 = l3 + lp(fid);
    let l5 = l4 + seq![26u8];
    assert(b == l5 + lp(p));
    assert(starts_with(b, 0, l5 + lp(p))) by {
        assert(b.subrange(0, b.len() as int) =~= b);
    }
    lemma_starts_with_concat(b, 0, l5, lp(p));
    lemma_starts_with_concat(b, 0, l4, seq![26u8]);
    lemma_starts_with_concat(b, 0, l3, lp(fid));
    lemma_starts_with_concat(b, 0, l2, seq![18u8]);
    lemma_starts_with_concat(b, 0, l1, varint(t));
    assert(b.subrange(0, 1)[0] == b[0]);
    assert(b[0] == 8);
    lemma_varint_field(t, b, 1);
    assert(b.subrange(l2.len() as int, l2.len() as int + 1)[0] == b[l2.len() as int]);
    assert(b[l2.len() as int] == 18);
    lemma_bytes_field(fid, b, l3.len() as int);
    assert(b.subrange(l4.len() as int, l4.len() as int + 1)[0] == b[l4.len() as int]);
    assert(b[l4.len() as int] == 26);
    lemma_bytes_field(p, b, l5.len() as int);
}

/// A from-id-less envelope pins down the header reads up to the payload
/// marker that arrives too early.
proof fn lemma_envelope_nofid_layout(t: u64, p: Seq<u8>, b: Seq<u8>)
    requires
        b == seq![8u8] + varint(t) + seq![26u8] + lp(p),
        b.len() <= u64::MAX,
    ensures
        b.len() > 0 && b[0] == 8,
        dec_varint(b, 1) matches Some((tv, e1)) && tv == t && e1 < b.len() && b[e1] == 26,
{
    let l1 = seq![8u8];
    let l2 = l1 + varint(t);
    let l3 = l2 + seq![26u8];
    assert(b == l3 + lp(p));
    assert(starts_with(b, 0, l3 + lp(p))) by {
        assert(b.subrange(0, b.len() as int) =~= b);
    }
    lemma_starts_with_concat(b, 0, l3, lp(p));
    lemma_starts_with_concat(b, 0, l2, seq![26u8]);
    lemma_starts_with_concat(b, 0, l1, varint(t));
    assert(b.subrange(0, 1)[0] == b[0]);
    lemma_varint_field(t, b, 1);
    assert(b.subrange(l2.len() as int, l2.len() as int + 1)[0] == b[l2.len() as int]);
}

/// Splits an envelope into its kind tag, sender id and payload bytes.
#[verifier::rlimit(100)]
fn read_envelope_parts<'a>(b: &'a [u8]) -> (r: Result<(u64, String, &'a [u8]), RumorError>)
    ensures
        forall|t: u64, fid: Seq<u8>, p: Seq<u8>|
            (#[trigger] envelope_raw(t, fid, p) == b@ && 1 <= t <= 7 && vstd::utf8::valid_utf8(
                fid,
            )) ==> (r matches Ok(x) && x.0 == t && x.1@ == vstd::utf8::decode_utf8(fid) && x.2@
                == p),
        forall|t: u64, fid: Seq<u8>, p: Seq<u8>|
            (#[trigger] envelope_raw(t, fid, p) == b@ && !(1 <= t <= 7)) ==> (r matches Err(e)
                && (e matches RumorError::ProtocolMismatch { field } && field@ == "type"@)),
        forall|t: u64, p: Seq<u8>|
            #![trigger varint(t), lp(p)]
            (seq![8u8] + varint(t) + seq![26u8] + lp(p) == b@ && 1 <= t <= 7) ==> (r matches Err(
                e,
            ) && (e matches RumorError::ProtocolMismatch { field } && field@ == "from-id"@)),
{
    let blen = b.len();
    proof {
        assert(b@.len() <= u64::MAX);
    }
    if b.len() == 0 || b[0] != 8 {
        proof {
            lemma_none_layouts(b@);
        }
        return Err(mismatch("envelope"));
    }
    let (tag, q1) = match read_varint(b, 1) {
        Some(x) => x,
        None => {
            proof {
                lemma_none_layouts(b@);
            }
            return Err(mismatch("envelope"));
        },
    };
    if tag < 1 || tag > 7 {
        proof {
            lemma_none_layouts(b@);
        }
        return Err(mismatch("type"));
    }
    if q1 >= b.len() {
        proof {
            lemma_none_layouts(b@);
        }
        return Err(mismatch("envelope"));
    }
    if b[q1] == 26 {
        proof {
            lemma_none_layouts(b@);
        }
        return Err(mismatch("from-id"));
    }
    if b[q1] != 18 {
        proof {
            lemma_none_layouts(b@);
        }
        return Err(mismatch("envelope"));
    }
    let (fid_str, q2) = match read_string(b, q1 + 1) {
        Some(x) => x,
        None => {
            proof {
                lemma_none_layouts(b@);
            }
            return Err(mismatch("from-id"));
        },
    };
    if q2 >= b.len() || b[q2] != 26 {
        proof {
            lemma_none_layouts(b@);
        }
        return Err(mismatch("envelope"));
    }
    let (payload, q3) = match read_lp(b, q2 + 1) {
        Some(x) => x,
        None => {
            proof {
                lemma_none_layouts(b@);
            }
            return Err(mismatch("payload"));
        },
    };
    if q3 != b.len() {
        proof {
            lemma_none_layouts(b@);
        }
        return Err(mismatch("envelope"));
    }
    let r: Result<(u64, String, &[u8]), RumorError> = Ok((tag, fid_str, payload));
    proof {
        assert forall|t: u64, fid: Seq<u8>, p: Seq<u8>|
            (#[trigger] envelope_raw(t, fid, p) == b@ && 1 <= t <= 7 && vstd::utf8::valid_utf8(
                fid,
            )) implies (r matches Ok(x) && x.0 == t && x.1@ == vstd::utf8::decode_utf8(fid)
            && x.2@ == p) by {
            lemma_envelope_layout(t, fid, p, b@);
        }
        assert forall|t: u64, fid: Seq<u8>, p: Seq<u8>|
            (#[trigger] envelope_raw(t, fid, p) == b@ && !(1 <= t <= 7)) implies false by {
            lemma_envelope_layout(t, fid, p, b@);
        }
        assert forall|t: u64, p: Seq<u8>|
            #![trigger varint(t), lp(p)]
            (seq![8u8] + varint(t) + seq![26u8] + lp(p) == b@ && 1 <= t <= 7) implies false by {
            lemma_envelope_nofid_layout(t, p, b@);
        }
    }
    r
}

/// Shows that none of the canonical envelope shapes can lie behind bytes
/// whose reads went differently: every shape pins every read.
proof fn lemma_none_layouts(b: Seq<u8>)
    requires
        b.len() <= u64::MAX,
    ensures
        forall|t: u64, fid: Seq<u8>, p: Seq<u8>| #[trigger] envelope_raw(t, fid, p) == b ==> (
        b.len() > 0 && b[0] == 8 && (dec_varint(b, 1) matches Some((tv, e1)) && tv == t && e1
            < b.len() && b[e1] == 18 && (dec_lp(b, e1 + 1) matches Some((d2, e2)) && d2 == fid
            && vstd::utf8::valid_utf8(fid) == vstd::utf8::valid_utf8(d2) && e2 < b.len() && b[e2]
            == 26 && (dec_lp(b, e2 + 1) matches Some((d3, e3)) && d3 == p && e3 == b.len())))),
        forall|t: u64, p: Seq<u8>|
            #![trigger varint(t), lp(p)]
            seq![8u8] + varint(t) + seq![26u8] + lp(p) == b ==> (b.len() > 0 && b[0] == 8 && (
            dec_varint(b, 1) matches Some((tv, e1)) && tv == t && e1 < b.len() && b[e1] == 26)),
{
    assert forall|t: u64, fid: Seq<u8>, p: Seq<u8>| #[trigger] envelope_raw(t, fid, p) == b implies (
    b.len() > 0 && b[0] == 8 && (dec_varint(b, 1) matches Some((tv, e1)) && tv == t && e1
        < b.len() && b[e1] == 18 && (dec_lp(b, e1 + 1) matches Some((d2, e2)) && d2 == fid
        && vstd::utf8::valid_utf8(fid) == vstd::utf8::valid_utf8(d2) && e2 < b.len() && b[e2]
        == 26 && (dec_lp(b, e2 + 1) matches Some((d3, e3)) && d3 == p && e3 == b.len())))) by {
        lemma_envelope_layout(t, fid, p, b);
    }
    assert forall|t: u64, p: Seq<u8>|
        #![trigger varint(t), lp(p)]
        seq![8u8] + varint(t) + seq![26u8] + lp(p) == b implies (b.len() > 0 && b[0] == 8 && (
        dec_varint(b, 1) matches Some((tv, e1)) && tv == t && e1 < b.len() && b[e1] == 26)) by {
        lemma_envelope_nofid_layout(t, p, b);
    }
}


/// The canonical-envelope hypothesis the decoder's round-trip contract
/// quantifies over: canonical rumor, in-memory vote list, and the given
/// expiration text in the payload.
pub open spec fn envelope_hyp(v: RumorV, f: Seq<char>, s: Seq<char>, b: Seq<u8>) -> bool {
    crate::rumor::rumor_wf(v) && votes_len_ok(v) && envelope_raw(
        kind_tag(kind_of(v)) as u64,
        bytes_of(f),
        payload_body(v, s),
    ) == b
}

/// Decodes a wire envelope into the sender's id and the rumor it carries.
///
/// The contract is the codec's round trip: canonical bytes decode to the
/// value they encode (with the expiration read back from its text), an
/// unknown kind tag is a "type" mismatch, a missing sender id a "from-id"
/// mismatch, a malformed expiration an "expiration" mismatch; and every
/// decoded rumor is in canonical form.
#[verifier::rlimit(100)]
pub fn decode_envelope(b: &[u8]) -> (r: Result<(String, RumorKind), RumorError>)
    ensures
        forall|v: RumorV, f: Seq<char>, s: Seq<char>| #[trigger] envelope_hyp(v, f, s, b@) ==> (
        match crate::expiration::rfc3339_parse(s) {
            Some(n) => r matches Ok(x) && x.0@ == f && x.1@ == crate::rumor::with_exp(v, n),
            None => r matches Err(e) && (e matches RumorError::ProtocolMismatch { field }
                && field@ == "expiration"@),
        }),
        forall|t: u64, fid: Seq<u8>, p: Seq<u8>|
            (#[trigger] envelope_raw(t, fid, p) == b@ && !(1 <= t <= 7)) ==> (r matches Err(e)
                && (e matches RumorError::ProtocolMismatch { field } && field@ == "type"@)),
        forall|t: u64, p: Seq<u8>|
            #![trigger varint(t), lp(p)]
            (seq![8u8] + varint(t) + seq![26u8] + lp(p) == b@ && 1 <= t <= 7) ==> (r matches Err(
                e,
            ) && (e matches RumorError::ProtocolMismatch { field } && field@ == "from-id"@)),
        r matches Ok(x) ==> x.1.wf(),
{
    let blen = b.len();
    proof {
        assert(b@.len() <= u64::MAX);
    }
    let parts = read_envelope_parts(b);
    let (tag, from_id, payload) = match parts {
        Ok(x) => x,
        Err(e) => {
            let r: Result<(String, RumorKind), RumorError> = Err(e);
            proof {
                assert forall|v: RumorV, f: Seq<char>, s: Seq<char>|
                    !envelope_hyp(v, f, s, b@) by {
                    if envelope_hyp(v, f, s, b@) {
                        assert(1 <= kind_tag(kind_of(v)) <= 7);
                        vstd::utf8::encode_utf8_valid_utf8(f);
                    }
                }
            }
            return r;
        },
    };
    let rumor: RumorKind = if tag == 1 {
        match decode_membership(payload) {
            Ok(x) => RumorKind::Membership(x),
            Err(e) => {
                let r: Result<(String, RumorKind), RumorError> = Err(e);
                proof {
                    lemma_dispatch(b@, payload@, tag);
                }
                return r;
            },
        }
    } else if tag == 2 {
        match decode_departure(payload) {
            Ok(x) => RumorKind::Departure(x),
            Err(e) => {
                let r: Result<(String, RumorKind), RumorError> = Err(e);
                proof {
                    lemma_dispatch(b@, payload@, tag);
                }
                return r;
            },
        }
    } else if tag == 3 {
        match decode_service(payload) {
            Ok(x) => RumorKind::Service(x),
            Err(e) => {
                let r: Result<(String, RumorKind), RumorError> = Err(e);
                proof {
                    lemma_dispatch(b@, payload@, tag);
                }
                return r;
            },
        }
    } else if tag == 4 {
        match decode_service_config(payload) {
            Ok(x) => RumorKind::ServiceConfig(x),
            Err(e) => {
                let r: Result<(String, RumorKind), RumorError> = Err(e);
                proof {
                    lemma_dispatch(b@, payload@, tag);
                }
                return r;
            },
        }
    } else if tag == 5 {
        match decode_service_file(payload) {
            Ok(x) => RumorKind::ServiceFile(x),
            Err(e) => {
                let r: Result<(String, RumorKind), RumorError> = Err(e);
                proof {
                    lemma_dispatch(b@, payload@, tag);
                }
                return r;
            },
        }
    } else if tag == 6 {
        match decode_election(payload) {
            Ok(x) => RumorKind::Election(x),
            Err(e) => {
                let r: Result<(String, RumorKind), RumorError> = Err(e);
                proof {
                    lemma_dispatch(b@, payload@, tag);
                    assert forall|v: RumorV, f: Seq<char>, s: Seq<char>|
                        #[trigger] envelope_hyp(v, f, s, b@) implies election_hyp(
                        get_election(v),
                        s,
                        payload@,
                    ) by {
                        match v {
                            RumorV::Election(m) => {},
                            RumorV::ElectionUpdate(m) => {},
                            _ => {
                                assert(kind_tag(kind_of(v)) == tag);
                            },
                        }
                    }
                }
                return r;
            },
        }
    } else {
        match decode_election(payload) {
            Ok(x) => RumorKind::ElectionUpdate(x),
            Err(e) => {
                let r: Result<(String, RumorKind), RumorError> = Err(e);
                proof {
                    lemma_dispatch(b@, payload@, tag);
                    assert forall|v: RumorV, f: Seq<char>, s: Seq<char>|
                        #[trigger] envelope_hyp(v, f, s, b@) implies election_hyp(
                        get_election(v),
                        s,
                        payload@,
                    ) by {
                        match v {
                            RumorV::Election(m) => {},
                            RumorV::ElectionUpdate(m) => {},
                            _ => {
                                assert(kind_tag(kind_of(v)) == tag);
                            },
                        }
                    }
                }
                return r;
            },
        }
    };
    let r: Result<(String, RumorKind), RumorError> = Ok((from_id, rumor));
    proof {
        lemma_dispatch(b@, payload@, tag);
        assert forall|v: RumorV, f: Seq<char>, s: Seq<char>|
            #[trigger] envelope_hyp(v, f, s, b@) implies (
        match crate::expiration::rfc3339_parse(s) {
            Some(n) => r matches Ok(x) && x.0@ == f && x.1@ == crate::rumor::with_exp(v, n),
            None => r matches Err(e) && (e matches RumorError::ProtocolMismatch { field }
                && field@ == "expiration"@),
        }) by {
            assert(kind_tag(kind_of(v)) == tag && payload_body(v, s) == payload@);
            vstd::utf8::encode_utf8_decode_utf8(f);
            vstd::utf8::encode_utf8_valid_utf8(f);
            match v {
                RumorV::Membership(m) => {
                    assert(payload_body(RumorV::Membership(m), s) == payload@);
                },
                RumorV::Departure(m) => {
                    assert(payload_body(RumorV::Departure(m), s) == payload@);
                },
                RumorV::Service(m) => {
                    assert(payload_body(RumorV::Service(m), s) == payload@);
                },
                RumorV::ServiceConfig(m) => {
                    assert(payload_body(RumorV::ServiceConfig(m), s) == payload@);
                },
                RumorV::ServiceFile(m) => {
                    assert(payload_body(RumorV::ServiceFile(m), s) == payload@);
                },
                RumorV::Election(m) => {
                    assert(election_hyp(m, s, payload@));
                },
                RumorV::ElectionUpdate(m) => {
                    assert(election_hyp(m, s, payload@));
                },
            }
        }
    }
    r
}

/// The election value inside an election-shaped rumor.
pub open spec fn get_election(v: RumorV) -> ElectionV {
    match v {
        RumorV::Election(e) => e,
        RumorV::ElectionUpdate(e) => e,
        _ => arbitrary(),
    }
}

/// Under any canonical-envelope hypothesis over `b`, the payload bytes
/// satisfy the matching variant decoder's hypothesis and the kind tag
/// picks that variant.
proof fn lemma_dispatch(b: Seq<u8>, payload: Seq<u8>, tag: u64)
    requires
        b.len() <= u64::MAX,
        forall|t: u64, fid: Seq<u8>, p: Seq<u8>|
            (#[trigger] envelope_raw(t, fid, p) == b && 1 <= t <= 7 && vstd::utf8::valid_utf8(
                fid,
            )) ==> t == tag && p == payload,
    ensures
        forall|v: RumorV, f: Seq<char>, s: Seq<char>| #[trigger] envelope_hyp(v, f, s, b) ==> (
        kind_tag(kind_of(v)) == tag && payload_body(v, s) == payload),
{
    assert forall|v: RumorV, f: Seq<char>, s: Seq<char>| #[trigger] envelope_hyp(v, f, s, b) implies (
    kind_tag(kind_of(v)) == tag && payload_body(v, s) == payload) by {
        assert(1 <= kind_tag(kind_of(v)) <= 7);
        vstd::utf8::encode_utf8_valid_utf8(f);
    }
}


/// A decoded wire envelope: the kind tag, the sender, and the rumor.
#[derive(Clone, Debug)]
pub struct RumorEnvelope {
    pub kind_tag: crate::rumor::RumorType,
    pub from_id: String,
    pub kind: RumorKind,
}

impl RumorEnvelope {
    /// Decodes an envelope from wire bytes: canonical bytes give back the
    /// enveloped rumor, an unknown kind tag is a "type" mismatch, a
    /// missing sender id a "from-id" mismatch, a malformed expiration an
    /// "expiration" mismatch.
    pub fn decode(bytes: &[u8]) -> (r: Result<RumorEnvelope, RumorError>)
        ensures
            forall|v: RumorV, f: Seq<char>, s: Seq<char>|
                #[trigger] envelope_hyp(v, f, s, bytes@) ==> (
            match crate::expiration::rfc3339_parse(s) {
                Some(n) => r matches Ok(e) && e.from_id@ == f && e.kind@
                    == crate::rumor::with_exp(v, n) && e.kind_tag == kind_of(v),
                None => r matches Err(e) && (e matches RumorError::ProtocolMismatch { field }
                    && field@ == "expiration"@),
            }),
            forall|t: u64, fid: Seq<u8>, p: Seq<u8>|
                (#[trigger] envelope_raw(t, fid, p) == bytes@ && !(1 <= t <= 7)) ==> (r
                    matches Err(e) && (e matches RumorError::ProtocolMismatch { field } && field@
                    == "type"@)),
            forall|t: u64, p: Seq<u8>|
                #![trigger varint(t), lp(p)]
                (seq![8u8] + varint(t) + seq![26u8] + lp(p) == bytes@ && 1 <= t <= 7) ==> (r
                    matches Err(e) && (e matches RumorError::ProtocolMismatch { field } && field@
                    == "from-id"@)),
            r matches Ok(e) ==> e.kind.wf(),
    {
        match decode_envelope(bytes) {
            Ok((from_id, kind)) => {
                let tag = kind.kind();
                proof {
                    assert forall|v: RumorV, f: Seq<char>, s: Seq<char>|
                        #[trigger] envelope_hyp(v, f, s, bytes@) implies (
                    match crate::expiration::rfc3339_parse(s) {
                        Some(n) => kind@ == crate::rumor::with_exp(v, n) && kind_of(
                            crate::rumor::with_exp(v, n),
                        ) == kind_of(v),
                        None => false,
                    }) by {
                        crate::rumor::lemma_with_exp_identity(
                            v,
                            crate::expiration::rfc3339_parse(s)->0,
                        );
                    }
                }
                Ok(RumorEnvelope { kind_tag: tag, from_id, kind })
            },
            Err(e) => Err(e),
        }
    }

    /// Encodes this envelope to wire bytes.
    pub fn encode(self) -> (r: Vec<u8>)
        ensures
            r@ == envelope_enc(self.kind@, self.from_id@),
    {
        encode_envelope(self.from_id.as_str(), &self.kind)
    }
}

} // verus!
