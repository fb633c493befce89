//! The rumor model: the closed set of rumor variants, their identity
//! (kind, key, id), and the per-variant merge rules. Merging is the central
//! algorithm: last-writer-wins by incarnation for service-shaped rumors, a
//! health lattice for membership, idempotent insertion for departures, and a
//! small state machine for elections.

use vstd::prelude::*;

verus! {

use crate::expiration::Expiration;
use crate::text::{bytes_of, lemma_lex_trans, lemma_lex_trichotomy, lemma_utf8_injective, lex_lt};

/// Liveness of a peer, ordered from least to most terminal.
#[derive(Clone, Copy, Debug, PartialEq, Eq, Structural)]
pub enum Health {
    Alive,
    Suspect,
    Confirmed,
    Departed,
}

/// How terminal a health value is: merge adopts the more terminal one at
/// equal incarnation.
pub open spec fn health_rank(h: Health) -> int {
    match h {
        Health::Alive => 0,
        Health::Suspect => 1,
        Health::Confirmed => 2,
        Health::Departed => 3,
    }
}

impl Health {
    /// The position of this health value in the Alive < Suspect < Confirmed
    /// < Departed order.
    pub fn rank(&self) -> (r: u8)
        ensures
            r as int == health_rank(*self),
    {
        match self {
            Health::Alive => 0,
            Health::Suspect => 1,
            Health::Confirmed => 2,
            Health::Departed => 3,
        }
    }
}

/// The phase of a leader election.
#[derive(Clone, Copy, Debug, PartialEq, Eq, Structural)]
pub enum ElectionStatus {
    Running,
    NoQuorum,
    Finished,
}

/// The kind tag of a rumor; the closed set of variants.
#[derive(Clone, Copy, Debug, PartialEq, Eq, Structural)]
pub enum RumorType {
    Member,
    Departure,
    Service,
    ServiceConfig,
    ServiceFile,
    Election,
    ElectionUpdate,
}

/// The kind tag a rumor carries on the wire.
pub open spec fn kind_tag(k: RumorType) -> int {
    match k {
        RumorType::Member => 1,
        RumorType::Departure => 2,
        RumorType::Service => 3,
        RumorType::ServiceConfig => 4,
        RumorType::ServiceFile => 5,
        RumorType::Election => 6,
        RumorType::ElectionUpdate => 7,
    }
}

impl RumorType {
    /// The stable lower-case label of this kind.
    pub fn label(&self) -> (r: &'static str)
        ensures
            *self is Member ==> r@ == "member"@,
            *self is Departure ==> r@ == "departure"@,
            *self is Service ==> r@ == "service"@,
            *self is ServiceConfig ==> r@ == "service-config"@,
            *self is ServiceFile ==> r@ == "service-file"@,
            *self is Election ==> r@ == "election"@,
            *self is ElectionUpdate ==> r@ == "election-update"@,
    {
        match self {
            RumorType::Member => "member",
            RumorType::Departure => "departure",
            RumorType::Service => "service",
            RumorType::ServiceConfig => "service-config",
            RumorType::ServiceFile => "service-file",
            RumorType::Election => "election",
            RumorType::ElectionUpdate => "election-update",
        }
    }

    /// The wire tag of this kind.
    pub fn tag(&self) -> (r: u8)
        ensures
            r as int == kind_tag(*self),
    {
        match self {
            RumorType::Member => 1,
            RumorType::Departure => 2,
            RumorType::Service => 3,
            RumorType::ServiceConfig => 4,
            RumorType::ServiceFile => 5,
            RumorType::Election => 6,
            RumorType::ElectionUpdate => 7,
        }
    }
}

/// Liveness of a peer as gossiped by the failure detector.
#[derive(Clone, Debug)]
pub struct Membership {
    pub member_id: String,
    pub address: String,
    pub swim_port: u16,
    pub gossip_port: u16,
    pub health: Health,
    pub incarnation: u64,
    pub expiration: Expiration,
}

/// The mathematical value of a `Membership` rumor.
pub struct MembershipV {
    pub member_id: Seq<char>,
    pub address: Seq<char>,
    pub swim_port: u16,
    pub gossip_port: u16,
    pub health: Health,
    pub incarnation: u64,
    pub expiration: i64,
}

impl View for Membership {
    type V = MembershipV;

    open spec fn view(&self) -> MembershipV {
        MembershipV {
            member_id: self.member_id@,
            address: self.address@,
            swim_port: self.swim_port,
            gossip_port: self.gossip_port,
            health: self.health,
            incarnation: self.incarnation,
            expiration: self.expiration.at_nanos,
        }
    }
}

/// An operator-driven, permanent expulsion of a member.
#[derive(Clone, Debug)]
pub struct Departure {
    pub member_id: String,
    pub expiration: Expiration,
}

/// The mathematical value of a `Departure` rumor.
pub struct DepartureV {
    pub member_id: Seq<char>,
    pub expiration: i64,
}

impl View for Departure {
    type V = DepartureV;

    open spec fn view(&self) -> DepartureV {
        DepartureV { member_id: self.member_id@, expiration: self.expiration.at_nanos }
    }
}

/// A member runs a service in a service group.
#[derive(Clone, Debug)]
pub struct Service {
    pub member_id: String,
    pub service_group: String,
    pub pkg: String,
    pub incarnation: u64,
    pub initialized: bool,
    pub cfg: Vec<u8>,
    pub sys: Vec<u8>,
    pub expiration: Expiration,
}

/// The mathematical value of a `Service` rumor.
pub struct ServiceV {
    pub member_id: Seq<char>,
    pub service_group: Seq<char>,
    pub pkg: Seq<char>,
    pub incarnation: u64,
    pub initialized: bool,
    pub cfg: Seq<u8>,
    pub sys: Seq<u8>,
    pub expiration: i64,
}

impl View for Service {
    type V = ServiceV;

    open spec fn view(&self) -> ServiceV {
        ServiceV {
            member_id: self.member_id@,
            service_group: self.service_group@,
            pkg: self.pkg@,
            incarnation: self.incarnation,
            initialized: self.initialized,
            cfg: self.cfg@,
            sys: self.sys@,
            expiration: self.expiration.at_nanos,
        }
    }
}

/// Cluster-distributed configuration for a service group.
#[derive(Clone, Debug)]
pub struct ServiceConfig {
    pub service_group: String,
    pub incarnation: u64,
    pub encrypted: bool,
    pub config: Vec<u8>,
    pub expiration: Expiration,
}

/// The mathematical value of a `ServiceConfig` rumor.
pub struct ServiceConfigV {
    pub service_group: Seq<char>,
    pub incarnation: u64,
    pub encrypted: bool,
    pub config: Seq<u8>,
    pub expiration: i64,
}

impl View for ServiceConfig {
    type V = ServiceConfigV;

    open spec fn view(&self) -> ServiceConfigV {
        ServiceConfigV {
            service_group: self.service_group@,
            incarnation: self.incarnation,
            encrypted: self.encrypted,
            config: self.config@,
            expiration: self.expiration.at_nanos,
        }
    }
}

/// A cluster-distributed file for a service group.
#[derive(Clone, Debug)]
pub struct ServiceFile {
    pub service_group: String,
    pub filename: String,
    pub incarnation: u64,
    pub body: Vec<u8>,
    pub expiration: Expiration,
}

/// The mathematical value of a `ServiceFile` rumor.
pub struct ServiceFileV {
    pub service_group: Seq<char>,
    pub filename: Seq<char>,
    pub incarnation: u64,
    pub body: Seq<u8>,
    pub expiration: i64,
}

impl View for ServiceFile {
    type V = ServiceFileV;

    open spec fn view(&self) -> ServiceFileV {
        ServiceFileV {
            service_group: self.service_group@,
            filename: self.filename@,
            incarnation: self.incarnation,
            body: self.body@,
            expiration: self.expiration.at_nanos,
        }
    }
}

/// Leader election state for a service group. The same shape serves both
/// the `Election` and the `ElectionUpdate` rumor; the two live under
/// different inner keys so they can coexist during topology changes.
#[derive(Clone, Debug)]
pub struct Election {
    pub member_id: String,
    pub service_group: String,
    pub term: u64,
    pub suitability: u64,
    pub status: ElectionStatus,
    pub votes: Vec<String>,
    pub expiration: Expiration,
}

/// The mathematical value of an `Election` rumor.
pub struct ElectionV {
    pub member_id: Seq<char>,
    pub service_group: Seq<char>,
    pub term: u64,
    pub suitability: u64,
    pub status: ElectionStatus,
    pub votes: Seq<Seq<char>>,
    pub expiration: i64,
}

impl View for Election {
    type V = ElectionV;

    open spec fn view(&self) -> ElectionV {
        ElectionV {
            member_id: self.member_id@,
            service_group: self.service_group@,
            term: self.term,
            suitability: self.suitability,
            status: self.status,
            votes: self.votes.deep_view(),
            expiration: self.expiration.at_nanos,
        }
    }
}

/// A rumor: one of the closed set of variants.
#[derive(Clone, Debug)]
pub enum RumorKind {
    Membership(Membership),
    Departure(Departure),
    Service(Service),
    ServiceConfig(ServiceConfig),
    ServiceFile(ServiceFile),
    Election(Election),
    ElectionUpdate(Election),
}

/// The mathematical value of a rumor.
pub enum RumorV {
    Membership(MembershipV),
    Departure(DepartureV),
    Service(ServiceV),
    ServiceConfig(ServiceConfigV),
    ServiceFile(ServiceFileV),
    Election(ElectionV),
    ElectionUpdate(ElectionV),
}

impl View for RumorKind {
    type V = RumorV;

    open spec fn view(&self) -> RumorV {
        match self {
            RumorKind::Membership(m) => RumorV::Membership(m@),
            RumorKind::Departure(d) => RumorV::Departure(d@),
            RumorKind::Service(s) => RumorV::Service(s@),
            RumorKind::ServiceConfig(c) => RumorV::ServiceConfig(c@),
            RumorKind::ServiceFile(f) => RumorV::ServiceFile(f@),
            RumorKind::Election(e) => RumorV::Election(e@),
            RumorKind::ElectionUpdate(e) => RumorV::ElectionUpdate(e@),
        }
    }
}

/// The kind of a rumor value.
pub open spec fn kind_of(v: RumorV) -> RumorType {
    match v {
        RumorV::Membership(_) => RumorType::Member,
        RumorV::Departure(_) => RumorType::Departure,
        RumorV::Service(_) => RumorType::Service,
        RumorV::ServiceConfig(_) => RumorType::ServiceConfig,
        RumorV::ServiceFile(_) => RumorType::ServiceFile,
        RumorV::Election(_) => RumorType::Election,
        RumorV::ElectionUpdate(_) => RumorType::ElectionUpdate,
    }
}

/// The outer routing key of a rumor value: the service group where there is
/// one, the fixed tag "departure" for departures, empty for membership.
pub open spec fn key_of(v: RumorV) -> Seq<char> {
    match v {
        RumorV::Membership(_) => Seq::<char>::empty(),
        RumorV::Departure(_) => "departure"@,
        RumorV::Service(s) => s.service_group,
        RumorV::ServiceConfig(c) => c.service_group,
        RumorV::ServiceFile(f) => f.service_group,
        RumorV::Election(e) => e.service_group,
        RumorV::ElectionUpdate(e) => e.service_group,
    }
}

/// The inner key of a rumor value: the member for member-scoped rumors, a
/// fixed tag for group-scoped singletons, the filename for service files.
pub open spec fn id_of(v: RumorV) -> Seq<char> {
    match v {
        RumorV::Membership(m) => m.member_id,
        RumorV::Departure(d) => d.member_id,
        RumorV::Service(s) => s.member_id,
        RumorV::ServiceConfig(_) => "service_config"@,
        RumorV::ServiceFile(f) => f.filename,
        RumorV::Election(_) => "election"@,
        RumorV::ElectionUpdate(_) => "election-update"@,
    }
}

/// The incarnation a rumor value carries; departures carry none.
pub open spec fn inc_of(v: RumorV) -> int {
    match v {
        RumorV::Membership(m) => m.incarnation as int,
        RumorV::Departure(_) => 0,
        RumorV::Service(s) => s.incarnation as int,
        RumorV::ServiceConfig(c) => c.incarnation as int,
        RumorV::ServiceFile(f) => f.incarnation as int,
        RumorV::Election(e) => e.term as int,
        RumorV::ElectionUpdate(e) => e.term as int,
    }
}

/// The expiration instant of a rumor value.
pub open spec fn exp_of(v: RumorV) -> i64 {
    match v {
        RumorV::Membership(m) => m.expiration,
        RumorV::Departure(d) => d.expiration,
        RumorV::Service(s) => s.expiration,
        RumorV::ServiceConfig(c) => c.expiration,
        RumorV::ServiceFile(f) => f.expiration,
        RumorV::Election(e) => e.expiration,
        RumorV::ElectionUpdate(e) => e.expiration,
    }
}

/// The same rumor value with its expiration moved to `at`.
pub open spec fn with_exp(v: RumorV, at: i64) -> RumorV {
    match v {
        RumorV::Membership(m) => RumorV::Membership(MembershipV { expiration: at, ..m }),
        RumorV::Departure(d) => RumorV::Departure(DepartureV { expiration: at, ..d }),
        RumorV::Service(s) => RumorV::Service(ServiceV { expiration: at, ..s }),
        RumorV::ServiceConfig(c) => RumorV::ServiceConfig(ServiceConfigV { expiration: at, ..c }),
        RumorV::ServiceFile(f) => RumorV::ServiceFile(ServiceFileV { expiration: at, ..f }),
        RumorV::Election(e) => RumorV::Election(ElectionV { expiration: at, ..e }),
        RumorV::ElectionUpdate(e) => RumorV::ElectionUpdate(ElectionV { expiration: at, ..e }),
    }
}

impl RumorKind {
    /// The kind tag of this rumor.
    pub fn kind(&self) -> (r: RumorType)
        ensures
            r == kind_of(self@),
    {
        match self {
            RumorKind::Membership(_) => RumorType::Member,
            RumorKind::Departure(_) => RumorType::Departure,
            RumorKind::Service(_) => RumorType::Service,
            RumorKind::ServiceConfig(_) => RumorType::ServiceConfig,
            RumorKind::ServiceFile(_) => RumorType::ServiceFile,
            RumorKind::Election(_) => RumorType::Election,
            RumorKind::ElectionUpdate(_) => RumorType::ElectionUpdate,
        }
    }

    /// The outer routing key of this rumor.
    pub fn key(&self) -> (r: &str)
        ensures
            r@ == key_of(self@),
    {
        proof {
            reveal_strlit("");
        }
        match self {
            RumorKind::Membership(_) => "",
            RumorKind::Departure(_) => "departure",
            RumorKind::Service(s) => s.service_group.as_str(),
            RumorKind::ServiceConfig(c) => c.service_group.as_str(),
            RumorKind::ServiceFile(f) => f.service_group.as_str(),
            RumorKind::Election(e) => e.service_group.as_str(),
            RumorKind::ElectionUpdate(e) => e.service_group.as_str(),
        }
    }

    /// The inner key of this rumor.
    pub fn id(&self) -> (r: &str)
        ensures
            r@ == id_of(self@),
    {
        match self {
            RumorKind::Membership(m) => m.member_id.as_str(),
            RumorKind::Departure(d) => d.member_id.as_str(),
            RumorKind::Service(s) => s.member_id.as_str(),
            RumorKind::ServiceConfig(_) => "service_config",
            RumorKind::ServiceFile(f) => f.filename.as_str(),
            RumorKind::Election(_) => "election",
            RumorKind::ElectionUpdate(_) => "election-update",
        }
    }

    /// The expiration of this rumor.
    pub fn expiration(&self) -> (r: &Expiration)
        ensures
            r.at_nanos == exp_of(self@),
    {
        match self {
            RumorKind::Membership(m) => &m.expiration,
            RumorKind::Departure(d) => &d.expiration,
            RumorKind::Service(s) => &s.expiration,
            RumorKind::ServiceConfig(c) => &c.expiration,
            RumorKind::ServiceFile(f) => &f.expiration,
            RumorKind::Election(e) => &e.expiration,
            RumorKind::ElectionUpdate(e) => &e.expiration,
        }
    }

    /// Moves this rumor's expiration to the given instant.
    pub fn expire(&mut self, at_nanos: i64)
        ensures
            final(self)@ == with_exp(old(self)@, at_nanos),
    {
        match self {
            RumorKind::Membership(m) => m.expiration.at_nanos = at_nanos,
            RumorKind::Departure(d) => d.expiration.at_nanos = at_nanos,
            RumorKind::Service(s) => s.expiration.at_nanos = at_nanos,
            RumorKind::ServiceConfig(c) => c.expiration.at_nanos = at_nanos,
            RumorKind::ServiceFile(f) => f.expiration.at_nanos = at_nanos,
            RumorKind::Election(e) => e.expiration.at_nanos = at_nanos,
            RumorKind::ElectionUpdate(e) => e.expiration.at_nanos = at_nanos,
        }
    }
}


/// A strictly sorted, duplicate-free vote list: the canonical form every
/// stored election keeps its votes in, so that equal vote sets have equal
/// representations.
pub open spec fn votes_sorted(vs: Seq<Seq<char>>) -> bool {
    forall|i: int, j: int|
        0 <= i < j < vs.len() ==> lex_lt(bytes_of(#[trigger] vs[i]), bytes_of(#[trigger] vs[j]))
}

/// Where a vote lands in a sorted vote list: after every vote that sorts
/// before it.
pub open spec fn vote_pos(vs: Seq<Seq<char>>, v: Seq<char>) -> int
    decreases vs.len(),
{
    if vs.len() == 0 {
        0
    } else if !lex_lt(bytes_of(vs[0]), bytes_of(v)) {
        0
    } else {
        1 + vote_pos(vs.skip(1), v)
    }
}

/// A sorted vote list with one more vote: unchanged when the vote is
/// already present, otherwise the vote sits at its sorted position.
pub open spec fn vote_inserted(vs: Seq<Seq<char>>, v: Seq<char>) -> Seq<Seq<char>> {
    if vs.contains(v) {
        vs
    } else {
        vs.insert(vote_pos(vs, v), v)
    }
}

/// The union of two sorted vote lists: the second folded into the first.
pub open spec fn votes_union(a: Seq<Seq<char>>, b: Seq<Seq<char>>) -> Seq<Seq<char>>
    decreases b.len(),
{
    if b.len() == 0 {
        a
    } else {
        votes_union(vote_inserted(a, b[0]), b.skip(1))
    }
}

/// In a sorted list, the scan that stops at the first vote not sorting
/// before `v` stops exactly at `vote_pos`.
proof fn lemma_vote_pos_at(vs: Seq<Seq<char>>, v: Seq<char>, i: int)
    requires
        0 <= i <= vs.len(),
        forall|j: int| 0 <= j < i ==> lex_lt(bytes_of(#[trigger] vs[j]), bytes_of(v)),
        i < vs.len() ==> !lex_lt(bytes_of(vs[i]), bytes_of(v)),
    ensures
        vote_pos(vs, v) == i,
    decreases vs.len(),
{
    if vs.len() == 0 {
    } else if i == 0 {
    } else {
        assert(lex_lt(bytes_of(vs[0]), bytes_of(v)));
        assert(forall|j: int|
            0 <= j < i - 1 ==> lex_lt(bytes_of(#[trigger] vs.skip(1)[j]), bytes_of(v)));
        assert(i - 1 < vs.skip(1).len() ==> vs.skip(1)[i - 1] == vs[i as int]);
        lemma_vote_pos_at(vs.skip(1), v, i - 1);
    }
}

/// Inserts a vote into a sorted vote list, keeping it sorted and
/// duplicate-free; reports whether the list grew.
fn insert_vote(votes: &mut Vec<String>, vote: String) -> (added: bool)
    requires
        votes_sorted(old(votes).deep_view()),
    ensures
        final(votes).deep_view() == vote_inserted(old(votes).deep_view(), vote@),
        votes_sorted(final(votes).deep_view()),
        added == !old(votes).deep_view().contains(vote@),
        added == (final(votes).deep_view() != old(votes).deep_view()),
        final(votes).deep_view().len() == old(votes).deep_view().len() + if added {
            1int
        } else {
            0int
        },
{
    let ghost vs = votes.deep_view();
    let ghost v = vote@;
    let mut i: usize = 0;
    while i < votes.len() && crate::text::str_lt(votes[i].as_str(), vote.as_str())
        invariant
            votes.deep_view() == vs,
            votes_sorted(vs),
            v == vote@,
            0 <= i <= vs.len(),
            votes@.len() == vs.len(),
            forall|j: int| 0 <= j < i ==> lex_lt(bytes_of(#[trigger] vs[j]), bytes_of(v)),
        decreases votes.len() - i,
    {
        proof {
            assert(vs[i as int] == votes@[i as int]@);
        }
        i = i + 1;
    }
    proof {
        assert(i < vs.len() ==> vs[i as int] == votes@[i as int]@);
        lemma_vote_pos_at(vs, v, i as int);
    }
    if i < votes.len() && votes[i] == vote {
        proof {
            assert(vs[i as int] == v);
            assert(vs.contains(v));
        }
        return false;
    }
    proof {
        // `v` is nowhere in the list: votes before the stop point sort
        // strictly before it, and votes from the stop point on sort
        // strictly after it.
        assert forall|j: int| 0 <= j < vs.len() implies vs[j] != v by {
            if j < i {
                if vs[j] == v {
                    crate::text::lemma_lex_irrefl(bytes_of(v));
                }
            } else if j == i {
                assert(vs[i as int] != v);
            } else {
                if vs[j] == v {
                    assert(lex_lt(bytes_of(vs[i as int]), bytes_of(vs[j])));
                }
            }
        }
        assert(!vs.contains(v));
    }
    votes.insert(i, vote);
    proof {
        let vsn = votes.deep_view();
        assert(vsn =~= vs.insert(i as int, v));
        assert(vsn == vote_inserted(vs, v));
        // Sortedness of the grown list: positions before `i` keep their
        // order, `v` sits between its neighbours, and trichotomy orders it
        // against everything at or after `i`.
        assert forall|p: int, q: int|
            0 <= p < q < vsn.len() implies lex_lt(
            bytes_of(#[trigger] vsn[p]),
            bytes_of(#[trigger] vsn[q]),
        ) by {
            let n = i as int;
            if p < n && q < n {
                assert(vsn[p] == vs[p] && vsn[q] == vs[q]);
            } else if p < n && q == n {
                assert(vsn[p] == vs[p] && vsn[q] == v);
            } else if p < n && q > n {
                assert(vsn[p] == vs[p] && vsn[q] == vs[q - 1]);
                if q - 1 == p {
                } else {
                    assert(lex_lt(bytes_of(vs[p]), bytes_of(vs[q - 1])));
                }
            } else if p == n {
                assert(vsn[p] == v && vsn[q] == vs[q - 1]);
                assert(n <= q - 1 < vs.len());
                assert(!lex_lt(bytes_of(vs[n]), bytes_of(v)));
                if !lex_lt(bytes_of(v), bytes_of(vs[n])) {
                    lemma_lex_trichotomy(bytes_of(vs[n]), bytes_of(v));
                    lemma_utf8_injective(vs[n], v);
                    assert(vs.contains(v));
                }
                if q - 1 > n {
                    assert(lex_lt(bytes_of(vs[n]), bytes_of(vs[q - 1])));
                    lemma_lex_trans(bytes_of(v), bytes_of(vs[n]), bytes_of(vs[q - 1]));
                }
            } else {
                assert(vsn[p] == vs[p - 1] && vsn[q] == vs[q - 1]);
                assert(lex_lt(bytes_of(vs[p - 1]), bytes_of(vs[q - 1])));
            }
        }
        assert(vsn.len() == vs.len() + 1);
    }
    true
}

/// The membership merge rule: a higher incarnation replaces everything; at
/// equal incarnation the more terminal health wins; anything else is
/// ignored.
pub open spec fn membership_merged(cur: MembershipV, inc: MembershipV) -> MembershipV {
    if inc.incarnation > cur.incarnation {
        inc
    } else if inc.incarnation == cur.incarnation && health_rank(inc.health) > health_rank(
        cur.health,
    ) {
        MembershipV { health: inc.health, ..cur }
    } else {
        cur
    }
}

impl Membership {
    /// Merges an incoming membership rumor into this one.
    pub fn merge(&mut self, other: Membership) -> (changed: bool)
        ensures
            final(self)@ == membership_merged(old(self)@, other@),
            changed == (final(self)@ != old(self)@),
            final(self)@.incarnation >= old(self)@.incarnation,
    {
        if other.incarnation > self.incarnation {
            *self = other;
            true
        } else if other.incarnation == self.incarnation && other.health.rank()
            > self.health.rank() {
            self.health = other.health;
            true
        } else {
            false
        }
    }
}

impl Departure {
    /// Merges an incoming departure rumor: insertion is idempotent, so an
    /// existing departure never changes.
    pub fn merge(&mut self, _other: Departure) -> (changed: bool)
        ensures
            *final(self) == *old(self),
            !changed,
    {
        false
    }
}

/// The strict last-writer-wins rule shared by service-shaped rumors: a
/// higher incarnation replaces everything, anything else is ignored.
pub open spec fn service_merged(cur: ServiceV, inc: ServiceV) -> ServiceV {
    if inc.incarnation > cur.incarnation {
        inc
    } else {
        cur
    }
}

impl Service {
    /// Merges an incoming service rumor into this one.
    pub fn merge(&mut self, other: Service) -> (changed: bool)
        ensures
            final(self)@ == service_merged(old(self)@, other@),
            changed == (final(self)@ != old(self)@),
            final(self)@.incarnation >= old(self)@.incarnation,
    {
        if other.incarnation > self.incarnation {
            *self = other;
            true
        } else {
            false
        }
    }
}

/// Last-writer-wins by incarnation for service configuration.
pub open spec fn service_config_merged(cur: ServiceConfigV, inc: ServiceConfigV) -> ServiceConfigV {
    if inc.incarnation > cur.incarnation {
        inc
    } else {
        cur
    }
}

impl ServiceConfig {
    /// Merges an incoming service-config rumor into this one.
    pub fn merge(&mut self, other: ServiceConfig) -> (changed: bool)
        ensures
            final(self)@ == service_config_merged(old(self)@, other@),
            changed == (final(self)@ != old(self)@),
            final(self)@.incarnation >= old(self)@.incarnation,
    {
        if other.incarnation > self.incarnation {
            *self = other;
            true
        } else {
            false
        }
    }
}

/// Last-writer-wins by incarnation for service files.
pub open spec fn service_file_merged(cur: ServiceFileV, inc: ServiceFileV) -> ServiceFileV {
    if inc.incarnation > cur.incarnation {
        inc
    } else {
        cur
    }
}

impl ServiceFile {
    /// Merges an incoming service-file rumor into this one.
    pub fn merge(&mut self, other: ServiceFile) -> (changed: bool)
        ensures
            final(self)@ == service_file_merged(old(self)@, other@),
            changed == (final(self)@ != old(self)@),
            final(self)@.incarnation >= old(self)@.incarnation,
    {
        if other.incarnation > self.incarnation {
            *self = other;
            true
        } else {
            false
        }
    }
}

/// The election state machine: a higher term is adopted wholesale, a lower
/// term is discarded; at equal terms a finished election beats an
/// unfinished one, two finished elections leave the stored one in place,
/// and two unfinished ones pool their votes.
pub open spec fn election_merged(cur: ElectionV, inc: ElectionV) -> ElectionV {
    if inc.term > cur.term {
        inc
    } else if inc.term < cur.term {
        cur
    } else if inc.status is Finished && !(cur.status is Finished) {
        inc
    } else if cur.status is Finished {
        cur
    } else {
        ElectionV { votes: votes_union(cur.votes, inc.votes), ..cur }
    }
}

impl Election {
    /// A well-formed election keeps its votes sorted and duplicate-free.
    pub open spec fn wf(&self) -> bool {
        votes_sorted(self@.votes)
    }

    /// Merges an incoming election rumor into this one.
    pub fn merge(&mut self, other: Election) -> (changed: bool)
        requires
            votes_sorted(old(self)@.votes),
            votes_sorted(other@.votes),
        ensures
            final(self)@ == election_merged(old(self)@, other@),
            changed == (final(self)@ != old(self)@),
            final(self)@.term >= old(self)@.term,
            votes_sorted(final(self)@.votes),
    {
        if other.term > self.term {
            *self = other;
            true
        } else if other.term < self.term {
            false
        } else if matches!(other.status, ElectionStatus::Finished) && !matches!(
            self.status,
            ElectionStatus::Finished,
        ) {
            *self = other;
            true
        } else if matches!(self.status, ElectionStatus::Finished) {
            false
        } else {
            let ghost cur = self@;
            let ghost vs0 = self.votes.deep_view();
            let mut changed = false;
            let mut k: usize = 0;
            while k < other.votes.len()
                invariant
                    0 <= k <= other.votes.len(),
                    votes_sorted(self.votes.deep_view()),
                    self.votes.deep_view() == votes_union_partial(vs0, other.votes.deep_view(), k as int),
                    changed == (self.votes.deep_view() != vs0),
                    self.member_id@ == cur.member_id,
                    self.service_group@ == cur.service_group,
                    self.term == cur.term,
                    self.suitability == cur.suitability,
                    self.status == cur.status,
                    self.expiration.at_nanos == cur.expiration,
                    self.votes.deep_view().len() >= vs0.len(),
                decreases other.votes.len() - k,
            {
                let ghost before = self.votes.deep_view();
                let added = insert_vote(&mut self.votes, other.votes[k].clone());
                proof {
                    assert(other.votes.deep_view()[k as int] == other.votes@[k as int]@);
                    if added {
                        assert(self.votes.deep_view().len() == before.len() + 1);
                    }
                }
                if added {
                    changed = true;
                }
                k = k + 1;
            }
            proof {
                lemma_votes_union_partial_full(vs0, other.votes.deep_view());
            }
            changed
        }
    }
}

/// The union after folding in only the first `k` incoming votes.
pub open spec fn votes_union_partial(a: Seq<Seq<char>>, b: Seq<Seq<char>>, k: int) -> Seq<
    Seq<char>,
>
    decreases k,
{
    if k <= 0 {
        a
    } else {
        vote_inserted(votes_union_partial(a, b, k - 1), b[k - 1])
    }
}

/// Folding the first `k` votes directly equals inserting the head first
/// and folding `k - 1` votes of the tail.
proof fn lemma_votes_union_partial_shift(a: Seq<Seq<char>>, b: Seq<Seq<char>>, k: int)
    requires
        1 <= k <= b.len(),
    ensures
        votes_union_partial(a, b, k) == votes_union_partial(
            vote_inserted(a, b[0]),
            b.skip(1),
            k - 1,
        ),
    decreases k,
{
    if k == 1 {
        assert(votes_union_partial(a, b, 0) == a);
        assert(votes_union_partial(vote_inserted(a, b[0]), b.skip(1), 0) == vote_inserted(
            a,
            b[0],
        ));
    } else {
        lemma_votes_union_partial_shift(a, b, k - 1);
        assert(b.skip(1)[k - 2] == b[k - 1]);
        assert(votes_union_partial(a, b, k) == vote_inserted(
            votes_union_partial(a, b, k - 1),
            b[k - 1],
        ));
        assert(votes_union_partial(vote_inserted(a, b[0]), b.skip(1), k - 1) == vote_inserted(
            votes_union_partial(vote_inserted(a, b[0]), b.skip(1), k - 2),
            b.skip(1)[k - 2],
        ));
    }
}

/// Folding in every incoming vote one at a time is the union.
proof fn lemma_votes_union_partial_full(a: Seq<Seq<char>>, b: Seq<Seq<char>>)
    ensures
        votes_union_partial(a, b, b.len() as int) == votes_union(a, b),
    decreases b.len(),
{
    if b.len() > 0 {
        lemma_votes_union_partial_shift(a, b, b.len() as int);
        lemma_votes_union_partial_full(vote_inserted(a, b[0]), b.skip(1));
    }
}

/// A rumor value in canonical form: elections keep their votes sorted.
pub open spec fn rumor_wf(v: RumorV) -> bool {
    match v {
        RumorV::Election(e) => votes_sorted(e.votes),
        RumorV::ElectionUpdate(e) => votes_sorted(e.votes),
        _ => true,
    }
}

/// The merge rule of the whole closed set: rumors of the same kind merge by
/// their variant's rule; a rumor of another kind never lands in the same
/// slot and leaves the stored one untouched.
pub open spec fn rumor_merged(cur: RumorV, inc: RumorV) -> RumorV {
    match cur {
        RumorV::Membership(a) => match inc {
            RumorV::Membership(b) => RumorV::Membership(membership_merged(a, b)),
            _ => cur,
        },
        RumorV::Departure(a) => cur,
        RumorV::Service(a) => match inc {
            RumorV::Service(b) => RumorV::Service(service_merged(a, b)),
            _ => cur,
        },
        RumorV::ServiceConfig(a) => match inc {
            RumorV::ServiceConfig(b) => RumorV::ServiceConfig(service_config_merged(a, b)),
            _ => cur,
        },
        RumorV::ServiceFile(a) => match inc {
            RumorV::ServiceFile(b) => RumorV::ServiceFile(service_file_merged(a, b)),
            _ => cur,
        },
        RumorV::Election(a) => match inc {
            RumorV::Election(b) => RumorV::Election(election_merged(a, b)),
            _ => cur,
        },
        RumorV::ElectionUpdate(a) => match inc {
            RumorV::ElectionUpdate(b) => RumorV::ElectionUpdate(election_merged(a, b)),
            _ => cur,
        },
    }
}

impl RumorKind {
    /// A rumor in canonical form.
    pub open spec fn wf(&self) -> bool {
        rumor_wf(self@)
    }

    /// Merges an incoming rumor into this one by its variant's rule,
    /// reporting whether anything changed. Incarnations never go backwards.
    pub fn merge(&mut self, other: RumorKind) -> (changed: bool)
        requires
            old(self).wf(),
            other.wf(),
        ensures
            final(self)@ == rumor_merged(old(self)@, other@),
            changed == (final(self)@ != old(self)@),
            inc_of(final(self)@) >= inc_of(old(self)@),
            final(self).wf(),
    {
        match self {
            RumorKind::Membership(m) => match other {
                RumorKind::Membership(o) => m.merge(o),
                _ => false,
            },
            RumorKind::Departure(d) => match other {
                RumorKind::Departure(o) => d.merge(o),
                _ => false,
            },
            RumorKind::Service(s) => match other {
                RumorKind::Service(o) => s.merge(o),
                _ => false,
            },
            RumorKind::ServiceConfig(c) => match other {
                RumorKind::ServiceConfig(o) => c.merge(o),
                _ => false,
            },
            RumorKind::ServiceFile(f) => match other {
                RumorKind::ServiceFile(o) => f.merge(o),
                _ => false,
            },
            RumorKind::Election(e) => match other {
                RumorKind::Election(o) => e.merge(o),
                _ => false,
            },
            RumorKind::ElectionUpdate(e) => match other {
                RumorKind::ElectionUpdate(o) => e.merge(o),
                _ => false,
            },
        }
    }
}


/// Merging never moves a rumor: the merged value keeps the kind, the outer
/// key and the inner key of the stored one.
pub proof fn lemma_merged_identity(c: RumorV, i: RumorV)
    requires
        key_of(c) == key_of(i),
        id_of(c) == id_of(i),
    ensures
        key_of(rumor_merged(c, i)) == key_of(c),
        id_of(rumor_merged(c, i)) == id_of(c),
        kind_of(rumor_merged(c, i)) == kind_of(c),
{
    match c {
        RumorV::Membership(a) => {
            match i {
                RumorV::Membership(b) => {},
                _ => {},
            }
        },
        RumorV::Departure(a) => {},
        RumorV::Service(a) => {
            match i {
                RumorV::Service(b) => {},
                _ => {},
            }
        },
        RumorV::ServiceConfig(a) => {},
        RumorV::ServiceFile(a) => {},
        RumorV::Election(a) => {},
        RumorV::ElectionUpdate(a) => {},
    }
}


impl Membership {
    /// A value-equal copy of this rumor.
    pub fn duplicate(&self) -> (r: Self)
        ensures
            r@ == self@,
    {
        Membership {
            member_id: self.member_id.clone(),
            address: self.address.clone(),
            swim_port: self.swim_port,
            gossip_port: self.gossip_port,
            health: self.health,
            incarnation: self.incarnation,
            expiration: self.expiration,
        }
    }
}

impl Departure {
    /// A value-equal copy of this rumor.
    pub fn duplicate(&self) -> (r: Self)
        ensures
            r@ == self@,
    {
        Departure { member_id: self.member_id.clone(), expiration: self.expiration }
    }
}

/// A value-equal copy of a byte buffer.
fn copy_bytes(v: &Vec<u8>) -> (r: Vec<u8>)
    ensures
        r@ == v@,
{
    let r = v.clone();
    proof {
        assert(r@ =~= v@);
    }
    r
}

/// A value-equal copy of a vote list.
fn copy_votes(v: &Vec<String>) -> (r: Vec<String>)
    ensures
        r.deep_view() == v.deep_view(),
{
    let r = v.clone();
    proof {
        assert(r.deep_view() =~= v.deep_view());
    }
    r
}

impl Service {
    /// A value-equal copy of this rumor.
    pub fn duplicate(&self) -> (r: Self)
        ensures
            r@ == self@,
    {
        Service {
            member_id: self.member_id.clone(),
            service_group: self.service_group.clone(),
            pkg: self.pkg.clone(),
            incarnation: self.incarnation,
            initialized: self.initialized,
            cfg: copy_bytes(&self.cfg),
            sys: copy_bytes(&self.sys),
            expiration: self.expiration,
        }
    }
}

impl ServiceConfig {
    /// A value-equal copy of this rumor.
    pub fn duplicate(&self) -> (r: Self)
        ensures
            r@ == self@,
    {
        ServiceConfig {
            service_group: self.service_group.clone(),
            incarnation: self.incarnation,
            encrypted: self.encrypted,
            config: copy_bytes(&self.config),
            expiration: self.expiration,
        }
    }
}

impl ServiceFile {
    /// A value-equal copy of this rumor.
    pub fn duplicate(&self) -> (r: Self)
        ensures
            r@ == self@,
    {
        ServiceFile {
            service_group: self.service_group.clone(),
            filename: self.filename.clone(),
            incarnation: self.incarnation,
            body: copy_bytes(&self.body),
            expiration: self.expiration,
        }
    }
}

impl Election {
    /// A value-equal copy of this rumor.
    pub fn duplicate(&self) -> (r: Self)
        ensures
            r@ == self@,
    {
        Election {
            member_id: self.member_id.clone(),
            service_group: self.service_group.clone(),
            term: self.term,
            suitability: self.suitability,
            status: self.status,
            votes: copy_votes(&self.votes),
            expiration: self.expiration,
        }
    }
}

impl RumorKind {
    /// A value-equal copy of this rumor.
    pub fn duplicate(&self) -> (r: Self)
        ensures
            r@ == self@,
    {
        match self {
            RumorKind::Membership(m) => RumorKind::Membership(m.duplicate()),
            RumorKind::Departure(d) => RumorKind::Departure(d.duplicate()),
            RumorKind::Service(v) => RumorKind::Service(v.duplicate()),
            RumorKind::ServiceConfig(c) => RumorKind::ServiceConfig(c.duplicate()),
            RumorKind::ServiceFile(f) => RumorKind::ServiceFile(f.duplicate()),
            RumorKind::Election(e) => RumorKind::Election(e.duplicate()),
            RumorKind::ElectionUpdate(e) => RumorKind::ElectionUpdate(e.duplicate()),
        }
    }
}


/// Changing a rumor's expiration changes nothing else: not its identity,
/// not its canonical form.
pub proof fn lemma_with_exp_identity(v: RumorV, at: i64)
    ensures
        key_of(with_exp(v, at)) == key_of(v),
        id_of(with_exp(v, at)) == id_of(v),
        kind_of(with_exp(v, at)) == kind_of(v),
        rumor_wf(with_exp(v, at)) == rumor_wf(v),
        exp_of(with_exp(v, at)) == at,
        (with_exp(v, at) is Membership <==> v is Membership),
        (with_exp(v, at) is Departure <==> v is Departure),
{
    match v {
        RumorV::Membership(m) => {},
        RumorV::Departure(d) => {},
        RumorV::Service(x) => {},
        RumorV::ServiceConfig(x) => {},
        RumorV::ServiceFile(x) => {},
        RumorV::Election(x) => {},
        RumorV::ElectionUpdate(x) => {},
    }
}

/// Forcing an expiration keeps a membership's health.
pub proof fn lemma_with_exp_health(v: RumorV, at: i64)
    ensures
        match v {
            RumorV::Membership(m) => with_exp(v, at) matches RumorV::Membership(m2) && m2.health
                == m.health,
            _ => true,
        },
{
}


/// Moving a rumor's expiration to where it already is changes nothing.
pub proof fn lemma_with_exp_same(v: RumorV)
    ensures
        with_exp(v, exp_of(v)) == v,
{
    match v {
        RumorV::Membership(m) => {},
        RumorV::Departure(d) => {},
        RumorV::Service(x) => {},
        RumorV::ServiceConfig(x) => {},
        RumorV::ServiceFile(x) => {},
        RumorV::Election(x) => {},
        RumorV::ElectionUpdate(x) => {},
    }
}

/// A rumor descriptor: what `rumor_keys` hands the gossip layer to pick
/// candidates from.
#[derive(Clone, Debug)]
pub struct RumorKey {
    pub kind: RumorType,
    pub id: String,
    pub key: String,
}

impl RumorKey {
    /// A descriptor from its parts.
    pub fn new(kind: RumorType, id: &str, key: &str) -> (r: RumorKey)
        ensures
            r.kind == kind,
            r.id@ == id@,
            r.key@ == key@,
    {
        RumorKey { kind, id: id.to_owned(), key: key.to_owned() }
    }

    /// The combined routing key: `id-key` where a key is present, the id
    /// alone otherwise.
    pub fn key(&self) -> (r: String)
        ensures
            self.key@.len() > 0 ==> r@ == self.id@ + "-"@ + self.key@,
            self.key@.len() == 0 ==> r@ == self.id@,
    {
        if !self.key.as_str().is_empty() {
            let mut s = self.id.clone();
            s.append("-");
            s.append(self.key.as_str());
            s
        } else {
            self.id.clone()
        }
    }

    /// The descriptor of a rumor.
    pub fn from_rumor(rumor: &RumorKind) -> (r: RumorKey)
        ensures
            r.kind == kind_of(rumor@),
            r.id@ == id_of(rumor@),
            r.key@ == key_of(rumor@),
    {
        RumorKey::new(rumor.kind(), rumor.id(), rumor.key())
    }
}

} // verus!
