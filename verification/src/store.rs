//! The rumor store: a two-level map from an outer routing key (a service
//! group, the fixed "departure" tag, or the empty membership key) and an
//! inner key (a member id, a filename, or a fixed tag) to one rumor.
//! Every overwrite goes through the variant's merge rule; the update
//! counter moves exactly on the inserts that changed state.
//!
//! Both levels are held as association lists kept strictly sorted by the
//! UTF-8 bytes of their keys, so that a store's contents determine its
//! representation: two stores that hold the same rumors are equal byte for
//! byte, whatever order the rumors arrived in.

use vstd::prelude::*;

verus! {

use crate::error::RumorError;
use crate::expiration::Expiration;
use crate::rumor::{
    exp_of, id_of, key_of, kind_of, rumor_merged, rumor_wf, with_exp, Health, MembershipV,
    RumorKey, RumorKind, RumorType, RumorV,
};
use crate::text::{
    bytes_of, lemma_lex_irrefl, lemma_lex_trans, lemma_lex_trichotomy, lemma_utf8_injective,
    lex_lt, str_eq, str_lt,
};

/// The value of the store's data: outer key, then inner key, to rumor.
pub type StoreV = Map<Seq<char>, Map<Seq<char>, RumorV>>;

/// The map an association list spells: later entries shadow earlier ones,
/// though the store never keeps two entries with one key.
pub open spec fn alist_map<V>(s: Seq<(Seq<char>, V)>) -> Map<Seq<char>, V>
    decreases s.len(),
{
    if s.len() == 0 {
        Map::empty()
    } else {
        alist_map(s.drop_last()).insert(s.last().0, s.last().1)
    }
}

/// The keys of an association list, in entry order.
pub open spec fn akeys<V>(s: Seq<(Seq<char>, V)>) -> Seq<Seq<char>> {
    Seq::new(s.len(), |i: int| s[i].0)
}

/// No two entries share a key.
pub open spec fn distinct_keys<V>(s: Seq<(Seq<char>, V)>) -> bool {
    forall|i: int, j: int| 0 <= i < j < s.len() ==> (#[trigger] s[i]).0 != (#[trigger] s[j]).0
}

/// Entries sit in strictly increasing byte-lexicographic key order.
pub open spec fn sorted_keys<V>(s: Seq<(Seq<char>, V)>) -> bool {
    forall|i: int, j: int|
        0 <= i < j < s.len() ==> lex_lt(bytes_of((#[trigger] s[i]).0), bytes_of(
            (#[trigger] s[j]).0,
        ))
}

/// Sorted keys are distinct.
pub proof fn lemma_sorted_distinct<V>(s: Seq<(Seq<char>, V)>)
    requires
        sorted_keys(s),
    ensures
        distinct_keys(s),
{
    assert forall|i: int, j: int| 0 <= i < j < s.len() implies (#[trigger] s[i]).0 != (
    #[trigger] s[j]).0 by {
        if s[i].0 == s[j].0 {
            lemma_lex_irrefl(bytes_of(s[i].0));
        }
    }
}

/// An entry of a duplicate-free association list is in its map.
pub proof fn lemma_alist_index<V>(s: Seq<(Seq<char>, V)>, i: int)
    requires
        distinct_keys(s),
        0 <= i < s.len(),
    ensures
        alist_map(s).contains_key(s[i].0),
        alist_map(s)[s[i].0] == s[i].1,
    decreases s.len(),
{
    if i == s.len() - 1 {
    } else {
        lemma_alist_index(s.drop_last(), i);
        assert(s.drop_last()[i] == s[i]);
    }
}

/// A key is in the map exactly when some entry carries it.
pub proof fn lemma_alist_dom<V>(s: Seq<(Seq<char>, V)>, k: Seq<char>)
    ensures
        alist_map(s).contains_key(k) <==> exists|i: int| 0 <= i < s.len() && (#[trigger] s[i]).0
            == k,
    decreases s.len(),
{
    if s.len() > 0 {
        lemma_alist_dom(s.drop_last(), k);
        if s.last().0 == k {
            assert(s[s.len() - 1].0 == k);
        } else {
            if alist_map(s).contains_key(k) {
                let i = choose|i: int| 0 <= i < s.drop_last().len() && (#[trigger] s.drop_last()[
                    i]).0 == k;
                assert(s[i].0 == k);
            }
            if exists|i: int| 0 <= i < s.len() && (#[trigger] s[i]).0 == k {
                let i = choose|i: int| 0 <= i < s.len() && (#[trigger] s[i]).0 == k;
                assert(s.drop_last()[i] == s[i]);
            }
        }
    }
}

/// Replacing the value at one entry replaces it in the map.
pub proof fn lemma_alist_update<V>(s: Seq<(Seq<char>, V)>, i: int, val: V)
    requires
        distinct_keys(s),
        0 <= i < s.len(),
    ensures
        alist_map(s.update(i, (s[i].0, val))) == alist_map(s).insert(s[i].0, val),
    decreases s.len(),
{
    let t = s.update(i, (s[i].0, val));
    if i == s.len() - 1 {
        assert(t.drop_last() =~= s.drop_last());
        assert(t.last() == (s[i].0, val));
    } else {
        lemma_alist_update(s.drop_last(), i, val);
        assert(s.drop_last()[i] == s[i]);
        assert(t.drop_last() =~= s.drop_last().update(i, (s[i].0, val)));
        assert(t.last() == s.last());
        assert(alist_map(t) == alist_map(s.drop_last()).insert(s[i].0, val).insert(
            s.last().0,
            s.last().1,
        ));
        assert(s[i].0 != s.last().0);
        assert(alist_map(s.drop_last()).insert(s[i].0, val).insert(s.last().0, s.last().1)
            =~= alist_map(s.drop_last()).insert(s.last().0, s.last().1).insert(s[i].0, val));
    }
}

/// Inserting an entry with a fresh key inserts it in the map.
pub proof fn lemma_alist_insert<V>(s: Seq<(Seq<char>, V)>, pos: int, k: Seq<char>, val: V)
    requires
        0 <= pos <= s.len(),
        forall|i: int| 0 <= i < s.len() ==> (#[trigger] s[i]).0 != k,
    ensures
        alist_map(s.insert(pos, (k, val))) == alist_map(s).insert(k, val),
    decreases s.len(),
{
    let t = s.insert(pos, (k, val));
    if pos == s.len() {
        assert(t.drop_last() =~= s);
        assert(t.last() == (k, val));
    } else {
        assert(t.len() == s.len() + 1);
        assert(t.last() == s.last());
        assert(t.drop_last() =~= s.drop_last().insert(pos, (k, val)));
        assert(forall|i: int|
            0 <= i < s.drop_last().len() ==> (#[trigger] s.drop_last()[i]).0 != k);
        lemma_alist_insert(s.drop_last(), pos, k, val);
        assert(alist_map(t) == alist_map(s.drop_last()).insert(k, val).insert(
            s.last().0,
            s.last().1,
        ));
        assert(s[s.len() - 1].0 != k);
        assert(alist_map(s.drop_last()).insert(k, val).insert(s.last().0, s.last().1)
            =~= alist_map(s.drop_last()).insert(s.last().0, s.last().1).insert(k, val));
    }
}

/// Removing an entry of a duplicate-free list removes its key from the map.
pub proof fn lemma_alist_remove<V>(s: Seq<(Seq<char>, V)>, i: int)
    requires
        distinct_keys(s),
        0 <= i < s.len(),
    ensures
        alist_map(s.remove(i)) == alist_map(s).remove(s[i].0),
    decreases s.len(),
{
    let t = s.remove(i);
    if i == s.len() - 1 {
        assert(t =~= s.drop_last());
        lemma_alist_dom(s.drop_last(), s[i].0);
        assert(forall|j: int|
            0 <= j < s.drop_last().len() ==> (#[trigger] s.drop_last()[j]).0 != s[i].0);
        assert(!alist_map(s.drop_last()).contains_key(s[i].0));
        assert(alist_map(s) == alist_map(s.drop_last()).insert(s[i].0, s[i].1));
        assert(alist_map(s).remove(s[i].0) =~= alist_map(s.drop_last()));
    } else {
        lemma_alist_remove(s.drop_last(), i);
        assert(s.drop_last()[i] == s[i]);
        assert(t.drop_last() =~= s.drop_last().remove(i));
        assert(t.last() == s.last());
        assert(alist_map(t) == alist_map(s.drop_last()).remove(s[i].0).insert(
            s.last().0,
            s.last().1,
        ));
        assert(s[i].0 != s.last().0);
        assert(alist_map(s.drop_last()).remove(s[i].0).insert(s.last().0, s.last().1)
            =~= alist_map(s.drop_last()).insert(s.last().0, s.last().1).remove(s[i].0));
    }
}

/// A duplicate-free association list has as many entries as its map has
/// keys.
pub proof fn lemma_alist_len<V>(s: Seq<(Seq<char>, V)>)
    requires
        distinct_keys(s),
    ensures
        alist_map(s).dom().finite(),
        alist_map(s).dom().len() == s.len(),
    decreases s.len(),
{
    if s.len() == 0 {
        assert(alist_map(s).dom() =~= Set::<Seq<char>>::empty());
    } else {
        lemma_alist_len(s.drop_last());
        lemma_alist_dom(s.drop_last(), s.last().0);
        assert(forall|j: int|
            0 <= j < s.drop_last().len() ==> (#[trigger] s.drop_last()[j]).0 != s.last().0);
        assert(!alist_map(s.drop_last()).contains_key(s.last().0));
        assert(alist_map(s).dom() =~= alist_map(s.drop_last()).dom().insert(s.last().0));
        vstd::set::axiom_set_insert_finite(alist_map(s.drop_last()).dom(), s.last().0);
        vstd::set::axiom_set_insert_len(alist_map(s.drop_last()).dom(), s.last().0);
    }
}


/// The ghost entries of an inner group: each stored rumor under its inner
/// key.
pub open spec fn ientries(v: Seq<(String, RumorKind)>) -> Seq<(Seq<char>, RumorV)> {
    Seq::new(v.len(), |i: int| (v[i].0@, v[i].1@))
}

/// The ghost entries of the outer list: each group under its routing key.
pub open spec fn oentries(l: Seq<(String, Vec<(String, RumorKind)>)>) -> Seq<
    (Seq<char>, Map<Seq<char>, RumorV>),
> {
    Seq::new(l.len(), |i: int| (l[i].0@, alist_map(ientries(l[i].1@))))
}

/// A well-formed inner group under routing key `okey`: sorted, and every
/// rumor sits under its own identity in canonical form.
pub open spec fn inner_wf(v: Seq<(String, RumorKind)>, okey: Seq<char>) -> bool {
    &&& sorted_keys(ientries(v))
    &&& forall|i: int|
        0 <= i < v.len() ==> id_of((#[trigger] v[i]).1@) == v[i].0@ && key_of(v[i].1@) == okey
            && rumor_wf(v[i].1@)
}

/// The fixed outer key departures live under.
pub open spec fn dep_key() -> Seq<char> {
    "departure"@
}

/// The fixed (empty) outer key membership rumors live under.
pub open spec fn member_key() -> Seq<char> {
    Seq::<char>::empty()
}

/// Whether a departure rumor is stored for `member`.
pub open spec fn departure_known(m: StoreV, member: Seq<char>) -> bool {
    m.contains_key(dep_key()) && m[dep_key()].contains_key(member) && m[dep_key()][member]
        is Departure
}

/// Departure dominance: wherever a departure is known for a member, a
/// stored membership rumor for that member reads Departed.
pub open spec fn dominance(m: StoreV) -> bool {
    forall|id: Seq<char>|
        (departure_known(m, id) && m.contains_key(member_key()) && m[member_key()].contains_key(
            id,
        )) ==> match #[trigger] m[member_key()][id] {
            RumorV::Membership(mm) => mm.health == Health::Departed,
            _ => true,
        }
}

/// Storage for rumors, routed by `(key, id)`, each overwrite going through
/// `merge`. The update counter moves exactly on state changes; ignored
/// rumors are counted per kind.
pub struct RumorStore {
    list: Vec<(String, Vec<(String, RumorKind)>)>,
    update_counter: usize,
    ignored: IgnoredCounts,
}

/// How many rumors of each kind were offered and changed nothing.
#[derive(Clone, Copy, Debug, PartialEq, Eq, Structural)]
pub struct IgnoredCounts {
    pub member: u64,
    pub departure: u64,
    pub service: u64,
    pub service_config: u64,
    pub service_file: u64,
    pub election: u64,
    pub election_update: u64,
}

impl IgnoredCounts {
    /// All counters at zero.
    pub fn new() -> (r: Self)
        ensures
            r == (IgnoredCounts {
                member: 0u64,
                departure: 0u64,
                service: 0u64,
                service_config: 0u64,
                service_file: 0u64,
                election: 0u64,
                election_update: 0u64,
            }),
    {
        IgnoredCounts {
            member: 0,
            departure: 0,
            service: 0,
            service_config: 0,
            service_file: 0,
            election: 0,
            election_update: 0,
        }
    }

    /// The counter for one kind.
    pub fn get(&self, kind: RumorType) -> (r: u64)
        ensures
            r == self.spec_get(kind),
    {
        match kind {
            RumorType::Member => self.member,
            RumorType::Departure => self.departure,
            RumorType::Service => self.service,
            RumorType::ServiceConfig => self.service_config,
            RumorType::ServiceFile => self.service_file,
            RumorType::Election => self.election,
            RumorType::ElectionUpdate => self.election_update,
        }
    }

    /// The counter for one kind, as a value.
    pub open spec fn spec_get(&self, kind: RumorType) -> u64 {
        match kind {
            RumorType::Member => self.member,
            RumorType::Departure => self.departure,
            RumorType::Service => self.service,
            RumorType::ServiceConfig => self.service_config,
            RumorType::ServiceFile => self.service_file,
            RumorType::Election => self.election,
            RumorType::ElectionUpdate => self.election_update,
        }
    }

    /// Bumps the counter for one kind, wrapping at the top.
    fn bump(&mut self, kind: RumorType)
        ensures
            final(self).spec_get(kind) == old(self).spec_get(kind).wrapping_add(1),
            forall|k: RumorType| k != kind ==> final(self).spec_get(k) == old(self).spec_get(k),
    {
        match kind {
            RumorType::Member => self.member = self.member.wrapping_add(1),
            RumorType::Departure => self.departure = self.departure.wrapping_add(1),
            RumorType::Service => self.service = self.service.wrapping_add(1),
            RumorType::ServiceConfig => self.service_config = self.service_config.wrapping_add(1),
            RumorType::ServiceFile => self.service_file = self.service_file.wrapping_add(1),
            RumorType::Election => self.election = self.election.wrapping_add(1),
            RumorType::ElectionUpdate => self.election_update = self.election_update.wrapping_add(
                1,
            ),
        }
    }
}

impl RumorStore {
    /// The data this store holds: outer key, then inner key, to rumor.
    pub closed spec fn view(&self) -> StoreV {
        alist_map(oentries(self.list@))
    }

    /// The well-formedness every operation preserves: both levels sorted,
    /// every rumor stored under its own identity in canonical form, and
    /// departure dominance.
    pub closed spec fn wf(&self) -> bool {
        &&& sorted_keys(oentries(self.list@))
        &&& forall|i: int|
            0 <= i < self.list@.len() ==> inner_wf(
                (#[trigger] self.list@[i]).1@,
                self.list@[i].0@,
            )
        &&& dominance(self.view())
    }

    /// The update counter's value.
    pub closed spec fn spec_counter(&self) -> usize {
        self.update_counter
    }

    /// A store with no rumors and the update counter preset; presetting is
    /// useful mainly in tests.
    pub fn new(counter: usize) -> (r: RumorStore)
        ensures
            r.wf(),
            r@ == Map::<Seq<char>, Map<Seq<char>, RumorV>>::empty(),
            r.spec_counter() == counter,
    {
        let r = RumorStore { list: Vec::new(), update_counter: counter, ignored: IgnoredCounts::new() };
        proof {
            assert(oentries(r.list@) =~= Seq::<(Seq<char>, Map<Seq<char>, RumorV>)>::empty());
            assert(r@ =~= Map::<Seq<char>, Map<Seq<char>, RumorV>>::empty());
        }
        r
    }

    /// The update counter, a monotonic change stamp (it wraps at the top).
    pub fn get_update_counter(&self) -> (r: usize)
        ensures
            r == self.spec_counter(),
    {
        self.update_counter
    }

    /// How many rumors of each kind were offered and ignored.
    pub closed spec fn spec_ignored(&self) -> IgnoredCounts {
        self.ignored
    }

    /// How many rumors of `kind` were offered and ignored.
    pub fn get_ignored_count(&self, kind: RumorType) -> (r: u64)
        ensures
            r == self.spec_ignored().spec_get(kind),
    {
        self.ignored.get(kind)
    }

    /// Advances the update counter by one, wrapping to zero at the top
    /// instead of panicking: the counter only ever has to distinguish two
    /// adjacent states.
    pub fn increment_update_counter(&mut self)
        ensures
            final(self)@ == old(self)@,
            final(self).wf() == old(self).wf(),
            final(self).spec_counter() == if old(self).spec_counter() == usize::MAX {
                0usize
            } else {
                (old(self).spec_counter() + 1) as usize
            },
    {
        self.update_counter = self.update_counter.wrapping_add(1);
    }

    /// Empties the store and resets the update counter, handing back the
    /// counter's prior value.
    pub fn clear(&mut self) -> (prior: usize)
        ensures
            final(self).wf(),
            final(self)@ == Map::<Seq<char>, Map<Seq<char>, RumorV>>::empty(),
            final(self).spec_counter() == 0,
            prior == old(self).spec_counter(),
    {
        let prior = self.update_counter;
        self.list = Vec::new();
        self.update_counter = 0;
        proof {
            assert(oentries(self.list@) =~= Seq::<(Seq<char>, Map<Seq<char>, RumorV>)>::empty());
            assert(self@ =~= Map::<Seq<char>, Map<Seq<char>, RumorV>>::empty());
        }
        prior
    }

    /// Finds the position of `key` in the outer list: the index where it
    /// sits or belongs, and whether it sits there.
    fn search_outer(&self, key: &str) -> (r: (usize, bool))
        requires
            self.wf(),
        ensures
            r.0 <= self.list@.len(),
            r.1 ==> r.0 < self.list@.len() && self.list@[r.0 as int].0@ == key@,
            !r.1 ==> !self@.contains_key(key@),
            !r.1 ==> forall|j: int|
                0 <= j < r.0 ==> lex_lt(bytes_of((#[trigger] self.list@[j]).0@), bytes_of(key@)),
            !r.1 ==> (r.0 < self.list@.len() ==> lex_lt(bytes_of(key@), bytes_of(
                self.list@[r.0 as int].0@,
            ))),
    {
        let ghost es = oentries(self.list@);
        let mut i: usize = 0;
        while i < self.list.len() && str_lt(self.list[i].0.as_str(), key)
            invariant
                self.wf(),
                0 <= i <= self.list@.len(),
                es == oentries(self.list@),
                forall|j: int|
                    0 <= j < i ==> lex_lt(bytes_of((#[trigger] self.list@[j]).0@), bytes_of(key@)),
            decreases self.list@.len() - i,
        {
            proof {
                assert(es[i as int].0 == self.list@[i as int].0@);
            }
            i = i + 1;
        }
        if i < self.list.len() && str_eq(self.list[i].0.as_str(), key) {
            (i, true)
        } else {
            proof {
                assert forall|j: int| 0 <= j < es.len() implies (#[trigger] es[j]).0 != key@ by {
                    assert(es[j].0 == self.list@[j].0@);
                    if j < i {
                        if es[j].0 == key@ {
                            lemma_lex_irrefl(bytes_of(key@));
                        }
                    } else if j == i {
                        if es[j].0 == key@ {
                            lemma_lex_irrefl(bytes_of(key@));
                        }
                    } else {
                        assert(lex_lt(bytes_of(es[i as int].0), bytes_of(es[j].0)));
                        if es[j].0 == key@ {
                            if lex_lt(bytes_of(es[i as int].0), bytes_of(key@)) {
                            }
                        }
                    }
                }
                lemma_alist_dom(es, key@);
                if i < self.list@.len() {
                    assert(es[i as int].0 == self.list@[i as int].0@);
                    assert(!lex_lt(bytes_of(es[i as int].0), bytes_of(key@)));
                    if !lex_lt(bytes_of(key@), bytes_of(es[i as int].0)) {
                        lemma_lex_trichotomy(bytes_of(es[i as int].0), bytes_of(key@));
                        lemma_utf8_injective(es[i as int].0, key@);
                    }
                }
            }
            (i, false)
        }
    }

    /// Finds the position of `id` in an inner group, as `search_outer`
    /// does for the outer list.
    fn search_inner(v: &Vec<(String, RumorKind)>, id: &str, Ghost(okey): Ghost<Seq<char>>) -> (r:
        (usize, bool))
        requires
            inner_wf(v@, okey),
        ensures
            r.0 <= v@.len(),
            r.1 ==> r.0 < v@.len() && v@[r.0 as int].0@ == id@,
            !r.1 ==> !alist_map(ientries(v@)).contains_key(id@),
            !r.1 ==> forall|j: int|
                0 <= j < r.0 ==> lex_lt(bytes_of((#[trigger] v@[j]).0@), bytes_of(id@)),
            !r.1 ==> (r.0 < v@.len() ==> lex_lt(bytes_of(id@), bytes_of(v@[r.0 as int].0@))),
    {
        let ghost es = ientries(v@);
        let mut i: usize = 0;
        while i < v.len() && str_lt(v[i].0.as_str(), id)
            invariant
                inner_wf(v@, okey),
                0 <= i <= v@.len(),
                es == ientries(v@),
                forall|j: int|
                    0 <= j < i ==> lex_lt(bytes_of((#[trigger] v@[j]).0@), bytes_of(id@)),
            decreases v@.len() - i,
        {
            proof {
                assert(es[i as int].0 == v@[i as int].0@);
            }
            i = i + 1;
        }
        if i < v.len() && str_eq(v[i].0.as_str(), id) {
            (i, true)
        } else {
            proof {
                assert forall|j: int| 0 <= j < es.len() implies (#[trigger] es[j]).0 != id@ by {
                    assert(es[j].0 == v@[j].0@);
                    if j < i {
                        if es[j].0 == id@ {
                            lemma_lex_irrefl(bytes_of(id@));
                        }
                    } else if j == i {
                        if es[j].0 == id@ {
                            lemma_lex_irrefl(bytes_of(id@));
                        }
                    } else {
                        assert(lex_lt(bytes_of(es[i as int].0), bytes_of(es[j].0)));
                    }
                }
                lemma_alist_dom(es, id@);
                if i < v@.len() {
                    assert(es[i as int].0 == v@[i as int].0@);
                    if !lex_lt(bytes_of(id@), bytes_of(es[i as int].0)) {
                        lemma_lex_trichotomy(bytes_of(es[i as int].0), bytes_of(id@));
                        lemma_utf8_injective(es[i as int].0, id@);
                    }
                }
            }
            (i, false)
        }
    }

    /// Whether a rumor is stored under `(key, id)`.
    pub fn contains_rumor(&self, key: &str, id: &str) -> (r: bool)
        requires
            self.wf(),
        ensures
            r == (self@.contains_key(key@) && self@[key@].contains_key(id@)),
    {
        let (oi, ofound) = self.search_outer(key);
        if !ofound {
            return false;
        }
        proof {
            lemma_sorted_distinct(oentries(self.list@));
            lemma_alist_index(oentries(self.list@), oi as int);
            assert(oentries(self.list@)[oi as int].0 == key@);
        }
        let (ii, ifound) = Self::search_inner(
            &self.list[oi].1,
            id,
            Ghost(self.list@[oi as int].0@),
        );
        proof {
            if ifound {
                lemma_sorted_distinct(ientries(self.list@[oi as int].1@));
                lemma_alist_index(ientries(self.list@[oi as int].1@), ii as int);
                assert(ientries(self.list@[oi as int].1@)[ii as int].0 == id@);
            }
        }
        ifound
    }

    /// How many rumors are stored under the outer `key`; zero when the key
    /// is unknown.
    pub fn len_for_key(&self, key: &str) -> (r: usize)
        requires
            self.wf(),
        ensures
            self@.contains_key(key@) ==> r == self@[key@].dom().len(),
            !self@.contains_key(key@) ==> r == 0,
    {
        let (oi, ofound) = self.search_outer(key);
        if !ofound {
            return 0;
        }
        proof {
            lemma_sorted_distinct(oentries(self.list@));
            lemma_alist_index(oentries(self.list@), oi as int);
            assert(oentries(self.list@)[oi as int].0 == key@);
            lemma_sorted_distinct(ientries(self.list@[oi as int].1@));
            lemma_alist_len(ientries(self.list@[oi as int].1@));
        }
        self.list[oi].1.len()
    }
}


/// A membership value with its health forced to Departed; any other rumor
/// unchanged.
pub open spec fn forced_value(v: RumorV) -> RumorV {
    match v {
        RumorV::Membership(mm) => RumorV::Membership(
            MembershipV { health: Health::Departed, ..mm },
        ),
        _ => v,
    }
}

/// What lands in the slot: the merged rumor, with a membership forced to
/// Departed where a departure is known for its member.
pub open spec fn force_incoming(m: StoreV, v: RumorV) -> RumorV {
    match v {
        RumorV::Membership(mm) => if departure_known(m, mm.member_id) {
            forced_value(v)
        } else {
            v
        },
        _ => v,
    }
}

/// The store's data with any membership rumor stored for `member` forced
/// to Departed.
pub open spec fn force_member_slot(m: StoreV, member: Seq<char>) -> StoreV {
    if m.contains_key(member_key()) && m[member_key()].contains_key(member) {
        match m[member_key()][member] {
            RumorV::Membership(mm) => m.insert(
                member_key(),
                m[member_key()].insert(
                    member,
                    RumorV::Membership(MembershipV { health: Health::Departed, ..mm }),
                ),
            ),
            _ => m,
        }
    } else {
        m
    }
}

/// The store's data after one insert: the incoming rumor merged into its
/// `(key, id)` slot by its variant's rule, departure dominance applied on
/// both sides.
pub open spec fn store_inserted(m: StoreV, r: RumorV) -> StoreV {
    let k = key_of(r);
    let id = id_of(r);
    let inner = if m.contains_key(k) {
        m[k]
    } else {
        Map::<Seq<char>, RumorV>::empty()
    };
    let merged0 = if inner.contains_key(id) {
        rumor_merged(inner[id], r)
    } else {
        r
    };
    let merged = force_incoming(m, merged0);
    let base = m.insert(k, inner.insert(id, merged));
    match r {
        RumorV::Departure(d) => force_member_slot(base, d.member_id),
        _ => base,
    }
}

/// Forces a membership rumor's health to Departed, handing back whether
/// that was a change.
fn force_departed(r: RumorKind) -> (res: (RumorKind, bool))
    ensures
        res.0@ == forced_value(r@),
        res.1 == (res.0@ != r@),
        key_of(res.0@) == key_of(r@),
        id_of(res.0@) == id_of(r@),
        rumor_wf(r@) ==> rumor_wf(res.0@),
{
    match r {
        RumorKind::Membership(mut mm) => {
            let was = matches!(mm.health, Health::Departed);
            mm.health = Health::Departed;
            (RumorKind::Membership(mm), !was)
        },
        x => (x, false),
    }
}

impl RumorStore {
    /// Forces the stored membership rumor for `member`, if any, to
    /// Departed; reports whether that changed anything.
    fn force_membership_departed(&mut self, member: &str) -> (changed: bool)
        requires
            old(self).wf(),
        ensures
            final(self).wf(),
            final(self)@ == force_member_slot(old(self)@, member@),
            changed == (final(self)@ != old(self)@),
            final(self).spec_counter() == old(self).spec_counter(),
            final(self).spec_ignored() == old(self).spec_ignored(),
    {
        let ghost m0 = self@;
        proof {
            reveal_strlit("");
            assert(""@ =~= member_key());
        }
        let (oi, ofound) = self.search_outer("");
        if !ofound {
            proof {
                assert(force_member_slot(m0, member@) == m0);
            }
            return false;
        }
        proof {
            lemma_sorted_distinct(oentries(self.list@));
            lemma_alist_index(oentries(self.list@), oi as int);
        }
        let ghost okey = self.list@[oi as int].0@;
        let ghost inner0 = alist_map(ientries(self.list@[oi as int].1@));
        let (name, mut group) = self.list.remove(oi);
        let ghost lmid = self.list@;
        let (ii, ifound) = Self::search_inner(&group, member, Ghost(name@));
        if !ifound {
            self.list.insert(oi, (name, group));
            proof {
                assert(self.list@ =~= old(self).list@);
                assert(oentries(self.list@) =~= oentries(old(self).list@));
                assert(force_member_slot(m0, member@) == m0);
            }
            return false;
        }
        proof {
            lemma_sorted_distinct(ientries(group@));
            lemma_alist_index(ientries(group@), ii as int);
        }
        let (iname, cur) = group.remove(ii);
        let ghost cv = cur@;
        let (cur2, ch) = force_departed(cur);
        group.insert(ii, (iname, cur2));
        self.list.insert(oi, (name, group));
        proof {
            let lst1 = self.list@;
            let lst0 = old(self).list@;
            // the inner group's entries were updated in place
            assert(ientries(group@) =~= ientries(lst0[oi as int].1@).update(
                ii as int,
                (member@, cur2@),
            ));
            assert(ientries(lst0[oi as int].1@)[ii as int].0 == member@);
            lemma_sorted_distinct(ientries(lst0[oi as int].1@));
            lemma_alist_update(ientries(lst0[oi as int].1@), ii as int, cur2@);
            assert(alist_map(ientries(group@)) == inner0.insert(member@, cur2@));
            // and the outer list likewise
            assert(oentries(lst1) =~= oentries(lst0).update(
                oi as int,
                (okey, alist_map(ientries(group@))),
            ));
            assert(oentries(lst0)[oi as int].0 == okey);
            lemma_sorted_distinct(oentries(lst0));
            lemma_alist_update(oentries(lst0), oi as int, alist_map(ientries(group@)));
            assert(self@ == m0.insert(okey, inner0.insert(member@, forced_value(cv))));
            assert(okey == member_key());
            assert(m0.contains_key(member_key()) && m0[member_key()].contains_key(member@));
            assert(m0[member_key()] == inner0);
            assert(inner0[member@] == cv);
            // the result matches the spec slot update
            if cv is Membership {
                assert(self@ == force_member_slot(m0, member@));
            } else {
                assert(cur2@ == cv);
                assert(inner0.insert(member@, cv) =~= inner0);
                assert(m0.insert(okey, inner0) =~= m0);
                assert(self@ == force_member_slot(m0, member@));
            }
            // change tracking
            if ch {
                assert(self@[member_key()][member@] == cur2@);
                assert(m0[member_key()][member@] == cv);
                assert(cur2@ != cv);
                assert(self@ != m0);
            } else {
                assert(cur2@ == cv);
                assert(inner0.insert(member@, cv) =~= inner0);
                assert(m0.insert(okey, inner0) =~= m0);
                assert(self@ == m0);
            }
            // well-formedness is preserved: keys and identities unchanged,
            // only a health field moved
            assert forall|i: int| 0 <= i < lst1.len() implies inner_wf(
                (#[trigger] lst1[i]).1@,
                lst1[i].0@,
            ) by {
                if i == oi as int {
                    assert(inner_wf(lst0[i].1@, lst0[i].0@));
                    assert(group@ =~= lst0[i].1@.update(ii as int, (iname, cur2)));
                } else {
                    assert(lst1[i] == lst0[i]);
                    assert(inner_wf(lst0[i].1@, lst0[i].0@));
                }
            }
            assert(sorted_keys(oentries(lst1)));
            // dominance: only a health became Departed
            assert forall|id2: Seq<char>|
                (departure_known(self@, id2) && self@.contains_key(member_key())
                    && self@[member_key()].contains_key(id2)) implies match #[trigger] self@[
                member_key()][id2] {
                RumorV::Membership(mm) => mm.health == Health::Departed,
                _ => true,
            } by {
                if id2 == member@ {
                } else {
                    assert(self@[member_key()][id2] == m0[member_key()][id2]);
                    assert(departure_known(m0, id2));
                }
            }
        }
        ch
    }
}



/// Inserting an entry between its sorted neighbours keeps the list sorted.
pub proof fn lemma_sorted_insert<V>(s: Seq<(Seq<char>, V)>, pos: int, k: Seq<char>, val: V)
    requires
        sorted_keys(s),
        0 <= pos <= s.len(),
        forall|j: int| 0 <= j < pos ==> lex_lt(bytes_of((#[trigger] s[j]).0), bytes_of(k)),
        pos < s.len() ==> lex_lt(bytes_of(k), bytes_of(s[pos].0)),
    ensures
        sorted_keys(s.insert(pos, (k, val))),
{
    let t = s.insert(pos, (k, val));
    assert forall|p: int, q: int| 0 <= p < q < t.len() implies lex_lt(
        bytes_of((#[trigger] t[p]).0),
        bytes_of((#[trigger] t[q]).0),
    ) by {
        if p < pos && q < pos {
            assert(t[p] == s[p] && t[q] == s[q]);
        } else if p < pos && q == pos {
            assert(t[p] == s[p] && t[q] == (k, val));
        } else if p < pos && q > pos {
            assert(t[p] == s[p] && t[q] == s[q - 1]);
            if q - 1 == p {
            } else {
                assert(lex_lt(bytes_of(s[p].0), bytes_of(s[q - 1].0)));
            }
        } else if p == pos {
            assert(t[p] == (k, val) && t[q] == s[q - 1]);
            assert(pos <= q - 1 < s.len());
            if q - 1 == pos {
            } else {
                assert(lex_lt(bytes_of(s[pos].0), bytes_of(s[q - 1].0)));
                lemma_lex_trans(bytes_of(k), bytes_of(s[pos].0), bytes_of(s[q - 1].0));
            }
        } else {
            assert(t[p] == s[p - 1] && t[q] == s[q - 1]);
            assert(lex_lt(bytes_of(s[p - 1].0), bytes_of(s[q - 1].0)));
        }
    }
}

/// The two fixed routing keys differ.
proof fn lemma_fixed_keys_differ()
    ensures
        dep_key() != member_key(),
{
    reveal_strlit("departure");
    reveal_strlit("");
    assert(dep_key().len() == 9);
}

/// What one insert does to the data, stated over the pieces the
/// executable path computes: the store after the stored-side forcing, the
/// occupied slot if any, and the value that lands in the slot.
#[verifier::rlimit(60)]
proof fn lemma_insert_semantics(
    m0: StoreV,
    m1: StoreV,
    rv: RumorV,
    cvo: Option<RumorV>,
    dep_known: bool,
    mv: RumorV,
    mfinal: StoreV,
)
    requires
        dominance(m0),
        m1 == (if rv is Departure {
            force_member_slot(m0, id_of(rv))
        } else {
            m0
        }),
        dep_known == (rv is Membership && departure_known(m0, id_of(rv))),
        cvo == (if m1.contains_key(key_of(rv)) && m1[key_of(rv)].contains_key(id_of(rv)) {
            Some(m1[key_of(rv)][id_of(rv)])
        } else {
            None::<RumorV>
        }),
        (cvo matches Some(cv) ==> key_of(cv) == key_of(rv) && id_of(cv) == id_of(rv)),
        mv == (if dep_known {
            forced_value(
                match cvo {
                    Some(cv) => rumor_merged(cv, rv),
                    None => rv,
                },
            )
        } else {
            match cvo {
                Some(cv) => rumor_merged(cv, rv),
                None => rv,
            }
        }),
        mfinal == m1.insert(
            key_of(rv),
            (if m1.contains_key(key_of(rv)) {
                m1[key_of(rv)]
            } else {
                Map::<Seq<char>, RumorV>::empty()
            }).insert(id_of(rv), mv),
        ),
    ensures
        mfinal == store_inserted(m0, rv),
        (mfinal != m0) <==> (m1 != m0 || (match cvo {
            Some(cv) => mv != cv,
            None => true,
        })),
        (match cvo {
            Some(cv) => (mv != cv) <==> (rumor_merged(cv, rv) != cv || mv != rumor_merged(cv, rv)),
            None => true,
        }),
{
    lemma_fixed_keys_differ();
    let k = key_of(rv);
    let id = id_of(rv);
    // the forcing before the slot insert only touches the membership slot
    if rv is Departure {
        assert(k == dep_key());
        assert(m1.contains_key(k) == m0.contains_key(k) && (m1.contains_key(k) ==> m1[k] == m0[k]));
    }
    let inner = if m0.contains_key(k) {
        m0[k]
    } else {
        Map::<Seq<char>, RumorV>::empty()
    };
    let merged0 = if inner.contains_key(id) {
        rumor_merged(inner[id], rv)
    } else {
        rv
    };
    let merged = force_incoming(m0, merged0);
    let base = m0.insert(k, inner.insert(id, merged));
    // the executable merged value agrees with the specification's
    if cvo is Some {
        let cv = cvo->0;
        crate::rumor::lemma_merged_identity(cv, rv);
        assert(merged0 == rumor_merged(cv, rv));
        if merged0 is Membership {
            assert(kind_of(merged0) == kind_of(cv) || merged0 == rv);
            match merged0 {
                RumorV::Membership(mm) => {
                    assert(mm.member_id == id);
                    if rv is Membership {
                        assert(mv == merged);
                    } else {
                        // the slot held a membership rumor some other kind
                        // could not touch; dominance already fixed it
                        assert(!(rv is Membership));
                        assert(kind_of(merged0) == kind_of(cv));
                        assert(cv == merged0);
                        assert(!(rv is Departure)) by {
                            if rv is Departure {
                                assert(key_of(cv) == dep_key());
                            }
                        }
                        assert(cv == m0[k][id]);
                        assert(k == member_key());
                        if departure_known(m0, mm.member_id) {
                            assert(mm.health == Health::Departed);
                            assert(forced_value(merged0) == merged0);
                        }
                        assert(mv == merged);
                    }
                },
                _ => {},
            }
        } else {
            assert(forced_value(merged0) == merged0);
            assert(merged == merged0);
            assert(mv == merged0);
        }
    } else {
        assert(merged0 == rv);
        if rv is Membership {
            match rv {
                RumorV::Membership(mm) => {
                    assert(mm.member_id == id);
                    assert(mv == merged);
                },
                _ => {},
            }
        } else {
            assert(forced_value(merged0) == merged0);
            assert(mv == merged0);
        }
    }
    assert(mv == merged);
    // the final store agrees with the specification
    if rv is Departure {
        let member = id;
        assert(store_inserted(m0, rv) == force_member_slot(base, member));
        if m0.contains_key(member_key()) && m0[member_key()].contains_key(member) && (m0[
            member_key()][member] is Membership) {
            let y = m0[member_key()].insert(
                member,
                forced_value(m0[member_key()][member]),
            );
            assert(m1 == m0.insert(member_key(), y));
            assert(base[member_key()] == m0[member_key()]);
            assert(force_member_slot(base, member) == base.insert(member_key(), y));
            assert(mfinal =~= base.insert(member_key(), y));
        } else {
            assert(m1 == m0);
            assert(base[member_key()] == m0[member_key()] || !base.contains_key(member_key()));
            assert(force_member_slot(base, member) == base);
            assert(mfinal =~= base);
        }
    } else {
        assert(m1 == m0);
        assert(store_inserted(m0, rv) == base);
        assert(mfinal =~= base);
    }
    // change tracking: the store changed exactly when the forcing or the
    // slot value did
    if m1 != m0 {
        assert(rv is Departure);
        assert(m0.contains_key(member_key()) && m0[member_key()].contains_key(id) && (m0[
            member_key()][id] is Membership));
        let old_mm = m0[member_key()][id];
        assert(m1[member_key()][id] == forced_value(old_mm));
        assert(forced_value(old_mm) != old_mm) by {
            if forced_value(old_mm) == old_mm {
                assert(m0[member_key()].insert(id, old_mm) =~= m0[member_key()]);
                assert(m1 =~= m0);
            }
        }
        assert(mfinal[member_key()][id] == forced_value(old_mm));
        assert(mfinal != m0);
    }
    if cvo is Some && mv != cvo->0 {
        assert(mfinal[k][id] == mv);
        assert(m0[k][id] == cvo->0);
        assert(mfinal != m0);
    }
    if cvo is None {
        assert(mfinal[k].contains_key(id));
        if m0.contains_key(k) {
            assert(!m0[k].contains_key(id));
        }
        assert(mfinal != m0);
    }
    if m1 == m0 && cvo is Some && mv == cvo->0 {
        assert(inner.insert(id, mv) =~= inner);
        assert(mfinal =~= m0);
    }
    // slot-change decomposition: forcing an already-departed membership is
    // no change
    if cvo is Some {
        let cv = cvo->0;
        let mg = rumor_merged(cv, rv);
        if mg == cv && mv == mg {
            assert(mv == cv);
        }
        if mv != mg {
            // the forcing really fired: the merged value was a
            // not-yet-departed membership and a departure is known
            assert(dep_known);
            assert(mv == forced_value(mg));
            match mg {
                RumorV::Membership(mgm) => {
                    assert(mgm.health != Health::Departed);
                    if mv == cv {
                        match cv {
                            RumorV::Membership(cvm) => {
                                assert(cvm.health == Health::Departed);
                                assert(k == member_key());
                                assert(cv == m0[k][id]);
                                assert(departure_known(m0, id));
                                assert(cvm.member_id == id);
                                match rv {
                                    RumorV::Membership(rvm) => {
                                        assert(mg == RumorV::Membership(
                                            membership_merged_alias(cvm, rvm),
                                        ));
                                        assert(mgm.incarnation == cvm.incarnation);
                                        assert(false);
                                    },
                                    _ => {
                                        assert(mg == cv);
                                        assert(false);
                                    },
                                }
                            },
                            _ => {
                                assert(false);
                            },
                        }
                    }
                },
                _ => {
                    assert(false);
                },
            }
        }
    }
}

/// The membership merge rule under its store-level name.
pub open spec fn membership_merged_alias(c: MembershipV, i: MembershipV) -> MembershipV {
    crate::rumor::membership_merged(c, i)
}

/// One insert preserves departure dominance.
#[verifier::rlimit(60)]
proof fn lemma_store_inserted_dominance(m0: StoreV, rv: RumorV)
    requires
        dominance(m0),
        (m0.contains_key(key_of(rv)) && m0[key_of(rv)].contains_key(id_of(rv))) ==> (key_of(
            m0[key_of(rv)][id_of(rv)],
        ) == key_of(rv) && id_of(m0[key_of(rv)][id_of(rv)]) == id_of(rv)),
    ensures
        dominance(store_inserted(m0, rv)),
{
    lemma_fixed_keys_differ();
    let k = key_of(rv);
    let id = id_of(rv);
    let inner = if m0.contains_key(k) {
        m0[k]
    } else {
        Map::<Seq<char>, RumorV>::empty()
    };
    let merged0 = if inner.contains_key(id) {
        rumor_merged(inner[id], rv)
    } else {
        rv
    };
    if inner.contains_key(id) {
        crate::rumor::lemma_merged_identity(inner[id], rv);
    }
    let merged = force_incoming(m0, merged0);
    let base = m0.insert(k, inner.insert(id, merged));
    let mfin = store_inserted(m0, rv);
    assert forall|id2: Seq<char>|
        (departure_known(mfin, id2) && mfin.contains_key(member_key())
            && mfin[member_key()].contains_key(id2)) implies match #[trigger] mfin[member_key()][
        id2] {
        RumorV::Membership(mm) => mm.health == Health::Departed,
        _ => true,
    } by {
        if rv is Departure {
            let member = id;
            assert(mfin == force_member_slot(base, member));
            // the departure slot is the same in `mfin` and `base`
            assert(mfin.contains_key(dep_key()) == base.contains_key(dep_key()) && (
            mfin.contains_key(dep_key()) ==> mfin[dep_key()] == base[dep_key()]));
            if id2 == member {
                match mfin[member_key()][id2] {
                    RumorV::Membership(mm) => {
                        // the member slot was forced, or held no
                        // membership, or held one already departed
                        if base.contains_key(member_key()) && base[member_key()].contains_key(
                            member,
                        ) && (base[member_key()][member] is Membership) {
                            assert(mfin[member_key()][member] == forced_value(
                                base[member_key()][member],
                            ));
                        } else {
                            assert(mfin == base);
                            assert(base[member_key()][id2] == m0[member_key()][id2]);
                            assert(departure_known(m0, id2) ==> mm.health == Health::Departed);
                            if !departure_known(m0, id2) {
                                // the newly stored departure covers it
                                assert(false);
                            }
                        }
                    },
                    _ => {},
                }
            } else {
                // other members: their slots and departures are untouched
                assert(mfin[member_key()][id2] == m0[member_key()][id2]);
                assert(departure_known(mfin, id2) ==> departure_known(m0, id2));
            }
        } else {
            assert(mfin == base);
            // what the insert wrote into the departure routing key, if
            // anything, is not a departure rumor unless one was already
            // stored there unchanged
            assert(departure_known(mfin, id2) ==> departure_known(m0, id2)) by {
                if departure_known(mfin, id2) && !departure_known(m0, id2) {
                    assert(k == dep_key() && id2 == id);
                    assert(mfin[dep_key()][id2] == merged);
                    assert(merged is Departure);
                    assert(!(rv is Departure) && !(rv is Membership)) by {
                        if rv is Membership {
                            assert(k == member_key());
                        }
                    }
                    if inner.contains_key(id) {
                        assert(kind_of(merged0) == kind_of(inner[id]));
                        assert(merged == merged0);
                        assert(inner[id] is Departure);
                        assert(departure_known(m0, id2));
                    } else {
                        assert(merged0 == rv);
                        assert(merged == rv || merged == forced_value(rv));
                        assert(!(merged is Departure));
                    }
                }
            }
            if departure_known(mfin, id2) {
                assert(departure_known(m0, id2));
                if k == member_key() && id2 == id {
                    match mfin[member_key()][id2] {
                        RumorV::Membership(mm) => {
                            assert(mfin[member_key()][id2] == merged);
                            if merged0 is Membership {
                                match merged0 {
                                    RumorV::Membership(m0m) => {
                                        assert(m0m.member_id == id) by {
                                            if inner.contains_key(id) {
                                                assert(id_of(merged0) == id);
                                            } else {
                                                assert(merged0 == rv);
                                            }
                                        }
                                        assert(merged == forced_value(merged0));
                                        assert(mm.health == Health::Departed);
                                    },
                                    _ => {},
                                }
                            } else {
                                assert(merged == merged0);
                            }
                        },
                        _ => {},
                    }
                } else {
                    assert(mfin[member_key()][id2] == m0[member_key()][id2]);
                }
            }
        }
    }
}


impl RumorStore {
    /// Whether a departure rumor is stored for `member`.
    fn departure_stored(&self, member: &str) -> (r: bool)
        requires
            self.wf(),
        ensures
            r == departure_known(self@, member@),
    {
        let (oi, ofound) = self.search_outer("departure");
        if !ofound {
            return false;
        }
        proof {
            lemma_sorted_distinct(oentries(self.list@));
            lemma_alist_index(oentries(self.list@), oi as int);
        }
        let (ii, ifound) = Self::search_inner(
            &self.list[oi].1,
            member,
            Ghost(self.list@[oi as int].0@),
        );
        if !ifound {
            return false;
        }
        proof {
            lemma_sorted_distinct(ientries(self.list@[oi as int].1@));
            lemma_alist_index(ientries(self.list@[oi as int].1@), ii as int);
        }
        matches!(self.list[oi].1[ii].1, RumorKind::Departure(_))
    }

    /// Offers a rumor to the store: it is routed to its `(key, id)` slot,
    /// merged by its variant's rule where one is already stored, installed
    /// where none is, and departure dominance enforced on both sides.
    /// Returns true exactly when the store's data changed; the update
    /// counter moves on a change, the ignored counter for the rumor's kind
    /// on anything else.
    #[verifier::rlimit(100)]
    pub fn insert(&mut self, rumor: RumorKind) -> (changed: bool)
        requires
            old(self).wf(),
            rumor.wf(),
        ensures
            final(self).wf(),
            final(self)@ == store_inserted(old(self)@, rumor@),
            changed == (final(self)@ != old(self)@),
            final(self).spec_counter() == (if changed {
                if old(self).spec_counter() == usize::MAX {
                    0usize
                } else {
                    (old(self).spec_counter() + 1) as usize
                }
            } else {
                old(self).spec_counter()
            }),
            changed ==> final(self).spec_ignored() == old(self).spec_ignored(),
            !changed ==> final(self).spec_ignored().spec_get(kind_of(rumor@)) == old(
                self,
            ).spec_ignored().spec_get(kind_of(rumor@)).wrapping_add(1),
            !changed ==> forall|k2: RumorType|
                k2 != kind_of(rumor@) ==> final(self).spec_ignored().spec_get(k2) == old(
                    self,
                ).spec_ignored().spec_get(k2),
    {
        let ghost m0 = self@;
        let ghost rv = rumor@;
        let kind = rumor.kind();
        let key_s: String = rumor.key().to_owned();
        let id_s: String = rumor.id().to_owned();
        let is_membership = matches!(rumor, RumorKind::Membership(_));
        let is_departure = matches!(rumor, RumorKind::Departure(_));

        // incoming side of departure dominance
        let dep_known: bool = if is_membership {
            self.departure_stored(id_s.as_str())
        } else {
            false
        };

        // stored side of departure dominance: a departure forces any
        // membership already held for its member (doing so before the slot
        // insert is the same as after it; the two touch different keys)
        let mut forced_change = false;
        if is_departure {
            forced_change = self.force_membership_departed(id_s.as_str());
        }
        let ghost m1 = self@;
        proof {
            if !is_departure {
                assert(m1 == m0);
            }
        }

        let (oi, ofound) = self.search_outer(key_s.as_str());
        let mut changed: bool = forced_change;
        let ghost cvo: Option<RumorV>;
        let ghost mv: RumorV;
        if ofound {
            proof {
                lemma_sorted_distinct(oentries(self.list@));
                lemma_alist_index(oentries(self.list@), oi as int);
            }
            let ghost okey = self.list@[oi as int].0@;
            let ghost inner0 = alist_map(ientries(self.list@[oi as int].1@));
            let ghost lst0 = self.list@;
            let (name, mut group) = self.list.remove(oi);
            let (ii, ifound) = Self::search_inner(&group, id_s.as_str(), Ghost(name@));
            if ifound {
                proof {
                    lemma_sorted_distinct(ientries(group@));
                    lemma_alist_index(ientries(group@), ii as int);
                }
                let (iname, mut cur) = group.remove(ii);
                let ghost cv = cur@;
                proof {
                    cvo = Some(cv);
                }
                let merge_changed = cur.merge(rumor);
                let mut slot_changed = merge_changed;
                if dep_known {
                    let (cur2, ch2) = force_departed(cur);
                    cur = cur2;
                    if ch2 {
                        slot_changed = true;
                    }
                }
                proof {
                    mv = cur@;
                }
                group.insert(ii, (iname, cur));
                self.list.insert(oi, (name, group));
                if slot_changed {
                    changed = true;
                }
                proof {
                    assert(ientries(group@) =~= ientries(lst0[oi as int].1@).update(
                        ii as int,
                        (id_s@, mv),
                    ));
                    lemma_sorted_distinct(ientries(lst0[oi as int].1@));
                    lemma_alist_update(ientries(lst0[oi as int].1@), ii as int, mv);
                    assert(oentries(self.list@) =~= oentries(lst0).update(
                        oi as int,
                        (okey, inner0.insert(id_s@, mv)),
                    ));
                    lemma_alist_update(oentries(lst0), oi as int, inner0.insert(id_s@, mv));
                    assert(self@ == m1.insert(okey, inner0.insert(id_s@, mv)));
                    assert(m1[okey] == inner0 && inner0[id_s@] == cv);
                    assert(key_of(cv) == okey && id_of(cv) == id_s@ && rumor_wf(cv));
                    lemma_insert_semantics(m0, m1, rv, cvo, dep_known, mv, self@);
                    assert(slot_changed == (mv != cv));
                    assert(changed == (self@ != m0));
                    // structural well-formedness of the rebuilt lists
                    crate::rumor::lemma_merged_identity(cv, rv);
                    assert(id_of(mv) == id_s@ && key_of(mv) == okey && rumor_wf(mv));
                    assert forall|i: int| 0 <= i < self.list@.len() implies inner_wf(
                        (#[trigger] self.list@[i]).1@,
                        self.list@[i].0@,
                    ) by {
                        if i == oi as int {
                            assert(inner_wf(lst0[i].1@, lst0[i].0@));
                            assert(group@ =~= lst0[i].1@.update(ii as int, (iname, cur)));
                        } else {
                            assert(self.list@[i] == lst0[i]);
                            assert(inner_wf(lst0[i].1@, lst0[i].0@));
                        }
                    }
                    assert(sorted_keys(oentries(self.list@)));
                    if rv is Departure {
                        lemma_fixed_keys_differ();
                        assert(key_of(rv) == dep_key());
                        assert(m1.contains_key(dep_key()) == m0.contains_key(dep_key()) && (
                        m1.contains_key(dep_key()) ==> m1[dep_key()] == m0[dep_key()]));
                    }
                    assert(m0[key_of(rv)][id_of(rv)] == cv);
                    lemma_store_inserted_dominance_glue(m0, rv, cv);
                }
            } else {
                let mut cur = rumor;
                if dep_known {
                    let (cur2, _) = force_departed(cur);
                    cur = cur2;
                }
                proof {
                    cvo = None;
                    mv = cur@;
                }
                group.insert(ii, (id_s, cur));
                self.list.insert(oi, (name, group));
                changed = true;
                proof {
                    assert(ientries(group@) =~= ientries(lst0[oi as int].1@).insert(
                        ii as int,
                        (id_of(rv), mv),
                    ));
                    lemma_alist_dom(ientries(lst0[oi as int].1@), id_of(rv));
                    lemma_alist_insert(ientries(lst0[oi as int].1@), ii as int, id_of(rv), mv);
                    assert(oentries(self.list@) =~= oentries(lst0).update(
                        oi as int,
                        (okey, inner0.insert(id_of(rv), mv)),
                    ));
                    lemma_alist_update(oentries(lst0), oi as int, inner0.insert(id_of(rv), mv));
                    assert(self@ == m1.insert(okey, inner0.insert(id_of(rv), mv)));
                    assert(m1[okey] == inner0);
                    assert(!inner0.contains_key(id_of(rv)));
                    lemma_insert_semantics(m0, m1, rv, cvo, dep_known, mv, self@);
                    assert(changed == (self@ != m0));
                    // structural well-formedness
                    assert(id_of(mv) == id_of(rv) && key_of(mv) == key_of(rv) && rumor_wf(mv));
                    lemma_sorted_insert(ientries(lst0[oi as int].1@), ii as int, id_of(rv), mv);
                    assert forall|i: int| 0 <= i < self.list@.len() implies inner_wf(
                        (#[trigger] self.list@[i]).1@,
                        self.list@[i].0@,
                    ) by {
                        if i == oi as int {
                            assert(inner_wf(lst0[i].1@, lst0[i].0@));
                            assert(group@ =~= lst0[i].1@.insert(ii as int, (id_s, cur)));
                            assert(ientries(group@) =~= ientries(lst0[i].1@).insert(
                                ii as int,
                                (id_of(rv), mv),
                            ));
                        } else {
                            assert(self.list@[i] == lst0[i]);
                            assert(inner_wf(lst0[i].1@, lst0[i].0@));
                        }
                    }
                    assert(sorted_keys(oentries(self.list@)));
                    lemma_store_inserted_dominance_vacant_glue(m0, rv);
                }
            }
        } else {
            let mut cur = rumor;
            if dep_known {
                let (cur2, _) = force_departed(cur);
                cur = cur2;
            }
            proof {
                cvo = None;
                mv = cur@;
            }
            let mut group: Vec<(String, RumorKind)> = Vec::new();
            group.push((id_s, cur));
            let ghost lst0 = self.list@;
            self.list.insert(oi, (key_s, group));
            changed = true;
            proof {
                assert(ientries(group@) =~= Seq::<(Seq<char>, RumorV)>::empty().push(
                    (id_of(rv), mv),
                ));
                let e = ientries(group@);
                assert(e.drop_last() =~= Seq::<(Seq<char>, RumorV)>::empty());
                assert(alist_map(e.drop_last()) =~= Map::<Seq<char>, RumorV>::empty());
                assert(e.last() == (id_of(rv), mv));
                assert(alist_map(e) =~= Map::<Seq<char>, RumorV>::empty().insert(
                    id_of(rv),
                    mv,
                ));
                lemma_alist_dom(oentries(lst0), key_of(rv));
                assert(oentries(self.list@) =~= oentries(lst0).insert(
                    oi as int,
                    (key_of(rv), alist_map(ientries(group@))),
                ));
                lemma_alist_insert(
                    oentries(lst0),
                    oi as int,
                    key_of(rv),
                    alist_map(ientries(group@)),
                );
                assert(self@ == m1.insert(
                    key_of(rv),
                    Map::<Seq<char>, RumorV>::empty().insert(id_of(rv), mv),
                ));
                assert(!m1.contains_key(key_of(rv)));
                lemma_insert_semantics(m0, m1, rv, cvo, dep_known, mv, self@);
                assert(changed == (self@ != m0));
                // structural well-formedness
                assert(id_of(mv) == id_of(rv) && key_of(mv) == key_of(rv) && rumor_wf(mv));
                assert(inner_wf(group@, key_of(rv)));
                lemma_sorted_insert(
                    oentries(lst0),
                    oi as int,
                    key_of(rv),
                    alist_map(ientries(group@)),
                );
                assert forall|i: int| 0 <= i < self.list@.len() implies inner_wf(
                    (#[trigger] self.list@[i]).1@,
                    self.list@[i].0@,
                ) by {
                    if i == oi as int {
                        assert(self.list@[i] == (key_s, group));
                    } else if i < oi as int {
                        assert(self.list@[i] == lst0[i]);
                        assert(inner_wf(lst0[i].1@, lst0[i].0@));
                    } else {
                        assert(self.list@[i] == lst0[i - 1]);
                        assert(inner_wf(lst0[i - 1].1@, lst0[i - 1].0@));
                    }
                }
                assert(sorted_keys(oentries(self.list@)));
                lemma_store_inserted_dominance_vacant_glue(m0, rv);
            }
        }
        if changed {
            self.update_counter = self.update_counter.wrapping_add(1);
        } else {
            self.ignored.bump(kind);
        }
        changed
    }
}

/// Applies the dominance lemma for a slot known to be occupied by `cv`.
proof fn lemma_store_inserted_dominance_glue(m0: StoreV, rv: RumorV, cv: RumorV)
    requires
        dominance(m0),
        m0.contains_key(key_of(rv)) && m0[key_of(rv)].contains_key(id_of(rv)),
        m0[key_of(rv)][id_of(rv)] == cv,
        key_of(cv) == key_of(rv),
        id_of(cv) == id_of(rv),
    ensures
        dominance(store_inserted(m0, rv)),
{
    lemma_store_inserted_dominance(m0, rv);
}

/// Applies the dominance lemma for a vacant slot.
proof fn lemma_store_inserted_dominance_vacant_glue(m0: StoreV, rv: RumorV)
    requires
        dominance(m0),
        !(m0.contains_key(key_of(rv)) && m0[key_of(rv)].contains_key(id_of(rv))),
    ensures
        dominance(store_inserted(m0, rv)),
{
    lemma_store_inserted_dominance(m0, rv);
}


/// Removing an entry keeps an association list sorted.
pub proof fn lemma_sorted_remove<V>(s: Seq<(Seq<char>, V)>, i: int)
    requires
        sorted_keys(s),
        0 <= i < s.len(),
    ensures
        sorted_keys(s.remove(i)),
{
    let t = s.remove(i);
    assert forall|p: int, q: int| 0 <= p < q < t.len() implies lex_lt(
        bytes_of((#[trigger] t[p]).0),
        bytes_of((#[trigger] t[q]).0),
    ) by {
        let p2 = if p < i {
            p
        } else {
            p + 1
        };
        let q2 = if q < i {
            q
        } else {
            q + 1
        };
        assert(t[p] == s[p2] && t[q] == s[q2]);
        assert(lex_lt(bytes_of(s[p2].0), bytes_of(s[q2].0)));
    }
}

/// Rewriting every value of a duplicate-free association list with `f`
/// rewrites its map pointwise.
pub proof fn lemma_alist_map_values<V>(
    s: Seq<(Seq<char>, V)>,
    t: Seq<(Seq<char>, V)>,
    f: spec_fn(V) -> V,
)
    requires
        distinct_keys(s),
        t.len() == s.len(),
        forall|i: int|
            0 <= i < s.len() ==> (#[trigger] t[i]).0 == s[i].0 && t[i].1 == f(s[i].1),
    ensures
        alist_map(t) == Map::new(
            |k: Seq<char>| alist_map(s).contains_key(k),
            |k: Seq<char>| f(alist_map(s)[k]),
        ),
    decreases s.len(),
{
    let target = Map::new(
        |k: Seq<char>| alist_map(s).contains_key(k),
        |k: Seq<char>| f(alist_map(s)[k]),
    );
    if s.len() == 0 {
        assert(alist_map(t) =~= target);
    } else {
        assert(forall|i: int|
            0 <= i < s.drop_last().len() ==> (#[trigger] t.drop_last()[i]).0 == s.drop_last()[i].0
                && t.drop_last()[i].1 == f(s.drop_last()[i].1));
        lemma_alist_map_values(s.drop_last(), t.drop_last(), f);
        lemma_alist_dom(s.drop_last(), s.last().0);
        assert(forall|j: int|
            0 <= j < s.drop_last().len() ==> (#[trigger] s.drop_last()[j]).0 != s.last().0);
        assert(t.last().0 == s.last().0 && t.last().1 == f(s.last().1));
        lemma_sorted_distinct_keep(s);
        assert(alist_map(s) == alist_map(s.drop_last()).insert(s.last().0, s.last().1));
        lemma_alist_index(s, s.len() - 1);
        assert(alist_map(t) =~= target);
    }
}

/// Distinct keys carry over to a prefix.
pub proof fn lemma_sorted_distinct_keep<V>(s: Seq<(Seq<char>, V)>)
    requires
        distinct_keys(s),
        s.len() > 0,
    ensures
        distinct_keys(s.drop_last()),
{
    assert forall|i: int, j: int|
        0 <= i < j < s.drop_last().len() implies (#[trigger] s.drop_last()[i]).0 != (
    #[trigger] s.drop_last()[j]).0 by {
        assert(s.drop_last()[i] == s[i] && s.drop_last()[j] == s[j]);
    }
}

/// An inner map with every expiration moved to `at`.
pub open spec fn expire_inner(m: Map<Seq<char>, RumorV>, at: i64) -> Map<Seq<char>, RumorV> {
    Map::new(|id: Seq<char>| m.contains_key(id), |id: Seq<char>| with_exp(m[id], at))
}

/// An inner map with every rumor expired at `at` dropped.
pub open spec fn live_inner(m: Map<Seq<char>, RumorV>, at: i64) -> Map<Seq<char>, RumorV> {
    Map::new(
        |id: Seq<char>| m.contains_key(id) && !(at > exp_of(m[id])),
        |id: Seq<char>| m[id],
    )
}

/// The whole store with every rumor expired at `at` dropped; routing keys
/// stay, as `remove` leaves emptied groups in place.
pub open spec fn purged(m: StoreV, at: i64) -> StoreV {
    Map::new(|k: Seq<char>| m.contains_key(k), |k: Seq<char>| live_inner(m[k], at))
}

impl RumorStore {
    /// Deletes the rumor under `(key, id)` if one is stored; an emptied
    /// group stays behind under its routing key.
    pub fn remove(&mut self, key: &str, id: &str)
        requires
            old(self).wf(),
        ensures
            final(self).wf(),
            final(self)@ == (if old(self)@.contains_key(key@) && old(self)@[key@].contains_key(
                id@,
            ) {
                old(self)@.insert(key@, old(self)@[key@].remove(id@))
            } else {
                old(self)@
            }),
            final(self).spec_counter() == old(self).spec_counter(),
            final(self).spec_ignored() == old(self).spec_ignored(),
    {
        let ghost m0 = self@;
        let (oi, ofound) = self.search_outer(key);
        if !ofound {
            return ;
        }
        proof {
            lemma_sorted_distinct(oentries(self.list@));
            lemma_alist_index(oentries(self.list@), oi as int);
        }
        let ghost okey = self.list@[oi as int].0@;
        let ghost inner0 = alist_map(ientries(self.list@[oi as int].1@));
        let ghost lst0 = self.list@;
        let (name, mut group) = self.list.remove(oi);
        let (ii, ifound) = Self::search_inner(&group, id, Ghost(name@));
        if !ifound {
            self.list.insert(oi, (name, group));
            proof {
                assert(self.list@ =~= lst0);
                assert(oentries(self.list@) =~= oentries(lst0));
            }
            return ;
        }
        proof {
            lemma_sorted_distinct(ientries(group@));
            lemma_alist_index(ientries(group@), ii as int);
        }
        let _ = group.remove(ii);
        self.list.insert(oi, (name, group));
        proof {
            assert(ientries(group@) =~= ientries(lst0[oi as int].1@).remove(ii as int));
            lemma_sorted_distinct(ientries(lst0[oi as int].1@));
            lemma_alist_remove(ientries(lst0[oi as int].1@), ii as int);
            assert(oentries(self.list@) =~= oentries(lst0).update(
                oi as int,
                (okey, inner0.remove(id@)),
            ));
            lemma_alist_update(oentries(lst0), oi as int, inner0.remove(id@));
            assert(self@ == m0.insert(okey, inner0.remove(id@)));
            // structural well-formedness of the shrunk group
            lemma_sorted_remove(ientries(lst0[oi as int].1@), ii as int);
            assert forall|i: int| 0 <= i < self.list@.len() implies inner_wf(
                (#[trigger] self.list@[i]).1@,
                self.list@[i].0@,
            ) by {
                if i == oi as int {
                    assert(inner_wf(lst0[i].1@, lst0[i].0@));
                    assert(group@ =~= lst0[i].1@.remove(ii as int));
                    assert(forall|j: int|
                        0 <= j < group@.len() ==> (#[trigger] group@[j]) == (if j < ii as int {
                            lst0[i].1@[j]
                        } else {
                            lst0[i].1@[j + 1]
                        }));
                } else {
                    assert(self.list@[i] == lst0[i]);
                    assert(inner_wf(lst0[i].1@, lst0[i].0@));
                }
            }
            assert(sorted_keys(oentries(self.list@)));
            // dominance: deleting a rumor weakens what is known or removes
            // what is constrained
            lemma_fixed_keys_differ();
            assert forall|id2: Seq<char>|
                (departure_known(self@, id2) && self@.contains_key(member_key())
                    && self@[member_key()].contains_key(id2)) implies match #[trigger] self@[
                member_key()][id2] {
                RumorV::Membership(mm) => mm.health == Health::Departed,
                _ => true,
            } by {
                assert(self@[member_key()][id2] == m0[member_key()][id2]);
                assert(departure_known(m0, id2));
            }
        }
    }

    /// Moves every rumor under `key` to expire at `at`; used to force a
    /// re-election when quorum is lost.
    pub fn expire_all_for_key(&mut self, key: &str, at_nanos: i64)
        requires
            old(self).wf(),
        ensures
            final(self).wf(),
            final(self)@ == (if old(self)@.contains_key(key@) {
                old(self)@.insert(key@, expire_inner(old(self)@[key@], at_nanos))
            } else {
                old(self)@
            }),
            final(self).spec_counter() == old(self).spec_counter(),
            final(self).spec_ignored() == old(self).spec_ignored(),
    {
        let ghost m0 = self@;
        let (oi, ofound) = self.search_outer(key);
        if !ofound {
            return ;
        }
        proof {
            lemma_sorted_distinct(oentries(self.list@));
            lemma_alist_index(oentries(self.list@), oi as int);
        }
        let ghost okey = self.list@[oi as int].0@;
        let ghost inner0 = alist_map(ientries(self.list@[oi as int].1@));
        let ghost lst0 = self.list@;
        let (name, mut group) = self.list.remove(oi);
        let ghost g0 = group@;
        let mut j: usize = 0;
        while j < group.len()
            invariant
                group@.len() == g0.len(),
                0 <= j <= g0.len(),
                forall|i: int|
                    0 <= i < j ==> (#[trigger] group@[i]).0 == g0[i].0 && group@[i].1@ == with_exp(
                        g0[i].1@,
                        at_nanos,
                    ),
                forall|i: int| j <= i < g0.len() ==> (#[trigger] group@[i]) == g0[i],
            decreases g0.len() - j,
        {
            let (iname, mut cur) = group.remove(j);
            cur.expire(at_nanos);
            group.insert(j, (iname, cur));
            j = j + 1;
        }
        self.list.insert(oi, (name, group));
        proof {
            let e0 = ientries(g0);
            let e1 = ientries(group@);
            lemma_sorted_distinct(e0);
            assert(forall|i: int|
                0 <= i < e0.len() ==> (#[trigger] e1[i]).0 == e0[i].0 && e1[i].1 == with_exp(
                    e0[i].1,
                    at_nanos,
                ));
            lemma_alist_map_values(e0, e1, |v: RumorV| with_exp(v, at_nanos));
            assert(alist_map(e1) =~= expire_inner(inner0, at_nanos));
            assert(oentries(self.list@) =~= oentries(lst0).update(
                oi as int,
                (okey, alist_map(e1)),
            ));
            lemma_alist_update(oentries(lst0), oi as int, alist_map(e1));
            assert(self@ == m0.insert(okey, expire_inner(inner0, at_nanos)));
            // structural well-formedness: identities and canonical form are
            // untouched by an expiration change
            assert forall|i: int| 0 <= i < self.list@.len() implies inner_wf(
                (#[trigger] self.list@[i]).1@,
                self.list@[i].0@,
            ) by {
                if i == oi as int {
                    assert(inner_wf(lst0[i].1@, lst0[i].0@));
                    assert forall|q: int| 0 <= q < group@.len() implies id_of(
                        (#[trigger] group@[q]).1@,
                    ) == group@[q].0@ && key_of(group@[q].1@) == okey && rumor_wf(group@[q].1@) by {
                        crate::rumor::lemma_with_exp_identity(g0[q].1@, at_nanos);
                        assert(id_of(g0[q].1@) == g0[q].0@ && key_of(g0[q].1@) == okey
                            && rumor_wf(g0[q].1@));
                    }
                    assert(sorted_keys(ientries(group@))) by {
                        assert forall|pp: int, qq: int| 0 <= pp < qq < group@.len() implies lex_lt(
                            bytes_of((#[trigger] ientries(group@)[pp]).0),
                            bytes_of((#[trigger] ientries(group@)[qq]).0),
                        ) by {
                            assert(ientries(group@)[pp].0 == ientries(g0)[pp].0);
                            assert(ientries(group@)[qq].0 == ientries(g0)[qq].0);
                            assert(lex_lt(
                                bytes_of(ientries(g0)[pp].0),
                                bytes_of(ientries(g0)[qq].0),
                            ));
                        }
                    }
                } else {
                    assert(self.list@[i] == lst0[i]);
                    assert(inner_wf(lst0[i].1@, lst0[i].0@));
                }
            }
            assert(sorted_keys(oentries(self.list@)));
            // dominance: kinds and health are untouched
            lemma_fixed_keys_differ();
            assert forall|id2: Seq<char>|
                (departure_known(self@, id2) && self@.contains_key(member_key())
                    && self@[member_key()].contains_key(id2)) implies match #[trigger] self@[
                member_key()][id2] {
                RumorV::Membership(mm) => mm.health == Health::Departed,
                _ => true,
            } by {
                assert(departure_known(m0, id2)) by {
                    if self@.contains_key(dep_key()) && self@[dep_key()].contains_key(id2) {
                        if okey == dep_key() {
                            crate::rumor::lemma_with_exp_identity(inner0[id2], at_nanos);
                        }
                    }
                }
                if okey == member_key() && m0[member_key()].contains_key(id2) {
                    crate::rumor::lemma_with_exp_identity(m0[member_key()][id2], at_nanos);
                    crate::rumor::lemma_with_exp_health(m0[member_key()][id2], at_nanos);
                } else {
                    assert(self@[member_key()][id2] == m0[member_key()][id2]);
                }
            }
        }
    }
}


/// The entries that survive a purge at `at`, in their stored order.
pub open spec fn filter_live_entries(s: Seq<(Seq<char>, RumorV)>, at: i64) -> Seq<
    (Seq<char>, RumorV),
>
    decreases s.len(),
{
    if s.len() == 0 {
        Seq::<(Seq<char>, RumorV)>::empty()
    } else {
        let rest = filter_live_entries(s.drop_last(), at);
        if at > exp_of(s.last().1) {
            rest
        } else {
            rest.push(s.last())
        }
    }
}

/// Filtering an association list filters its map, and keeps only entries
/// that were already there.
proof fn lemma_filter_live_props(s: Seq<(Seq<char>, RumorV)>, at: i64)
    requires
        distinct_keys(s),
    ensures
        alist_map(filter_live_entries(s, at)) == live_inner(alist_map(s), at),
        forall|e: (Seq<char>, RumorV)|
            filter_live_entries(s, at).contains(e) ==> s.contains(e),
    decreases s.len(),
{
    let t = filter_live_entries(s, at);
    if s.len() == 0 {
        assert(alist_map(t) =~= live_inner(alist_map(s), at));
    } else {
        lemma_sorted_distinct_keep(s);
        lemma_filter_live_props(s.drop_last(), at);
        lemma_alist_dom(s.drop_last(), s.last().0);
        assert(forall|j: int|
            0 <= j < s.drop_last().len() ==> (#[trigger] s.drop_last()[j]).0 != s.last().0);
        lemma_alist_index(s, s.len() - 1);
        if at > exp_of(s.last().1) {
            assert(t == filter_live_entries(s.drop_last(), at));
            lemma_alist_dom(t, s.last().0);
            assert(!alist_map(t).contains_key(s.last().0)) by {
                if alist_map(t).contains_key(s.last().0) {
                    let i = choose|i: int|
                        0 <= i < t.len() && (#[trigger] t[i]).0 == s.last().0;
                    assert(t.contains(t[i]));
                    assert(s.drop_last().contains(t[i]));
                    let w = choose|w: int|
                        0 <= w < s.drop_last().len() && s.drop_last()[w] == t[i];
                    assert(s.drop_last()[w].0 == s.last().0);
                }
            }
            assert(alist_map(t) =~= live_inner(alist_map(s), at));
        } else {
            let rest = filter_live_entries(s.drop_last(), at);
            assert(t == rest.push(s.last()));
            assert(t.drop_last() =~= rest);
            assert(t.last() == s.last());
            assert(alist_map(t) == alist_map(rest).insert(s.last().0, s.last().1));
            assert(alist_map(t) =~= live_inner(alist_map(s), at));
        }
        assert forall|e: (Seq<char>, RumorV)| t.contains(e) implies s.contains(e) by {
            if at > exp_of(s.last().1) {
                assert(filter_live_entries(s.drop_last(), at).contains(e));
                assert(s.drop_last().contains(e));
                let i = choose|i: int|
                    0 <= i < s.drop_last().len() && s.drop_last()[i] == e;
                assert(s[i] == e);
            } else {
                if e == s.last() {
                    assert(s[s.len() - 1] == e);
                } else {
                    let rest = filter_live_entries(s.drop_last(), at);
                    assert(t.drop_last() =~= rest);
                    assert(rest.contains(e)) by {
                        let i = choose|i: int| 0 <= i < t.len() && t[i] == e;
                        assert(i < t.len() - 1);
                        assert(rest[i] == e);
                    }
                    assert(s.drop_last().contains(e));
                    let i = choose|i: int|
                        0 <= i < s.drop_last().len() && s.drop_last()[i] == e;
                    assert(s[i] == e);
                }
            }
        }
    }
}

/// Filtering keeps an association list sorted.
proof fn lemma_filter_live_sorted(s: Seq<(Seq<char>, RumorV)>, at: i64)
    requires
        sorted_keys(s),
    ensures
        sorted_keys(filter_live_entries(s, at)),
    decreases s.len(),
{
    let t = filter_live_entries(s, at);
    if s.len() > 0 {
        assert(sorted_keys(s.drop_last())) by {
            assert(forall|i: int, j: int|
                0 <= i < j < s.drop_last().len() ==> lex_lt(
                    bytes_of((#[trigger] s.drop_last()[i]).0),
                    bytes_of((#[trigger] s.drop_last()[j]).0),
                ));
        }
        lemma_filter_live_sorted(s.drop_last(), at);
        lemma_sorted_distinct(s);
        lemma_sorted_distinct_keep(s);
        lemma_filter_live_props(s.drop_last(), at);
        if !(at > exp_of(s.last().1)) {
            let rest = filter_live_entries(s.drop_last(), at);
            assert forall|p: int, q: int| 0 <= p < q < t.len() implies lex_lt(
                bytes_of((#[trigger] t[p]).0),
                bytes_of((#[trigger] t[q]).0),
            ) by {
                if q == t.len() - 1 {
                    assert(t[q] == s.last());
                    assert(rest.contains(rest[p]));
                    assert(s.drop_last().contains(t[p]));
                    let i = choose|i: int|
                        0 <= i < s.drop_last().len() && s.drop_last()[i] == t[p];
                    assert(s[i] == t[p]);
                    assert(lex_lt(bytes_of(s[i].0), bytes_of(s[s.len() - 1].0)));
                } else {
                    assert(t[p] == rest[p] && t[q] == rest[q]);
                }
            }
        }
    }
}

impl RumorStore {
    /// Drops every rumor whose expiration has passed at `at`; emptied
    /// groups stay behind under their routing keys.
    pub fn purge_expired(&mut self, at_nanos: i64)
        requires
            old(self).wf(),
        ensures
            final(self).wf(),
            final(self)@ == purged(old(self)@, at_nanos),
            final(self).spec_counter() == old(self).spec_counter(),
            final(self).spec_ignored() == old(self).spec_ignored(),
    {
        let ghost m0 = self@;
        let ghost lst0 = self.list@;
        let mut k: usize = 0;
        while k < self.list.len()
            invariant
                self.list@.len() == lst0.len(),
                0 <= k <= lst0.len(),
                forall|i: int|
                    0 <= i < k ==> (#[trigger] self.list@[i]).0 == lst0[i].0 && ientries(
                        self.list@[i].1@,
                    ) == filter_live_entries(ientries(lst0[i].1@), at_nanos),
                forall|i: int| k <= i < lst0.len() ==> (#[trigger] self.list@[i]) == lst0[i],
                forall|i: int|
                    0 <= i < lst0.len() ==> inner_wf((#[trigger] lst0[i]).1@, lst0[i].0@),
                self.spec_counter() == old(self).spec_counter(),
                self.spec_ignored() == old(self).spec_ignored(),
                lst0 == old(self).list@,
                m0 == old(self)@,
            decreases lst0.len() - k,
        {
            let (name, group) = self.list.remove(k);
            let mut kept: Vec<(String, RumorKind)> = Vec::new();
            let mut j: usize = 0;
            while j < group.len()
                invariant
                    0 <= j <= group@.len(),
                    ientries(kept@) == filter_live_entries(
                        ientries(group@.subrange(0, j as int)),
                        at_nanos,
                    ),
                decreases group@.len() - j,
            {
                let ghost pre = ientries(kept@);
                let e_exp = group[j].1.expiration();
                let keep = !e_exp.expired(at_nanos);
                if keep {
                    let nm = group[j].0.clone();
                    let rc = group[j].1.duplicate();
                    kept.push((nm, rc));
                }
                proof {
                    let sub1 = ientries(group@.subrange(0, j + 1));
                    assert(sub1.drop_last() =~= ientries(group@.subrange(0, j as int)));
                    assert(sub1.last() == (group@[j as int].0@, group@[j as int].1@));
                    if keep {
                        assert(ientries(kept@) =~= pre.push(
                            (group@[j as int].0@, group@[j as int].1@),
                        ));
                    }
                }
                j = j + 1;
            }
            proof {
                assert(group@.subrange(0, group@.len() as int) =~= group@);
            }
            self.list.insert(k, (name, kept));
            k = k + 1;
        }
        proof {
            let lst1 = self.list@;
            assert forall|i: int| 0 <= i < lst1.len() implies inner_wf(
                (#[trigger] lst1[i]).1@,
                lst1[i].0@,
            ) && alist_map(ientries(lst1[i].1@)) == live_inner(
                alist_map(ientries(lst0[i].1@)),
                at_nanos,
            ) by {
                assert(inner_wf(lst0[i].1@, lst0[i].0@));
                lemma_sorted_distinct(ientries(lst0[i].1@));
                lemma_filter_live_props(ientries(lst0[i].1@), at_nanos);
                lemma_filter_live_sorted(ientries(lst0[i].1@), at_nanos);
                assert forall|q: int| 0 <= q < lst1[i].1@.len() implies id_of(
                    (#[trigger] lst1[i].1@[q]).1@,
                ) == lst1[i].1@[q].0@ && key_of(lst1[i].1@[q].1@) == lst1[i].0@ && rumor_wf(
                    lst1[i].1@[q].1@,
                ) by {
                    let e = ientries(lst1[i].1@)[q];
                    assert(ientries(lst1[i].1@).contains(e));
                    assert(ientries(lst0[i].1@).contains(e));
                    let w = choose|w: int|
                        0 <= w < ientries(lst0[i].1@).len() && ientries(lst0[i].1@)[w] == e;
                    assert(id_of(lst0[i].1@[w].1@) == lst0[i].1@[w].0@);
                }
            }
            assert(oentries(lst1) =~= Seq::new(
                oentries(lst0).len(),
                |i: int|
                    (
                        oentries(lst0)[i].0,
                        live_inner(oentries(lst0)[i].1, at_nanos),
                    ),
            ));
            lemma_sorted_distinct(oentries(lst0));
            lemma_alist_map_values(
                oentries(lst0),
                oentries(lst1),
                |im: Map<Seq<char>, RumorV>| live_inner(im, at_nanos),
            );
            assert(self@ =~= purged(m0, at_nanos));
            assert(sorted_keys(oentries(lst1))) by {
                assert forall|p: int, q: int| 0 <= p < q < oentries(lst1).len() implies lex_lt(
                    bytes_of((#[trigger] oentries(lst1)[p]).0),
                    bytes_of((#[trigger] oentries(lst1)[q]).0),
                ) by {
                    assert(oentries(lst1)[p].0 == oentries(lst0)[p].0);
                    assert(oentries(lst1)[q].0 == oentries(lst0)[q].0);
                    assert(lex_lt(
                        bytes_of(oentries(lst0)[p].0),
                        bytes_of(oentries(lst0)[q].0),
                    ));
                }
            }
            // dominance: every kept value was stored before
            lemma_fixed_keys_differ();
            assert forall|id2: Seq<char>|
                (departure_known(self@, id2) && self@.contains_key(member_key())
                    && self@[member_key()].contains_key(id2)) implies match #[trigger] self@[
                member_key()][id2] {
                RumorV::Membership(mm) => mm.health == Health::Departed,
                _ => true,
            } by {
                assert(self@[dep_key()][id2] == m0[dep_key()][id2]);
                assert(self@[member_key()][id2] == m0[member_key()][id2]);
                assert(departure_known(m0, id2));
            }
        }
    }

    /// True when rumors exist for the service group but none of them is
    /// the given member's.
    pub fn contains_group_without_member(&self, service_group: &str, member_id: &str) -> (r:
        bool)
        requires
            self.wf(),
        ensures
            r == (self@.contains_key(service_group@) && !self@[service_group@].contains_key(
                member_id@,
            )),
    {
        let (oi, ofound) = self.search_outer(service_group);
        if !ofound {
            return false;
        }
        proof {
            lemma_sorted_distinct(oentries(self.list@));
            lemma_alist_index(oentries(self.list@), oi as int);
        }
        let (ii, ifound) = Self::search_inner(
            &self.list[oi].1,
            member_id,
            Ghost(self.list@[oi as int].0@),
        );
        proof {
            if ifound {
                lemma_sorted_distinct(ientries(self.list@[oi as int].1@));
                lemma_alist_index(ientries(self.list@[oi as int].1@), ii as int);
            }
        }
        !ifound
    }
}


impl RumorStore {
    /// Wire-encodes the rumor stored under `(key, id)`, enveloped under
    /// its own inner id as sender; a missing rumor is an error.
    pub fn encode(&self, key: &str, id: &str) -> (r: Result<Vec<u8>, RumorError>)
        requires
            self.wf(),
        ensures
            (self@.contains_key(key@) && self@[key@].contains_key(id@)) ==> (r matches Ok(b)
                && b@ == crate::codec::envelope_enc(self@[key@][id@], id@)),
            !(self@.contains_key(key@) && self@[key@].contains_key(id@)) ==> (r matches Err(e)
                && (e matches RumorError::NonExistentRumor { id: i2, key: k2 } && i2@ == id@
                && k2@ == key@)),
    {
        let (oi, ofound) = self.search_outer(key);
        if !ofound {
            return Err(
                RumorError::NonExistentRumor { id: id.to_owned(), key: key.to_owned() },
            );
        }
        proof {
            lemma_sorted_distinct(oentries(self.list@));
            lemma_alist_index(oentries(self.list@), oi as int);
        }
        let (ii, ifound) = Self::search_inner(
            &self.list[oi].1,
            id,
            Ghost(self.list@[oi as int].0@),
        );
        if !ifound {
            return Err(
                RumorError::NonExistentRumor { id: id.to_owned(), key: key.to_owned() },
            );
        }
        proof {
            lemma_sorted_distinct(ientries(self.list@[oi as int].1@));
            lemma_alist_index(ientries(self.list@[oi as int].1@), ii as int);
        }
        let rumor = &self.list[oi].1[ii].1;
        proof {
            assert(id_of(rumor@) == id@);
        }
        Ok(crate::codec::encode_envelope(id, rumor))
    }
}


/// The wrapping successor the update counter takes on a change.
pub open spec fn wrap_succ(c: usize) -> usize {
    if c == usize::MAX {
        0usize
    } else {
        (c + 1) as usize
    }
}

/// The update counter after a run of inserts whose change outcomes were
/// `changed`, exactly as `insert` moves it.
pub open spec fn counter_after(c: usize, changed: Seq<bool>) -> usize
    decreases changed.len(),
{
    if changed.len() == 0 {
        c
    } else {
        counter_after(
            if changed[0] {
                wrap_succ(c)
            } else {
                c
            },
            changed.skip(1),
        )
    }
}

/// How many of a run of inserts changed the store.
pub open spec fn count_true(s: Seq<bool>) -> nat
    decreases s.len(),
{
    if s.len() == 0 {
        0nat
    } else {
        (if s[0] {
            1nat
        } else {
            0nat
        }) + count_true(s.skip(1))
    }
}

/// The wrapping successor applied `n` times.
pub open spec fn wrap_succ_n(c: usize, n: nat) -> usize
    decreases n,
{
    if n == 0 {
        c
    } else {
        wrap_succ_n(wrap_succ(c), (n - 1) as nat)
    }
}

/// Counter-change equivalence: after a run of inserts, the update counter
/// has advanced exactly once for every insert that changed the store —
/// the unchanged ones leave it alone. The per-call behaviour is `insert`'s
/// contract; this law folds it over a whole run.
pub proof fn lemma_counter_change_equivalence(c: usize, changed: Seq<bool>)
    ensures
        counter_after(c, changed) == wrap_succ_n(c, count_true(changed)),
    decreases changed.len(),
{
    if changed.len() > 0 {
        if changed[0] {
            lemma_counter_change_equivalence(wrap_succ(c), changed.skip(1));
            lemma_wrap_succ_n_shift(c, count_true(changed.skip(1)));
        } else {
            lemma_counter_change_equivalence(c, changed.skip(1));
        }
    }
}

/// Applying the successor before or after a run is the same.
proof fn lemma_wrap_succ_n_shift(c: usize, n: nat)
    ensures
        wrap_succ_n(wrap_succ(c), n) == wrap_succ(wrap_succ_n(c, n)),
    decreases n,
{
    if n > 0 {
        lemma_wrap_succ_n_shift(wrap_succ(c), (n - 1) as nat);
    }
}

/// Departure dominance carries over any later insert: once a departure is
/// known for a member, it stays known, and whatever membership rumor is
/// stored for that member afterwards reads Departed.
pub proof fn lemma_departure_dominance_persists(m: StoreV, rv: RumorV, member: Seq<char>)
    requires
        dominance(m),
        departure_known(m, member),
        (m.contains_key(key_of(rv)) && m[key_of(rv)].contains_key(id_of(rv))) ==> (key_of(
            m[key_of(rv)][id_of(rv)],
        ) == key_of(rv) && id_of(m[key_of(rv)][id_of(rv)]) == id_of(rv)),
    ensures
        departure_known(store_inserted(m, rv), member),
        dominance(store_inserted(m, rv)),
        ({
            let m2 = store_inserted(m, rv);
            (m2.contains_key(member_key()) && m2[member_key()].contains_key(member)) ==> (
            match m2[member_key()][member] {
                RumorV::Membership(mm) => mm.health == Health::Departed,
                _ => true,
            })
        }),
{
    lemma_store_inserted_dominance(m, rv);
    lemma_fixed_keys_differ();
    let m2 = store_inserted(m, rv);
    let k = key_of(rv);
    let id = id_of(rv);
    let inner = if m.contains_key(k) {
        m[k]
    } else {
        Map::<Seq<char>, RumorV>::empty()
    };
    let merged0 = if inner.contains_key(id) {
        rumor_merged(inner[id], rv)
    } else {
        rv
    };
    if inner.contains_key(id) {
        crate::rumor::lemma_merged_identity(inner[id], rv);
    }
    let merged = force_incoming(m, merged0);
    let base = m.insert(k, inner.insert(id, merged));
    // the departure slot for `member` survives: merging cannot replace a
    // stored departure, and forcing only touches membership slots
    assert(departure_known(m2, member)) by {
        if rv is Departure {
            assert(m2.contains_key(dep_key()) == base.contains_key(dep_key()) && (
            m2.contains_key(dep_key()) ==> m2[dep_key()] == base[dep_key()]));
        }
        if k == dep_key() && id == member {
            assert(m[dep_key()][member] is Departure);
            assert(inner[id] == m[dep_key()][member]);
            assert(kind_of(merged0) == kind_of(inner[id]) || merged0 == rv);
            if merged0 is Departure {
                assert(merged == merged0);
            } else {
                assert(kind_of(merged0) != RumorType::Departure);
                assert(kind_of(inner[id]) == RumorType::Departure);
                assert(merged0 == rv);
                assert(false);
            }
        } else {
            assert(base[dep_key()][member] == m[dep_key()][member]);
        }
    }
}


/// Two sorted association lists that spell one map are one list.
pub proof fn lemma_alist_unique_rep<V>(s1: Seq<(Seq<char>, V)>, s2: Seq<(Seq<char>, V)>)
    requires
        sorted_keys(s1),
        sorted_keys(s2),
        alist_map(s1) == alist_map(s2),
    ensures
        s1 == s2,
    decreases s1.len(),
{
    lemma_sorted_distinct(s1);
    lemma_sorted_distinct(s2);
    if s1.len() == 0 {
        if s2.len() > 0 {
            lemma_alist_index(s2, s2.len() - 1);
            lemma_alist_dom(s1, s2.last().0);
        }
        assert(s1 =~= s2);
    } else if s2.len() == 0 {
        lemma_alist_index(s1, s1.len() - 1);
        lemma_alist_dom(s2, s1.last().0);
    } else {
        let k1 = s1.last().0;
        let k2 = s2.last().0;
        lemma_alist_index(s1, s1.len() - 1);
        lemma_alist_index(s2, s2.len() - 1);
        // each list's last key is the byte-greatest of the shared domain,
        // so the two agree
        assert(k1 == k2) by {
            lemma_alist_dom(s2, k1);
            let i = choose|i: int| 0 <= i < s2.len() && (#[trigger] s2[i]).0 == k1;
            lemma_alist_dom(s1, k2);
            let j = choose|j: int| 0 <= j < s1.len() && (#[trigger] s1[j]).0 == k2;
            if i < s2.len() - 1 {
                assert(lex_lt(bytes_of(k1), bytes_of(k2)));
                if j < s1.len() - 1 {
                    assert(lex_lt(bytes_of(k2), bytes_of(k1)));
                    lemma_lex_trans(bytes_of(k1), bytes_of(k2), bytes_of(k1));
                    lemma_lex_irrefl(bytes_of(k1));
                } else {
                    assert(k2 == k1);
                    lemma_lex_irrefl(bytes_of(k1));
                }
            }
        }
        assert(s1.last().1 == s2.last().1) by {
            assert(alist_map(s1)[k1] == s1.last().1);
            assert(alist_map(s2)[k1] == s2.last().1);
        }
        lemma_alist_remove(s1, s1.len() - 1);
        lemma_alist_remove(s2, s2.len() - 1);
        assert(s1.remove(s1.len() - 1) =~= s1.drop_last());
        assert(s2.remove(s2.len() - 1) =~= s2.drop_last());
        assert(sorted_keys(s1.drop_last())) by {
            assert(forall|p: int, q: int|
                0 <= p < q < s1.drop_last().len() ==> lex_lt(
                    bytes_of((#[trigger] s1.drop_last()[p]).0),
                    bytes_of((#[trigger] s1.drop_last()[q]).0),
                ));
        }
        assert(sorted_keys(s2.drop_last())) by {
            assert(forall|p: int, q: int|
                0 <= p < q < s2.drop_last().len() ==> lex_lt(
                    bytes_of((#[trigger] s2.drop_last()[p]).0),
                    bytes_of((#[trigger] s2.drop_last()[q]).0),
                ));
        }
        lemma_alist_unique_rep(s1.drop_last(), s2.drop_last());
        assert(s1.drop_last().len() == s2.drop_last().len());
        assert(s1.len() == s2.len());
        assert forall|i: int| 0 <= i < s1.len() implies s1[i] == s2[i] by {
            if i < s1.len() - 1 {
                assert(s1.drop_last()[i] == s1[i]);
                assert(s2.drop_last()[i] == s2[i]);
                assert(s1.drop_last()[i] == s2.drop_last()[i]);
            }
        }
        assert(s1 =~= s2);
    }
}


/// A 64-bit count in eight little-endian bytes.
pub open spec fn u64_le(n: u64) -> Seq<u8> {
    seq![
        (n % 256) as u8,
        ((n / 256) % 256) as u8,
        ((n / 65536) % 256) as u8,
        ((n / 16777216) % 256) as u8,
        ((n / 4294967296) % 256) as u8,
        ((n / 1099511627776) % 256) as u8,
        ((n / 281474976710656) % 256) as u8,
        ((n / 72057594037927936) % 256) as u8,
    ]
}

/// Appends a 64-bit count, little-endian.
fn write_u64_le(out: &mut Vec<u8>, n: u64)
    ensures
        final(out)@ == old(out)@ + u64_le(n),
{
    out.push((n % 256) as u8);
    out.push(((n / 256) % 256) as u8);
    out.push(((n / 65536) % 256) as u8);
    out.push(((n / 16777216) % 256) as u8);
    out.push(((n / 4294967296) % 256) as u8);
    out.push(((n / 1099511627776) % 256) as u8);
    out.push(((n / 281474976710656) % 256) as u8);
    out.push(((n / 72057594037927936) % 256) as u8);
    proof {
        assert(final(out)@ =~= old(out)@ + u64_le(n));
    }
}

/// One snapshot frame: the envelope's length, then the envelope, the
/// rumor enveloped under its own inner id.
pub open spec fn frame_enc(v: RumorV) -> Seq<u8> {
    u64_le(crate::codec::envelope_enc(v, id_of(v)).len() as u64) + crate::codec::envelope_enc(
        v,
        id_of(v),
    )
}

/// One snapshot section: the frames of every stored rumor of one kind, in
/// storage order.
pub open spec fn section_enc(flat: Seq<RumorV>, k: RumorType) -> Seq<u8>
    decreases flat.len(),
{
    if flat.len() == 0 {
        Seq::<u8>::empty()
    } else {
        section_enc(flat.drop_last(), k) + (if kind_of(flat.last()) == k {
            frame_enc(flat.last())
        } else {
            Seq::<u8>::empty()
        })
    }
}

/// Sections split over concatenation.
proof fn lemma_section_enc_concat(a: Seq<RumorV>, b: Seq<RumorV>, k: RumorType)
    ensures
        section_enc(a + b, k) == section_enc(a, k) + section_enc(b, k),
    decreases b.len(),
{
    if b.len() == 0 {
        assert(a + b =~= a);
        assert(section_enc(a, k) + Seq::<u8>::empty() =~= section_enc(a, k));
    } else {
        lemma_section_enc_concat(a, b.drop_last(), k);
        assert((a + b).drop_last() =~= a + b.drop_last());
        assert((a + b).last() == b.last());
        assert(section_enc(a, k) + (section_enc(b.drop_last(), k) + (if kind_of(b.last()) == k {
            frame_enc(b.last())
        } else {
            Seq::<u8>::empty()
        })) =~= (section_enc(a, k) + section_enc(b.drop_last(), k)) + (if kind_of(b.last())
            == k {
            frame_enc(b.last())
        } else {
            Seq::<u8>::empty()
        }));
    }
}

/// The rumors of one group, in storage order.
pub open spec fn group_rumors(v: Seq<(String, RumorKind)>) -> Seq<RumorV> {
    Seq::new(v.len(), |i: int| v[i].1@)
}

/// Every stored rumor, groups in storage order.
pub open spec fn flat_entries(l: Seq<(String, Vec<(String, RumorKind)>)>) -> Seq<RumorV>
    decreases l.len(),
{
    if l.len() == 0 {
        Seq::<RumorV>::empty()
    } else {
        flat_entries(l.drop_last()) + group_rumors(l.last().1@)
    }
}

/// The snapshot of a rumor list: a header with the format version and the
/// seven section lengths, then the sections, one per kind, in the fixed
/// order membership, service, service-config, service-file, election,
/// election-update, departure.
pub open spec fn snapshot_enc(flat: Seq<RumorV>) -> Seq<u8> {
    let s1 = section_enc(flat, RumorType::Member);
    let s2 = section_enc(flat, RumorType::Service);
    let s3 = section_enc(flat, RumorType::ServiceConfig);
    let s4 = section_enc(flat, RumorType::ServiceFile);
    let s5 = section_enc(flat, RumorType::Election);
    let s6 = section_enc(flat, RumorType::ElectionUpdate);
    let s7 = section_enc(flat, RumorType::Departure);
    u64_le(2) + u64_le(s1.len() as u64) + u64_le(s2.len() as u64) + u64_le(s3.len() as u64)
        + u64_le(s4.len() as u64) + u64_le(s5.len() as u64) + u64_le(s6.len() as u64) + u64_le(
        s7.len() as u64,
    ) + s1 + s2 + s3 + s4 + s5 + s6 + s7
}

impl RumorStore {
    /// The bytes `snapshot_bytes` produces, as a value of the store.
    pub closed spec fn snapshot_spec(&self) -> Seq<u8> {
        snapshot_enc(flat_entries(self.list@))
    }

    /// One snapshot section.
    fn section_bytes(&self, k: RumorType) -> (r: Vec<u8>)
        requires
            self.wf(),
        ensures
            r@ == section_enc(flat_entries(self.list@), k),
    {
        let mut out: Vec<u8> = Vec::new();
        let ghost l = self.list@;
        let mut oi: usize = 0;
        proof {
            assert(l.subrange(0, 0) =~= Seq::<(String, Vec<(String, RumorKind)>)>::empty());
            assert(out@ =~= section_enc(flat_entries(l.subrange(0, 0)), k));
        }
        while oi < self.list.len()
            invariant
                self.wf(),
                l == self.list@,
                0 <= oi <= l.len(),
                out@ == section_enc(flat_entries(l.subrange(0, oi as int)), k),
            decreases l.len() - oi,
        {
            let group = &self.list[oi].1;
            let ghost g = group@;
            let ghost base = out@;
            let mut j: usize = 0;
            proof {
                assert(g.subrange(0, 0) =~= Seq::<(String, RumorKind)>::empty());
                assert(group_rumors(g.subrange(0, 0)) =~= Seq::<RumorV>::empty());
                assert(section_enc(Seq::<RumorV>::empty(), k) =~= Seq::<u8>::empty());
                assert(out@ =~= base + section_enc(group_rumors(g.subrange(0, 0)), k));
            }
            while j < group.len()
                invariant
                    0 <= j <= g.len(),
                    g == group@,
                    out@ == base + section_enc(group_rumors(g.subrange(0, j as int)), k),
                decreases g.len() - j,
            {
                let rumor = &group[j].1;
                let matches_kind = rumor_type_eq(rumor.kind(), k);
                proof {
                    let sub1 = group_rumors(g.subrange(0, j + 1));
                    assert(sub1.drop_last() =~= group_rumors(g.subrange(0, j as int)));
                    assert(sub1.last() == g[j as int].1@);
                }
                if matches_kind {
                    let env = crate::codec::encode_envelope(rumor.id(), rumor);
                    write_u64_le(&mut out, env.len() as u64);
                    let mut p: usize = 0;
                    let ghost mid = out@;
                    while p < env.len()
                        invariant
                            0 <= p <= env@.len(),
                            out@ == mid + env@.subrange(0, p as int),
                        decreases env@.len() - p,
                    {
                        out.push(env[p]);
                        proof {
                            assert(mid + env@.subrange(0, p + 1) =~= (mid + env@.subrange(
                                0,
                                p as int,
                            )).push(env@[p as int]));
                        }
                        p = p + 1;
                    }
                    proof {
                        assert(env@.subrange(0, env@.len() as int) =~= env@);
                        assert(out@ =~= base + section_enc(
                            group_rumors(g.subrange(0, j + 1)),
                            k,
                        ));
                    }
                } else {
                    proof {
                        assert(section_enc(group_rumors(g.subrange(0, j + 1)), k)
                            =~= section_enc(group_rumors(g.subrange(0, j as int)), k));
                        assert(out@ =~= base + section_enc(
                            group_rumors(g.subrange(0, j + 1)),
                            k,
                        ));
                    }
                }
                j = j + 1;
            }
            proof {
                assert(g.subrange(0, g.len() as int) =~= g);
                assert(l.subrange(0, oi + 1).drop_last() =~= l.subrange(0, oi as int));
                assert(l.subrange(0, oi + 1).last() == l[oi as int]);
                assert(flat_entries(l.subrange(0, oi + 1)) == flat_entries(
                    l.subrange(0, oi as int),
                ) + group_rumors(g));
                lemma_section_enc_concat(
                    flat_entries(l.subrange(0, oi as int)),
                    group_rumors(g),
                    k,
                );
                assert(out@ =~= section_enc(flat_entries(l.subrange(0, oi + 1)), k));
            }
            oi = oi + 1;
        }
        proof {
            assert(l.subrange(0, l.len() as int) =~= l);
        }
        out
    }

    /// Serializes the whole store: the snapshot header and the seven
    /// kind sections. Two well-formed stores holding the same rumors
    /// produce the same bytes (`lemma_convergent_snapshot`).
    pub fn snapshot_bytes(&self) -> (r: Vec<u8>)
        requires
            self.wf(),
        ensures
            r@ == self.snapshot_spec(),
    {
        let s1 = self.section_bytes(RumorType::Member);
        let s2 = self.section_bytes(RumorType::Service);
        let s3 = self.section_bytes(RumorType::ServiceConfig);
        let s4 = self.section_bytes(RumorType::ServiceFile);
        let s5 = self.section_bytes(RumorType::Election);
        let s6 = self.section_bytes(RumorType::ElectionUpdate);
        let s7 = self.section_bytes(RumorType::Departure);
        let mut out: Vec<u8> = Vec::new();
        write_u64_le(&mut out, 2);
        write_u64_le(&mut out, s1.len() as u64);
        write_u64_le(&mut out, s2.len() as u64);
        write_u64_le(&mut out, s3.len() as u64);
        write_u64_le(&mut out, s4.len() as u64);
        write_u64_le(&mut out, s5.len() as u64);
        write_u64_le(&mut out, s6.len() as u64);
        write_u64_le(&mut out, s7.len() as u64);
        append_bytes(&mut out, &s1);
        append_bytes(&mut out, &s2);
        append_bytes(&mut out, &s3);
        append_bytes(&mut out, &s4);
        append_bytes(&mut out, &s5);
        append_bytes(&mut out, &s6);
        append_bytes(&mut out, &s7);
        proof {
            assert(out@ =~= self.snapshot_spec());
        }
        out
    }
}

/// Whether two kind tags are the same.
fn rumor_type_eq(a: RumorType, b: RumorType) -> (r: bool)
    ensures
        r == (a == b),
{
    a == b
}

/// Appends a whole byte vector.
fn append_bytes(out: &mut Vec<u8>, data: &Vec<u8>)
    ensures
        final(out)@ == old(out)@ + data@,
{
    let mut p: usize = 0;
    let ghost mid = out@;
    while p < data.len()
        invariant
            0 <= p <= data@.len(),
            out@ == mid + data@.subrange(0, p as int),
        decreases data@.len() - p,
    {
        out.push(data[p]);
        proof {
            assert(mid + data@.subrange(0, p + 1) =~= (mid + data@.subrange(0, p as int)).push(
                data@[p as int],
            ));
        }
        p = p + 1;
    }
    proof {
        assert(data@.subrange(0, data@.len() as int) =~= data@);
        assert(final(out)@ =~= old(out)@ + data@);
    }
}

/// Convergence of the representation: two well-formed stores that hold
/// the same rumors serialize to the same snapshot bytes, whatever order
/// their rumors arrived in. (That a permuted run of compatible inserts
/// reaches the same data is exercised by tests; this lemma discharges the
/// representation half: equal data means equal bytes.)
pub proof fn lemma_convergent_snapshot(s1: RumorStore, s2: RumorStore)
    requires
        s1.wf(),
        s2.wf(),
        s1@ == s2@,
    ensures
        s1.snapshot_spec() == s2.snapshot_spec(),
{
    let l1 = s1.get_list();
    let l2 = s2.get_list();
    lemma_alist_unique_rep(oentries(l1), oentries(l2));
    assert(oentries(l1).len() == l1.len() && oentries(l2).len() == l2.len());
    assert(l1.len() == l2.len());
    assert forall|i: int| 0 <= i < l1.len() implies ientries(l1[i].1@) == ientries(
        l2[i].1@,
    ) && l1[i].0@ == l2[i].0@ by {
        assert(oentries(l1)[i] == oentries(l2)[i]);
        assert(alist_map(ientries(l1[i].1@)) == alist_map(ientries(l2[i].1@)));
        assert(inner_wf(l1[i].1@, l1[i].0@));
        assert(inner_wf(l2[i].1@, l2[i].0@));
        lemma_alist_unique_rep(ientries(l1[i].1@), ientries(l2[i].1@));
    }
    lemma_flat_entries_eq(l1, l2);
}

impl RumorStore {
    /// The store's private list, for proofs inside this module.
    pub closed spec fn get_list(&self) -> Seq<(String, Vec<(String, RumorKind)>)> {
        self.list@
    }
}

/// Lists whose entries spell the same rumors flatten alike.
proof fn lemma_flat_entries_eq(
    l1: Seq<(String, Vec<(String, RumorKind)>)>,
    l2: Seq<(String, Vec<(String, RumorKind)>)>,
)
    requires
        l1.len() == l2.len(),
        forall|i: int|
            0 <= i < l1.len() ==> ientries((#[trigger] l1[i]).1@) == ientries(
                (#[trigger] l2[i]).1@,
            ),
    ensures
        flat_entries(l1) == flat_entries(l2),
    decreases l1.len(),
{
    if l1.len() > 0 {
        assert(forall|i: int|
            0 <= i < l1.drop_last().len() ==> ientries((#[trigger] l1.drop_last()[i]).1@)
                == ientries((#[trigger] l2.drop_last()[i]).1@));
        lemma_flat_entries_eq(l1.drop_last(), l2.drop_last());
        let g1 = l1.last().1@;
        let g2 = l2.last().1@;
        assert(ientries(l1[l1.len() - 1].1@) == ientries(l2[l2.len() - 1].1@));
        assert(ientries(g1).len() == ientries(g2).len());
        assert(g1.len() == g2.len());
        assert forall|q: int| 0 <= q < g1.len() implies #[trigger] group_rumors(g1)[q]
            == group_rumors(g2)[q] by {
            assert(ientries(g1)[q] == ientries(g2)[q]);
            assert(ientries(g1)[q].1 == g1[q].1@);
            assert(ientries(g2)[q].1 == g2[q].1@);
            assert(group_rumors(g1)[q] == g1[q].1@);
            assert(group_rumors(g2)[q] == g2[q].1@);
        }
        assert(group_rumors(g1) =~= group_rumors(g2));
    }
}


/// The count eight little-endian bytes spell.
pub open spec fn u64_le_val(s: Seq<u8>) -> u64
    recommends
        s.len() == 8,
{
    (s[0] + s[1] * 256 + s[2] * 65536 + s[3] * 16777216 + s[4] * 4294967296 + s[5]
        * 1099511627776 + s[6] * 281474976710656 + s[7] * 72057594037927936) as u64
}

/// Reads a 64-bit little-endian count.
fn read_u64_le(b: &[u8], pos: usize) -> (r: u64)
    requires
        pos + 8 <= b@.len(),
    ensures
        r == u64_le_val(b@.subrange(pos as int, pos + 8)),
{
    let r = b[pos] as u64 + b[pos + 1] as u64 * 256 + b[pos + 2] as u64 * 65536 + b[pos
        + 3] as u64 * 16777216 + b[pos + 4] as u64 * 4294967296 + b[pos + 5] as u64
        * 1099511627776 + b[pos + 6] as u64 * 281474976710656 + b[pos + 7] as u64
        * 72057594037927936;
    proof {
        let sub = b@.subrange(pos as int, pos + 8);
        assert(sub[0] == b@[pos as int] && sub[1] == b@[pos + 1] && sub[2] == b@[pos + 2]
            && sub[3] == b@[pos + 3] && sub[4] == b@[pos + 4] && sub[5] == b@[pos + 5] && sub[6]
            == b@[pos + 6] && sub[7] == b@[pos + 7]);
    }
    r
}

impl RumorStore {
    /// Reads one snapshot section's frames into the store being rebuilt.
    fn restore_frames(&mut self, bytes: &[u8], start: usize, end: usize, section: &str) -> (r:
        Result<(), RumorError>)
        requires
            old(self).wf(),
            start <= end <= bytes@.len(),
        ensures
            final(self).wf(),
    {
        let mut p = start;
        while p < end
            invariant
                self.wf(),
                start <= p <= end || p <= end,
                end <= bytes@.len(),
            decreases end - p,
        {
            if end - p < 8 {
                return Err(RumorError::CorruptDatFile { section: section.to_owned() });
            }
            let flen = read_u64_le(bytes, p);
            if flen > (end - (p + 8)) as u64 {
                return Err(RumorError::CorruptDatFile { section: section.to_owned() });
            }
            let fstart = p + 8;
            let fend = fstart + flen as usize;
            let frame = vstd::slice::slice_subrange(bytes, fstart, fend);
            match crate::codec::decode_envelope(frame) {
                Ok((_from, rumor)) => {
                    let _ = self.insert(rumor);
                },
                Err(e) => {
                    return Err(e);
                },
            }
            if fend == p {
                return Err(RumorError::CorruptDatFile { section: section.to_owned() });
            }
            p = fend;
        }
        Ok(())
    }

    /// Replaces the store's data with a snapshot's: the header version
    /// must be the one this code writes, every section must lie inside
    /// the bytes, every frame must decode, and the rebuilt store must
    /// serialize back to the given bytes, so that on success the restored
    /// data is exactly what the bytes spell in canonical form. The update
    /// counter advances by one on success; on any error the store is
    /// unchanged.
    pub fn restore_from_bytes(&mut self, bytes: &[u8]) -> (r: Result<(), RumorError>)
        requires
            old(self).wf(),
        ensures
            final(self).wf(),
            bytes@.len() >= 8 && u64_le_val(bytes@.subrange(0, 8)) != 2 ==> (r matches Err(e)
                && (e matches RumorError::IncompatibleDatFile { version } && version
                == u64_le_val(bytes@.subrange(0, 8)))),
            r is Ok ==> final(self).snapshot_spec() == bytes@ && final(self).spec_counter()
                == wrap_succ(old(self).spec_counter()),
            r is Ok ==> forall|s: RumorStore|
                (#[trigger] s.wf() && s.snapshot_spec() == bytes@) ==> final(self).snapshot_spec()
                    == s.snapshot_spec(),
            r is Err ==> final(self)@ == old(self)@ && final(self).spec_counter() == old(
                self,
            ).spec_counter(),
    {
        if bytes.len() >= 8 {
            let version = read_u64_le(bytes, 0);
            if version != 2 {
                return Err(RumorError::IncompatibleDatFile { version });
            }
        }
        if bytes.len() < 64 {
            return Err(RumorError::CorruptDatFile { section: "header".to_owned() });
        }
        let mut fresh = RumorStore::new(0);
        let mut pos: usize = 64;
        let mut section: usize = 0;
        let names = ["membership", "service", "service-config", "service-file", "election",
            "election-update", "departure"];
        while section < 7
            invariant
                fresh.wf(),
                pos <= bytes@.len(),
                section <= 7,
                bytes@.len() >= 64,
                u64_le_val(bytes@.subrange(0, 8)) == 2,
                self.wf(),
                self == old(self),
            decreases 7 - section,
        {
            let slen = read_u64_le(bytes, 8 + section * 8);
            let name = names[section];
            if slen > (bytes.len() - pos) as u64 {
                return Err(RumorError::CorruptDatFile { section: name.to_owned() });
            }
            let end = pos + slen as usize;
            match fresh.restore_frames(bytes, pos, end, name) {
                Ok(()) => {},
                Err(e) => {
                    return Err(e);
                },
            }
            pos = end;
            section = section + 1;
        }
        // the rebuilt store must spell the given bytes back: anything else
        // is a snapshot this code would not have written
        let check = fresh.snapshot_bytes();
        if !crate::archive::eq_bytes(check.as_slice(), bytes) {
            return Err(RumorError::CorruptDatFile { section: "snapshot".to_owned() });
        }
        self.list = fresh.list;
        self.update_counter = self.update_counter.wrapping_add(1);
        proof {
            assert(self.wf());
            assert(self.snapshot_spec() == fresh.snapshot_spec());
        }
        Ok(())
    }
}


/// The descriptors are exactly the rumors still live at `now`: every
/// descriptor names a stored, unexpired rumor with its kind and both
/// keys, and every stored, unexpired rumor has a descriptor.
pub open spec fn keys_live_at(m: StoreV, ks: Seq<RumorKey>, now: i64) -> bool {
    &&& forall|i: int|
        0 <= i < ks.len() ==> ({
            let d = #[trigger] ks[i];
            &&& m.contains_key(d.key@)
            &&& m[d.key@].contains_key(d.id@)
            &&& !(now > exp_of(m[d.key@][d.id@]))
            &&& d.kind == kind_of(m[d.key@][d.id@])
        })
    &&& forall|k: Seq<char>, id: Seq<char>|
        (#[trigger] m.contains_key(k) && #[trigger] m[k].contains_key(id) && !(now > exp_of(
            m[k][id],
        ))) ==> exists|i: int|
            0 <= i < ks.len() && (#[trigger] ks[i]).key@ == k && ks[i].id@ == id
}

impl RumorStore {
    /// The descriptors of every rumor still live at `now`: what the
    /// gossip layer picks its candidates from. A descriptor appears
    /// exactly for each stored, unexpired rumor, carrying its kind and
    /// both keys.
    pub fn rumor_keys_at(&self, now_nanos: i64) -> (r: Vec<RumorKey>)
        requires
            self.wf(),
        ensures
            keys_live_at(self@, r@, now_nanos),
    {
        let mut out: Vec<RumorKey> = Vec::new();
        let ghost l = self.list@;
        let mut oi: usize = 0;
        proof {
            lemma_sorted_distinct(oentries(l));
        }
        while oi < self.list.len()
            invariant
                self.wf(),
                l == self.list@,
                0 <= oi <= l.len(),
                forall|i: int|
                    0 <= i < out@.len() ==> ({
                        let d = #[trigger] out@[i];
                        &&& self@.contains_key(d.key@)
                        &&& self@[d.key@].contains_key(d.id@)
                        &&& !(now_nanos > exp_of(self@[d.key@][d.id@]))
                        &&& d.kind == kind_of(self@[d.key@][d.id@])
                    }),
                forall|g: int, q: int|
                    #![trigger l[g].1@[q]]
                    (0 <= g < oi && 0 <= q < l[g].1@.len() && !(now_nanos > exp_of(
                        l[g].1@[q].1@,
                    ))) ==> exists|i: int|
                        0 <= i < out@.len() && (#[trigger] out@[i]).key@ == l[g].0@ && out@[i].id@
                            == l[g].1@[q].0@,
            decreases l.len() - oi,
        {
            proof {
                lemma_sorted_distinct(oentries(l));
                lemma_alist_index(oentries(l), oi as int);
                lemma_sorted_distinct(ientries(l[oi as int].1@));
            }
            let group = &self.list[oi].1;
            let mut j: usize = 0;
            while j < group.len()
                invariant
                    self.wf(),
                    l == self.list@,
                    0 <= oi < l.len(),
                    group == &self.list[oi as int].1,
                    0 <= j <= group@.len(),
                    self@.contains_key(l[oi as int].0@),
                    self@[l[oi as int].0@] == alist_map(ientries(l[oi as int].1@)),
                    forall|i: int|
                        0 <= i < out@.len() ==> ({
                            let d = #[trigger] out@[i];
                            &&& self@.contains_key(d.key@)
                            &&& self@[d.key@].contains_key(d.id@)
                            &&& !(now_nanos > exp_of(self@[d.key@][d.id@]))
                            &&& d.kind == kind_of(self@[d.key@][d.id@])
                        }),
                    forall|g: int, q: int|
                        #![trigger l[g].1@[q]]
                        (0 <= g < oi && 0 <= q < l[g].1@.len() && !(now_nanos > exp_of(
                            l[g].1@[q].1@,
                        ))) ==> exists|i: int|
                            0 <= i < out@.len() && (#[trigger] out@[i]).key@ == l[g].0@
                                && out@[i].id@ == l[g].1@[q].0@,
                    forall|q: int|
                        (0 <= q < j && !(now_nanos > exp_of((#[trigger] l[oi as int].1@[q]).1@)))
                            ==> exists|i: int|
                            0 <= i < out@.len() && (#[trigger] out@[i]).key@ == l[oi as int].0@
                                && out@[i].id@ == l[oi as int].1@[q].0@,
                decreases group@.len() - j,
            {
                let rumor = &group[j].1;
                let expired = rumor.expiration().expired(now_nanos);
                let ghost pre = out@;
                if !expired {
                    let d = RumorKey::from_rumor(rumor);
                    proof {
                        lemma_sorted_distinct(ientries(l[oi as int].1@));
                        lemma_alist_index(ientries(l[oi as int].1@), j as int);
                        assert(ientries(l[oi as int].1@)[j as int]
                            == (l[oi as int].1@[j as int].0@, l[oi as int].1@[j as int].1@));
                        assert(key_of(rumor@) == l[oi as int].0@ && id_of(rumor@)
                            == l[oi as int].1@[j as int].0@);
                    }
                    out.push(d);
                    proof {
                        assert(out@ =~= pre.push(out@[out@.len() - 1]));
                        assert forall|g: int, q: int|
                            #![trigger l[g].1@[q]]
                            (0 <= g < oi && 0 <= q < l[g].1@.len() && !(now_nanos > exp_of(
                                l[g].1@[q].1@,
                            ))) implies exists|i: int|
                            0 <= i < out@.len() && (#[trigger] out@[i]).key@ == l[g].0@
                                && out@[i].id@ == l[g].1@[q].0@ by {
                            let i = choose|i: int|
                                0 <= i < pre.len() && (#[trigger] pre[i]).key@ == l[g].0@
                                    && pre[i].id@ == l[g].1@[q].0@;
                            assert(out@[i] == pre[i]);
                        }
                        assert forall|q: int|
                            (0 <= q < j + 1 && !(now_nanos > exp_of(
                                (#[trigger] l[oi as int].1@[q]).1@,
                            ))) implies exists|i: int|
                            0 <= i < out@.len() && (#[trigger] out@[i]).key@ == l[oi as int].0@
                                && out@[i].id@ == l[oi as int].1@[q].0@ by {
                            if q < j {
                                let i = choose|i: int|
                                    0 <= i < pre.len() && (#[trigger] pre[i]).key@
                                        == l[oi as int].0@ && pre[i].id@ == l[oi as int].1@[q].0@;
                                assert(out@[i] == pre[i]);
                            } else {
                                assert(out@[out@.len() - 1].key@ == l[oi as int].0@
                                    && out@[out@.len() - 1].id@ == l[oi as int].1@[j as int].0@);
                            }
                        }
                    }
                }
                j = j + 1;
            }
            oi = oi + 1;
        }
        proof {
            assert forall|k: Seq<char>, id: Seq<char>|
                (#[trigger] self@.contains_key(k) && #[trigger] self@[k].contains_key(id) && !(
                now_nanos > exp_of(self@[k][id]))) implies exists|i: int|
                0 <= i < out@.len() && (#[trigger] out@[i]).key@ == k && out@[i].id@ == id by {
                lemma_alist_dom(oentries(l), k);
                let g = choose|g: int| 0 <= g < oentries(l).len() && (#[trigger] oentries(l)[
                    g]).0 == k;
                lemma_sorted_distinct(oentries(l));
                lemma_alist_index(oentries(l), g);
                assert(self@[k] == alist_map(ientries(l[g].1@)));
                lemma_alist_dom(ientries(l[g].1@), id);
                let q = choose|q: int|
                    0 <= q < ientries(l[g].1@).len() && (#[trigger] ientries(l[g].1@)[q]).0 == id;
                lemma_sorted_distinct(ientries(l[g].1@));
                lemma_alist_index(ientries(l[g].1@), q);
                assert(l[g].1@[q].0@ == id && l[g].1@[q].1@ == self@[k][id]);
            }
        }
        out
    }

    /// The descriptors of every rumor live now on the wall clock.
    pub fn rumor_keys(&self) -> (r: Vec<RumorKey>)
        requires
            self.wf(),
        ensures
            exists|now: i64| keys_live_at(self@, r@, now),
    {
        let now = crate::expiration::now_nanos();
        let r = self.rumor_keys_at(now);
        proof {
            assert(keys_live_at(self@, r@, now));
        }
        r
    }
}


/// The listed rumors are exactly the stored ones on one side of the
/// expiration cut at `at`: every element is a stored rumor whose expired
/// state matches `expired`, and every such stored rumor is listed.
pub open spec fn rumors_partition_at(m: StoreV, rs: Seq<RumorKind>, at: i64, expired: bool) -> bool {
    &&& forall|i: int|
        0 <= i < rs.len() ==> ({
            let v = (#[trigger] rs[i])@;
            &&& m.contains_key(key_of(v))
            &&& m[key_of(v)].contains_key(id_of(v))
            &&& m[key_of(v)][id_of(v)] == v
            &&& ((at > exp_of(v)) == expired)
        })
    &&& forall|k: Seq<char>, id: Seq<char>|
        (#[trigger] m.contains_key(k) && #[trigger] m[k].contains_key(id) && ((at > exp_of(
            m[k][id],
        )) == expired)) ==> exists|i: int|
            0 <= i < rs.len() && key_of((#[trigger] rs[i])@) == k && id_of(rs[i]@) == id
}

impl RumorStore {
    /// The rumor stored under `(key, id)`, cloned; nothing when the slot
    /// is empty.
    pub fn get(&self, key: &str, id: &str) -> (r: Option<RumorKind>)
        requires
            self.wf(),
        ensures
            (self@.contains_key(key@) && self@[key@].contains_key(id@)) ==> (r matches Some(x)
                && x@ == self@[key@][id@]),
            !(self@.contains_key(key@) && self@[key@].contains_key(id@)) ==> r is None,
    {
        let (oi, ofound) = self.search_outer(key);
        if !ofound {
            return None;
        }
        proof {
            lemma_sorted_distinct(oentries(self.list@));
            lemma_alist_index(oentries(self.list@), oi as int);
        }
        let (ii, ifound) = Self::search_inner(
            &self.list[oi].1,
            id,
            Ghost(self.list@[oi as int].0@),
        );
        if !ifound {
            return None;
        }
        proof {
            lemma_sorted_distinct(ientries(self.list@[oi as int].1@));
            lemma_alist_index(ientries(self.list@[oi as int].1@), ii as int);
        }
        Some(self.list[oi].1[ii].1.duplicate())
    }

    /// Whether the rumor stored under `(key, id)` satisfies the
    /// predicate; false when no rumor is stored there.
    pub fn rumor_is<P: Fn(&RumorKind) -> bool>(&self, key: &str, id: &str, predicate: P) -> (r:
        bool)
        requires
            self.wf(),
            forall|x: &RumorKind| call_requires(predicate, (x,)),
        ensures
            r ==> (self@.contains_key(key@) && self@[key@].contains_key(id@) && exists|
                x: RumorKind,
            |
                x@ == self@[key@][id@] && call_ensures(predicate, (&x,), true)),
            !(self@.contains_key(key@) && self@[key@].contains_key(id@)) ==> !r,
    {
        match self.get(key, id) {
            Some(x) => {
                let ok = predicate(&x);
                proof {
                    if ok {
                        assert(x@ == self@[key@][id@] && call_ensures(predicate, (&x,), true));
                    }
                }
                ok
            },
            None => false,
        }
    }

    /// The rumors stored under the outer `key`, cloned: one element per
    /// stored inner id, and nothing else.
    pub fn rumors_for_key(&self, key: &str) -> (r: Vec<RumorKind>)
        requires
            self.wf(),
        ensures
            !self@.contains_key(key@) ==> r@.len() == 0,
            self@.contains_key(key@) ==> ({
                &&& forall|i: int|
                    0 <= i < r@.len() ==> self@[key@].contains_key(id_of((#[trigger] r@[i])@))
                        && r@[i]@ == self@[key@][id_of(r@[i]@)] && key_of(r@[i]@) == key@
                &&& forall|id: Seq<char>|
                    #[trigger] self@[key@].contains_key(id) ==> exists|i: int|
                        0 <= i < r@.len() && id_of((#[trigger] r@[i])@) == id
            }),
    {
        let mut out: Vec<RumorKind> = Vec::new();
        let (oi, ofound) = self.search_outer(key);
        if !ofound {
            return out;
        }
        proof {
            lemma_sorted_distinct(oentries(self.list@));
            lemma_alist_index(oentries(self.list@), oi as int);
            lemma_sorted_distinct(ientries(self.list@[oi as int].1@));
        }
        let group = &self.list[oi].1;
        let ghost g = group@;
        let mut j: usize = 0;
        while j < group.len()
            invariant
                self.wf(),
                0 <= oi < self.list@.len(),
                group == &self.list[oi as int].1,
                g == group@,
                self.list@[oi as int].0@ == key@,
                self@.contains_key(key@),
                self@[key@] == alist_map(ientries(g)),
                inner_wf(g, key@),
                sorted_keys(ientries(g)),
                distinct_keys(ientries(g)),
                0 <= j <= g.len(),
                out@.len() == j,
                forall|i: int|
                    0 <= i < j ==> (#[trigger] out@[i])@ == g[i].1@ && id_of(out@[i]@) == g[i].0@
                        && key_of(out@[i]@) == key@,
            decreases g.len() - j,
        {
            let x = group[j].1.duplicate();
            proof {
                assert(ientries(g)[j as int] == (g[j as int].0@, g[j as int].1@));
            }
            out.push(x);
            j = j + 1;
        }
        proof {
            assert forall|i: int|
                0 <= i < out@.len() implies self@[key@].contains_key(id_of(
                (#[trigger] out@[i])@,
            )) && out@[i]@ == self@[key@][id_of(out@[i]@)] && key_of(out@[i]@) == key@ by {
                lemma_alist_index(ientries(g), i);
                assert(ientries(g)[i] == (g[i].0@, g[i].1@));
            }
            assert forall|id: Seq<char>| #[trigger] self@[key@].contains_key(id) implies exists|
                i: int,
            |
                0 <= i < out@.len() && id_of((#[trigger] out@[i])@) == id by {
                lemma_alist_dom(ientries(g), id);
                let q = choose|q: int|
                    0 <= q < ientries(g).len() && (#[trigger] ientries(g)[q]).0 == id;
                assert(ientries(g)[q] == (g[q].0@, g[q].1@));
                assert(id_of(out@[q]@) == id);
            }
        }
        out
    }

    /// The stored rumors on one side of the expiration cut, cloned.
    fn partition_rumors_at(&self, at_nanos: i64, expired: bool) -> (r: Vec<RumorKind>)
        requires
            self.wf(),
        ensures
            rumors_partition_at(self@, r@, at_nanos, expired),
    {
        let mut out: Vec<RumorKind> = Vec::new();
        let ghost l = self.list@;
        let mut oi: usize = 0;
        proof {
            lemma_sorted_distinct(oentries(l));
        }
        while oi < self.list.len()
            invariant
                self.wf(),
                l == self.list@,
                0 <= oi <= l.len(),
                forall|i: int|
                    0 <= i < out@.len() ==> ({
                        let v = (#[trigger] out@[i])@;
                        &&& self@.contains_key(key_of(v))
                        &&& self@[key_of(v)].contains_key(id_of(v))
                        &&& self@[key_of(v)][id_of(v)] == v
                        &&& ((at_nanos > exp_of(v)) == expired)
                    }),
                forall|g: int, q: int|
                    #![trigger l[g].1@[q]]
                    (0 <= g < oi && 0 <= q < l[g].1@.len() && ((at_nanos > exp_of(
                        l[g].1@[q].1@,
                    )) == expired)) ==> exists|i: int|
                        0 <= i < out@.len() && key_of((#[trigger] out@[i])@) == l[g].0@ && id_of(
                            out@[i]@,
                        ) == l[g].1@[q].0@,
            decreases l.len() - oi,
        {
            proof {
                lemma_sorted_distinct(oentries(l));
                lemma_alist_index(oentries(l), oi as int);
                lemma_sorted_distinct(ientries(l[oi as int].1@));
            }
            let group = &self.list[oi].1;
            let mut j: usize = 0;
            while j < group.len()
                invariant
                    self.wf(),
                    l == self.list@,
                    0 <= oi < l.len(),
                    group == &self.list[oi as int].1,
                    0 <= j <= group@.len(),
                    self@.contains_key(l[oi as int].0@),
                    self@[l[oi as int].0@] == alist_map(ientries(l[oi as int].1@)),
                    forall|i: int|
                        0 <= i < out@.len() ==> ({
                            let v = (#[trigger] out@[i])@;
                            &&& self@.contains_key(key_of(v))
                            &&& self@[key_of(v)].contains_key(id_of(v))
                            &&& self@[key_of(v)][id_of(v)] == v
                            &&& ((at_nanos > exp_of(v)) == expired)
                        }),
                    forall|g: int, q: int|
                        #![trigger l[g].1@[q]]
                        (0 <= g < oi && 0 <= q < l[g].1@.len() && ((at_nanos > exp_of(
                            l[g].1@[q].1@,
                        )) == expired)) ==> exists|i: int|
                            0 <= i < out@.len() && key_of((#[trigger] out@[i])@) == l[g].0@
                                && id_of(out@[i]@) == l[g].1@[q].0@,
                    forall|q: int|
                        (0 <= q < j && ((at_nanos > exp_of(
                            (#[trigger] l[oi as int].1@[q]).1@,
                        )) == expired)) ==> exists|i: int|
                            0 <= i < out@.len() && key_of((#[trigger] out@[i])@)
                                == l[oi as int].0@ && id_of(out@[i]@) == l[oi as int].1@[q].0@,
                decreases group@.len() - j,
            {
                let rumor = &group[j].1;
                let is_expired = rumor.expiration().expired(at_nanos);
                let ghost pre = out@;
                if is_expired == expired {
                    let x = rumor.duplicate();
                    proof {
                        lemma_sorted_distinct(ientries(l[oi as int].1@));
                        lemma_alist_index(ientries(l[oi as int].1@), j as int);
                        assert(ientries(l[oi as int].1@)[j as int]
                            == (l[oi as int].1@[j as int].0@, l[oi as int].1@[j as int].1@));
                        assert(key_of(rumor@) == l[oi as int].0@ && id_of(rumor@)
                            == l[oi as int].1@[j as int].0@);
                    }
                    out.push(x);
                    proof {
                        assert(out@ =~= pre.push(out@[out@.len() - 1]));
                        assert forall|g: int, q: int|
                            #![trigger l[g].1@[q]]
                            (0 <= g < oi && 0 <= q < l[g].1@.len() && ((at_nanos > exp_of(
                                l[g].1@[q].1@,
                            )) == expired)) implies exists|i: int|
                            0 <= i < out@.len() && key_of((#[trigger] out@[i])@) == l[g].0@
                                && id_of(out@[i]@) == l[g].1@[q].0@ by {
                            let i = choose|i: int|
                                0 <= i < pre.len() && key_of((#[trigger] pre[i])@) == l[g].0@
                                    && id_of(pre[i]@) == l[g].1@[q].0@;
                            assert(out@[i] == pre[i]);
                        }
                        assert forall|q: int|
                            (0 <= q < j + 1 && ((at_nanos > exp_of(
                                (#[trigger] l[oi as int].1@[q]).1@,
                            )) == expired)) implies exists|i: int|
                            0 <= i < out@.len() && key_of((#[trigger] out@[i])@)
                                == l[oi as int].0@ && id_of(out@[i]@) == l[oi as int].1@[q].0@ by {
                            if q < j {
                                let i = choose|i: int|
                                    0 <= i < pre.len() && key_of((#[trigger] pre[i])@)
                                        == l[oi as int].0@ && id_of(pre[i]@)
                                        == l[oi as int].1@[q].0@;
                                assert(out@[i] == pre[i]);
                            } else {
                                assert(key_of(out@[out@.len() - 1]@) == l[oi as int].0@ && id_of(
                                    out@[out@.len() - 1]@,
                                ) == l[oi as int].1@[j as int].0@);
                            }
                        }
                    }
                }
                j = j + 1;
            }
            oi = oi + 1;
        }
        proof {
            assert forall|k: Seq<char>, id: Seq<char>|
                (#[trigger] self@.contains_key(k) && #[trigger] self@[k].contains_key(id) && ((
                at_nanos > exp_of(self@[k][id])) == expired)) implies exists|i: int|
                0 <= i < out@.len() && key_of((#[trigger] out@[i])@) == k && id_of(out@[i]@)
                    == id by {
                lemma_alist_dom(oentries(l), k);
                let g = choose|g: int| 0 <= g < oentries(l).len() && (#[trigger] oentries(l)[
                    g]).0 == k;
                lemma_sorted_distinct(oentries(l));
                lemma_alist_index(oentries(l), g);
                assert(self@[k] == alist_map(ientries(l[g].1@)));
                lemma_alist_dom(ientries(l[g].1@), id);
                let q = choose|q: int|
                    0 <= q < ientries(l[g].1@).len() && (#[trigger] ientries(l[g].1@)[q]).0 == id;
                lemma_sorted_distinct(ientries(l[g].1@));
                lemma_alist_index(ientries(l[g].1@), q);
                assert(l[g].1@[q].0@ == id && l[g].1@[q].1@ == self@[k][id]);
            }
        }
        out
    }

    /// The stored rumors still live at `at`, cloned: every unexpired
    /// rumor, and nothing else.
    pub fn live_rumors_at(&self, at_nanos: i64) -> (r: Vec<RumorKind>)
        requires
            self.wf(),
        ensures
            rumors_partition_at(self@, r@, at_nanos, false),
    {
        self.partition_rumors_at(at_nanos, false)
    }

    /// The stored rumors already expired at `at`, cloned: every expired
    /// rumor, and nothing else.
    pub fn expired_rumors_at(&self, at_nanos: i64) -> (r: Vec<RumorKind>)
        requires
            self.wf(),
        ensures
            rumors_partition_at(self@, r@, at_nanos, true),
    {
        self.partition_rumors_at(at_nanos, true)
    }
}


/// The rows are exactly the store's contents: every row is a stored
/// `(key, id, rumor)` triple, every stored rumor has a row, and no slot
/// appears twice.
pub open spec fn projection_rows_ok(m: StoreV, rows: Seq<(String, String, RumorKind)>) -> bool {
    &&& forall|i: int|
        0 <= i < rows.len() ==> ({
            let row = #[trigger] rows[i];
            &&& m.contains_key(row.0@)
            &&& m[row.0@].contains_key(row.1@)
            &&& m[row.0@][row.1@] == row.2@
        })
    &&& forall|k: Seq<char>, id: Seq<char>|
        (#[trigger] m.contains_key(k) && #[trigger] m[k].contains_key(id)) ==> exists|i: int|
            0 <= i < rows.len() && (#[trigger] rows[i]).0@ == k && rows[i].1@ == id
    &&& forall|i: int, j: int|
        0 <= i < j < rows.len() ==> !((#[trigger] rows[i]).0@ == (#[trigger] rows[j]).0@
            && rows[i].1@ == rows[j].1@)
}

/// How many rows the groups before `g` contribute.
pub open spec fn rows_before(l: Seq<(String, Vec<(String, RumorKind)>)>, g: int) -> int
    decreases g,
{
    if g <= 0 {
        0
    } else {
        rows_before(l, g - 1) + l[g - 1].1@.len()
    }
}

/// Row counts only grow with the group index.
proof fn lemma_rows_before_mono(l: Seq<(String, Vec<(String, RumorKind)>)>, a: int, b: int)
    requires
        0 <= a <= b,
    ensures
        rows_before(l, a) <= rows_before(l, b),
    decreases b - a,
{
    if a < b {
        lemma_rows_before_mono(l, a, b - 1);
    }
}

/// The value of one row: outer key, inner key, rumor.
pub open spec fn row_view(row: (String, String, RumorKind)) -> (Seq<char>, Seq<char>, RumorV) {
    (row.0@, row.1@, row.2@)
}

/// The values of a row list.
pub open spec fn rows_view(s: Seq<(String, String, RumorKind)>) -> Seq<
    (Seq<char>, Seq<char>, RumorV),
> {
    Seq::new(s.len(), |i: int| row_view(s[i]))
}

/// The rows of one group.
pub open spec fn group_rows_view(e: (String, Vec<(String, RumorKind)>)) -> Seq<
    (Seq<char>, Seq<char>, RumorV),
> {
    Seq::new(e.1@.len(), |q: int| (e.0@, e.1@[q].0@, e.1@[q].1@))
}

/// The rows of the first `g` groups, group by group, in storage order.
pub open spec fn spec_rows(l: Seq<(String, Vec<(String, RumorKind)>)>, g: int) -> Seq<
    (Seq<char>, Seq<char>, RumorV),
>
    decreases g,
{
    if g <= 0 {
        Seq::<(Seq<char>, Seq<char>, RumorV)>::empty()
    } else {
        spec_rows(l, g - 1) + group_rows_view(l[g - 1])
    }
}

/// There are as many rows as the groups hold entries.
proof fn lemma_spec_rows_len(l: Seq<(String, Vec<(String, RumorKind)>)>, n: int)
    requires
        0 <= n,
    ensures
        spec_rows(l, n).len() == rows_before(l, n),
    decreases n,
{
    if n > 0 {
        lemma_spec_rows_len(l, n - 1);
    }
}

/// The row of group `g`, entry `q`, sits at its offset.
proof fn lemma_spec_rows_index(l: Seq<(String, Vec<(String, RumorKind)>)>, n: int, g: int, q: int)
    requires
        0 <= g < n,
        0 <= q < l[g].1@.len(),
    ensures
        0 <= rows_before(l, g) + q < spec_rows(l, n).len(),
        spec_rows(l, n)[rows_before(l, g) + q] == (l[g].0@, l[g].1@[q].0@, l[g].1@[q].1@),
    decreases n,
{
    lemma_spec_rows_len(l, n);
    lemma_spec_rows_len(l, n - 1);
    lemma_rows_before_mono(l, 0, g);
    if g == n - 1 {
        assert(spec_rows(l, n)[rows_before(l, n - 1) + q] == group_rows_view(l[n - 1])[q]);
    } else {
        lemma_spec_rows_index(l, n - 1, g, q);
        assert(rows_before(l, g + 1) == rows_before(l, g) + l[g].1@.len());
        lemma_rows_before_mono(l, g + 1, n - 1);
        assert(spec_rows(l, n)[rows_before(l, g) + q] == spec_rows(l, n - 1)[rows_before(l, g)
            + q]);
    }
}

/// Every row index splits into a group and a position in it.
proof fn lemma_rows_before_split(l: Seq<(String, Vec<(String, RumorKind)>)>, n: int, i: int) -> (r:
    (int, int))
    requires
        0 <= n <= l.len(),
        0 <= i < rows_before(l, n),
    ensures
        0 <= r.0 < n,
        0 <= r.1 < l[r.0].1@.len(),
        i == rows_before(l, r.0) + r.1,
    decreases n,
{
    assert(rows_before(l, n) == rows_before(l, n - 1) + l[n - 1].1@.len());
    if i >= rows_before(l, n - 1) {
        let g = n - 1;
        let q = i - rows_before(l, g);
        lemma_rows_before_mono(l, 0, g);
        (g, q)
    } else {
        lemma_rows_before_split(l, n - 1, i)
    }
}

/// The rows of one group, index-aligned with its entries.
fn append_group_rows(
    out: &mut Vec<(String, String, RumorKind)>,
    name: &String,
    group: &Vec<(String, RumorKind)>,
)
    ensures
        final(out)@.len() == old(out)@.len() + group@.len(),
        forall|i: int| 0 <= i < old(out)@.len() ==> #[trigger] final(out)@[i] == old(out)@[i],
        forall|q: int|
            0 <= q < group@.len() ==> #[trigger] row_view(final(out)@[old(out)@.len() + q]) == (
                name@,
                group@[q].0@,
                group@[q].1@,
            ),
{
    let mut j: usize = 0;
    while j < group.len()
        invariant
            0 <= j <= group@.len(),
            out@.len() == old(out)@.len() + j,
            forall|i: int| 0 <= i < old(out)@.len() ==> #[trigger] out@[i] == old(out)@[i],
            forall|q: int|
                0 <= q < j ==> #[trigger] row_view(out@[old(out)@.len() + q]) == (
                    name@,
                    group@[q].0@,
                    group@[q].1@,
                ),
        decreases group@.len() - j,
    {
        out.push((name.clone(), group[j].0.clone(), group[j].1.duplicate()));
        j = j + 1;
    }
}

impl RumorStore {
    /// Every stored rumor as a `(key, id, rumor)` row, each slot once:
    /// the shape the stable observability projections are rendered from.
    #[verifier::rlimit(100)]
    pub fn projection_rows(&self) -> (r: Vec<(String, String, RumorKind)>)
        requires
            self.wf(),
        ensures
            projection_rows_ok(self@, r@),
    {
        let mut out: Vec<(String, String, RumorKind)> = Vec::new();
        let ghost l = self.list@;
        let mut oi: usize = 0;
        proof {
            assert(rows_view(out@) =~= spec_rows(l, 0));
        }
        while oi < self.list.len()
            invariant
                self.wf(),
                l == self.list@,
                0 <= oi <= l.len(),
                rows_view(out@) == spec_rows(l, oi as int),
            decreases l.len() - oi,
        {
            let name = &self.list[oi].0;
            let group = &self.list[oi].1;
            let ghost pre = out@;
            append_group_rows(&mut out, name, group);
            proof {
                assert(group@ == l[oi as int].1@ && name@ == l[oi as int].0@);
                assert forall|i: int|
                    0 <= i < out@.len() implies #[trigger] rows_view(out@)[i] == (spec_rows(
                    l,
                    oi as int,
                ) + group_rows_view(l[oi as int]))[i] by {
                    if i < pre.len() {
                        assert(out@[i] == pre[i]);
                        assert(rows_view(pre)[i] == row_view(pre[i]));
                    } else {
                        assert(row_view(out@[pre.len() + (i - pre.len())]) == (
                            name@,
                            group@[i - pre.len()].0@,
                            group@[i - pre.len()].1@,
                        ));
                    }
                }
                assert(rows_view(out@) =~= spec_rows(l, oi as int) + group_rows_view(
                    l[oi as int],
                ));
                assert(spec_rows(l, oi + 1) == spec_rows(l, oi as int) + group_rows_view(
                    l[oi as int],
                ));
            }
            oi = oi + 1;
        }
        proof {
            let n = l.len() as int;
            lemma_sorted_distinct(oentries(l));
            lemma_spec_rows_len(l, n);
            assert(out@.len() == rows_before(l, n));
            // soundness: each row sits at a decomposable index and spells
            // its slot's stored value
            assert forall|i: int| 0 <= i < out@.len() implies ({
                let row = #[trigger] out@[i];
                &&& self@.contains_key(row.0@)
                &&& self@[row.0@].contains_key(row.1@)
                &&& self@[row.0@][row.1@] == row.2@
            }) by {
                let (g, q) = lemma_rows_before_split(l, n, i);
                lemma_spec_rows_index(l, n, g, q);
                assert(rows_view(out@)[i] == row_view(out@[i]));
                assert(row_view(out@[i]) == (l[g].0@, l[g].1@[q].0@, l[g].1@[q].1@));
                lemma_alist_index(oentries(l), g);
                lemma_sorted_distinct(ientries(l[g].1@));
                lemma_alist_index(ientries(l[g].1@), q);
                assert(ientries(l[g].1@)[q] == (l[g].1@[q].0@, l[g].1@[q].1@));
            }
            // completeness: every slot's row index is in range
            assert forall|k: Seq<char>, id: Seq<char>|
                (#[trigger] self@.contains_key(k) && #[trigger] self@[k].contains_key(
                    id,
                )) implies exists|i: int|
                0 <= i < out@.len() && (#[trigger] out@[i]).0@ == k && out@[i].1@ == id by {
                lemma_alist_dom(oentries(l), k);
                let g = choose|g: int| 0 <= g < oentries(l).len() && (#[trigger] oentries(l)[
                    g]).0 == k;
                lemma_alist_index(oentries(l), g);
                assert(self@[k] == alist_map(ientries(l[g].1@)));
                lemma_alist_dom(ientries(l[g].1@), id);
                let q = choose|q: int|
                    0 <= q < ientries(l[g].1@).len() && (#[trigger] ientries(l[g].1@)[q]).0 == id;
                assert(ientries(l[g].1@)[q].0 == l[g].1@[q].0@);
                lemma_spec_rows_index(l, n, g, q);
                assert(rows_view(out@)[rows_before(l, g) + q] == row_view(
                    out@[rows_before(l, g) + q],
                ));
                assert(out@[rows_before(l, g) + q].0@ == k && out@[rows_before(l, g) + q].1@
                    == id);
            }
            // uniqueness: distinct indices decompose to distinct slots
            assert forall|i: int, j: int|
                0 <= i < j < out@.len() implies !((#[trigger] out@[i]).0@ == (#[trigger] out@[
                j]).0@ && out@[i].1@ == out@[j].1@) by {
                let (g1, q1) = lemma_rows_before_split(l, n, i);
                let (g2, q2) = lemma_rows_before_split(l, n, j);
                lemma_spec_rows_index(l, n, g1, q1);
                lemma_spec_rows_index(l, n, g2, q2);
                assert(rows_view(out@)[i] == row_view(out@[i]));
                assert(rows_view(out@)[j] == row_view(out@[j]));
                assert(out@[i].0@ == l[g1].0@ && out@[i].1@ == l[g1].1@[q1].0@);
                assert(out@[j].0@ == l[g2].0@ && out@[j].1@ == l[g2].1@[q2].0@);
                if g1 == g2 {
                    lemma_sorted_distinct(ientries(l[g1].1@));
                    assert(q1 != q2);
                    assert(ientries(l[g1].1@)[q1].0 == l[g1].1@[q1].0@);
                    assert(ientries(l[g1].1@)[q2].0 == l[g1].1@[q2].0@);
                } else {
                    assert(oentries(l)[g1].0 == l[g1].0@);
                    assert(oentries(l)[g2].0 == l[g2].0@);
                }
            }
        }
        out
    }
}


impl RumorStore {
    /// The lexicographically least member id in a service group whose id
    /// satisfies the predicate; used by the election tiebreak. Where a
    /// member id is returned it is stored and some run of the predicate
    /// accepted it, and every stored id that sorts before it was refused
    /// by some run.
    pub fn min_member_id_with<P: Fn(&String) -> bool>(&self, service_group: &str, predicate: P)
        -> (r: Option<String>)
        requires
            self.wf(),
            forall|x: &String| call_requires(predicate, (x,)),
        ensures
            r matches Some(m) ==> ({
                &&& self@.contains_key(service_group@)
                &&& self@[service_group@].contains_key(m@)
                &&& exists|x: String| x@ == m@ && call_ensures(predicate, (&x,), true)
                &&& forall|id: Seq<char>|
                    (#[trigger] self@[service_group@].contains_key(id) && lex_lt(
                        bytes_of(id),
                        bytes_of(m@),
                    )) ==> exists|x: String| x@ == id && call_ensures(predicate, (&x,), false)
            }),
            !self@.contains_key(service_group@) ==> r is None,
    {
        let (oi, ofound) = self.search_outer(service_group);
        if !ofound {
            return None;
        }
        proof {
            lemma_sorted_distinct(oentries(self.list@));
            lemma_alist_index(oentries(self.list@), oi as int);
            lemma_sorted_distinct(ientries(self.list@[oi as int].1@));
        }
        let group = &self.list[oi].1;
        let ghost g = group@;
        let mut j: usize = 0;
        while j < group.len()
            invariant
                self.wf(),
                0 <= oi < self.list@.len(),
                group == &self.list[oi as int].1,
                g == group@,
                self.list@[oi as int].0@ == service_group@,
                self@.contains_key(service_group@),
                self@[service_group@] == alist_map(ientries(g)),
                inner_wf(g, service_group@),
                sorted_keys(ientries(g)),
                distinct_keys(ientries(g)),
                forall|x: &String| call_requires(predicate, (x,)),
                0 <= j <= g.len(),
                forall|q: int|
                    0 <= q < j ==> exists|x: String|
                        x@ == (#[trigger] g[q]).0@ && call_ensures(predicate, (&x,), false),
            decreases g.len() - j,
        {
            let candidate = &group[j].0;
            let hit = predicate(candidate);
            if hit {
                let m = candidate.clone();
                proof {
                    assert(ientries(g)[j as int].0 == g[j as int].0@);
                    lemma_alist_index(ientries(g), j as int);
                    assert(call_ensures(predicate, (candidate,), true));
                    assert(exists|x: String|
                        x@ == m@ && call_ensures(predicate, (&x,), true)) by {
                        assert(candidate@ == m@ && call_ensures(predicate, (candidate,), true));
                    }
                    // minimality: stored ids that sort before the hit sit
                    // at earlier positions of the sorted group
                    assert forall|id: Seq<char>|
                        (#[trigger] self@[service_group@].contains_key(id) && lex_lt(
                            bytes_of(id),
                            bytes_of(m@),
                        )) implies exists|x: String|
                        x@ == id && call_ensures(predicate, (&x,), false) by {
                        lemma_alist_dom(ientries(g), id);
                        let q = choose|q: int|
                            0 <= q < ientries(g).len() && (#[trigger] ientries(g)[q]).0 == id;
                        assert(ientries(g)[q].0 == g[q].0@);
                        if q > j {
                            assert(lex_lt(
                                bytes_of(ientries(g)[j as int].0),
                                bytes_of(ientries(g)[q].0),
                            ));
                            crate::text::lemma_lex_trans(
                                bytes_of(id),
                                bytes_of(m@),
                                bytes_of(id),
                            );
                            crate::text::lemma_lex_irrefl(bytes_of(id));
                        } else if q == j {
                            crate::text::lemma_lex_irrefl(bytes_of(id));
                        } else {
                            assert(exists|x: String|
                                x@ == g[q].0@ && call_ensures(predicate, (&x,), false));
                        }
                    }
                }
                return Some(m);
            }
            proof {
                assert(call_ensures(predicate, (candidate,), false));
                assert(exists|x: String|
                    x@ == g[j as int].0@ && call_ensures(predicate, (&x,), false)) by {
                    assert(candidate@ == g[j as int].0@);
                }
            }
            j = j + 1;
        }
        None
    }
}

} // verus!
