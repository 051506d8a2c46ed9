use vstd::prelude::*;

use crate::as_graph::AutonomousSystem;

verus! {

/// The commercial relationship over which a route was learned (or over
/// which it is sent).
#[allow(non_camel_case_types)]
#[derive(Debug, Clone, Copy, PartialEq, Eq, Structural, Hash)]
pub enum Relationships {
    PROVIDERS,
    PEERS,
    CUSTOMERS,
    ORIGIN,
    UNKNOWN,
}

impl Relationships {
    /// Route preference of the relationship: a larger value is preferred.
    /// Provider-learned < peer-learned < customer-learned < originated < unknown.
    pub open spec fn spec_preference(self) -> int {
        match self {
            Relationships::PROVIDERS => 1,
            Relationships::PEERS => 2,
            Relationships::CUSTOMERS => 3,
            Relationships::ORIGIN => 4,
            Relationships::UNKNOWN => 5,
        }
    }

    pub fn preference(&self) -> (r: u8)
        ensures
            r as int == self.spec_preference(),
    {
        match self {
            Relationships::PROVIDERS => 1,
            Relationships::PEERS => 2,
            Relationships::CUSTOMERS => 3,
            Relationships::ORIGIN => 4,
            Relationships::UNKNOWN => 5,
        }
    }
}

/// Mathematical model of an announcement.
pub struct AnnouncementView {
    pub prefix: Seq<char>,
    pub as_path: Seq<u32>,
    pub next_hop_asn: Option<u32>,
    pub seed_asn: Option<u32>,
    pub recv_relationship: Relationships,
    pub timestamp: u64,
    pub withdraw: bool,
    pub bgpsec_next_asn: Option<u32>,
    pub bgpsec_as_path: Seq<u32>,
    pub only_to_customers: Option<u32>,
    pub rovpp_blackhole: bool,
}

/// A route record exchanged between routing processes.
#[derive(Debug, Clone, PartialEq)]
pub struct Announcement {
    pub prefix: String,
    pub as_path: Vec<u32>,
    pub next_hop_asn: Option<u32>,
    pub seed_asn: Option<u32>,
    pub recv_relationship: Relationships,
    pub timestamp: u64,
    pub withdraw: bool,
    pub bgpsec_next_asn: Option<u32>,
    pub bgpsec_as_path: Vec<u32>,
    pub only_to_customers: Option<u32>,
    pub rovpp_blackhole: bool,
}

impl View for Announcement {
    type V = AnnouncementView;

    open spec fn view(&self) -> AnnouncementView {
        AnnouncementView {
            prefix: self.prefix@,
            as_path: self.as_path@,
            next_hop_asn: self.next_hop_asn,
            seed_asn: self.seed_asn,
            recv_relationship: self.recv_relationship,
            timestamp: self.timestamp,
            withdraw: self.withdraw,
            bgpsec_next_asn: self.bgpsec_next_asn,
            bgpsec_as_path: self.bgpsec_as_path@,
            only_to_customers: self.only_to_customers,
            rovpp_blackhole: self.rovpp_blackhole,
        }
    }
}

/// The announcement that a fresh record with this prefix, path and
/// relationship models: a single-hop path is its own next hop and seed.
pub open spec fn fresh_announcement(prefix: Seq<char>, as_path: Seq<u32>, rel: Relationships) -> AnnouncementView {
    AnnouncementView {
        prefix,
        as_path,
        next_hop_asn: if as_path.len() == 1 { Some(as_path[0]) } else { None },
        seed_asn: if as_path.len() == 1 { Some(as_path[0]) } else { None },
        recv_relationship: rel,
        timestamp: 0,
        withdraw: false,
        bgpsec_next_asn: None,
        bgpsec_as_path: Seq::empty(),
        only_to_customers: None,
        rovpp_blackhole: false,
    }
}

/// Copies a path element by element.
fn copy_path(p: &Vec<u32>) -> (r: Vec<u32>)
    ensures
        r@ == p@,
{
    let mut r: Vec<u32> = Vec::new();
    let mut i: usize = 0;
    while i < p.len()
        invariant
            i <= p.len(),
            r@ == p@.take(i as int),
        decreases p.len() - i,
    {
        r.push(p[i]);
        i = i + 1;
        assert(r@ =~= p@.take(i as int));
    }
    assert(r@ =~= p@);
    r
}

/// Tests two paths for equality.
fn same_path(a: &Vec<u32>, b: &Vec<u32>) -> (r: bool)
    ensures
        r == (a@ == b@),
{
    if a.len() != b.len() {
        return false;
    }
    let mut i: usize = 0;
    while i < a.len()
        invariant
            a.len() == b.len(),
            i <= a.len(),
            forall|j: int| 0 <= j < i ==> a@[j] == b@[j],
        decreases a.len() - i,
    {
        if a[i] != b[i] {
            return false;
        }
        i = i + 1;
    }
    assert(a@ =~= b@);
    true
}

/// Tests whether a path holds a given ASN.
fn path_contains(p: &Vec<u32>, asn: u32) -> (r: bool)
    ensures
        r == p@.contains(asn),
{
    let mut i: usize = 0;
    while i < p.len()
        invariant
            i <= p.len(),
            forall|j: int| 0 <= j < i ==> p@[j] != asn,
        decreases p.len() - i,
    {
        if p[i] == asn {
            return true;
        }
        i = i + 1;
    }
    false
}

impl Announcement {
    pub fn new(prefix: String, as_path: Vec<u32>, recv_relationship: Relationships) -> (r: Self)
        ensures
            r@ == fresh_announcement(prefix@, as_path@, recv_relationship),
    {
        let next_hop_asn = if as_path.len() == 1 {
            Some(as_path[0])
        } else {
            None
        };
        let seed_asn = if as_path.len() == 1 {
            Some(as_path[0])
        } else {
            None
        };
        Announcement {
            prefix,
            as_path,
            next_hop_asn,
            seed_asn,
            recv_relationship,
            timestamp: 0,
            withdraw: false,
            bgpsec_next_asn: None,
            bgpsec_as_path: Vec::new(),
            only_to_customers: None,
            rovpp_blackhole: false,
        }
    }

    /// Path-equality: same prefix and same AS path.
    pub fn prefix_path_attributes_eq(&self, other: &Announcement) -> (r: bool)
        ensures
            r == (self.prefix@ == other.prefix@ && self.as_path@ == other.as_path@),
    {
        self.prefix == other.prefix && same_path(&self.as_path, &other.as_path)
    }

    pub fn bgpsec_valid(&self, asn: u32) -> (r: bool)
        ensures
            r == (self.bgpsec_next_asn == Some(asn) && self.bgpsec_as_path@ == self.as_path@),
    {
        match self.bgpsec_next_asn {
            Some(n) => n == asn && same_path(&self.bgpsec_as_path, &self.as_path),
            None => false,
        }
    }

    /// The originating AS: the last element of the path.
    pub fn origin(&self) -> (r: u32)
        requires
            self.as_path@.len() > 0,
        ensures
            r == self.as_path@.last(),
    {
        self.as_path[self.as_path.len() - 1]
    }

    /// A copy with the same model.
    pub fn duplicate(&self) -> (r: Announcement)
        ensures
            r@ == self@,
    {
        Announcement {
            prefix: self.prefix.clone(),
            as_path: copy_path(&self.as_path),
            next_hop_asn: self.next_hop_asn,
            seed_asn: self.seed_asn,
            recv_relationship: self.recv_relationship,
            timestamp: self.timestamp,
            withdraw: self.withdraw,
            bgpsec_next_asn: self.bgpsec_next_asn,
            bgpsec_as_path: copy_path(&self.bgpsec_as_path),
            only_to_customers: self.only_to_customers,
            rovpp_blackhole: self.rovpp_blackhole,
        }
    }
}


/// `a > b` in the order of `Option<u32>`, where `None` is the smallest.
pub open spec fn opt_gt(a: Option<u32>, b: Option<u32>) -> bool {
    match (a, b) {
        (Some(x), Some(y)) => x > y,
        (Some(_), None) => true,
        _ => false,
    }
}

/// Best-path rule: `new` wins over `current` by relationship preference,
/// then by a shorter AS path, then by a smaller next hop.
pub open spec fn is_better(current: AnnouncementView, new: AnnouncementView) -> bool {
    if current.recv_relationship != new.recv_relationship {
        current.recv_relationship.spec_preference() < new.recv_relationship.spec_preference()
    } else if current.as_path.len() != new.as_path.len() {
        current.as_path.len() > new.as_path.len()
    } else {
        opt_gt(current.next_hop_asn, new.next_hop_asn)
    }
}

/// An announcement may be considered at `asn` when its path neither loops
/// through `asn` nor holds the reserved value 0.
pub open spec fn valid_at(a: AnnouncementView, asn: u32) -> bool {
    !a.as_path.contains(asn) && !a.as_path.contains(0u32)
}

/// The form in which `asn` stores an announcement received over `rel`.
pub open spec fn processed(a: AnnouncementView, asn: u32, rel: Relationships) -> AnnouncementView {
    AnnouncementView {
        as_path: seq![asn] + a.as_path,
        next_hop_asn: Some(asn),
        seed_asn: None,
        recv_relationship: rel,
        ..a
    }
}

/// The form in which `asn` sends a selected route over an edge of kind `rel`.
pub open spec fn outbound(a: AnnouncementView, asn: u32, rel: Relationships) -> AnnouncementView {
    AnnouncementView { next_hop_asn: Some(asn), recv_relationship: rel, ..a }
}

/// Routes learned over `learned` may be sent over an edge of kind `target`:
/// to providers and peers only originated and customer-learned routes, to
/// customers every route of a known relationship.
pub open spec fn exportable(learned: Relationships, target: Relationships) -> bool {
    match target {
        Relationships::CUSTOMERS => learned != Relationships::UNKNOWN,
        _ => learned == Relationships::ORIGIN || learned == Relationships::CUSTOMERS,
    }
}

/// The effect of one queued announcement on the table of selected routes.
pub open spec fn select_step(
    rib: Map<Seq<char>, AnnouncementView>,
    a: AnnouncementView,
    asn: u32,
    rel: Relationships,
) -> Map<Seq<char>, AnnouncementView> {
    let k = a.prefix;
    if rib.contains_key(k) && rib[k].seed_asn is Some {
        rib
    } else if !valid_at(a, asn) {
        rib
    } else {
        let p = processed(a, asn, rel);
        if !rib.contains_key(k) || is_better(rib[k], p) {
            rib.insert(k, p)
        } else {
            rib
        }
    }
}

/// The table after the queued announcements `q` were processed in order.
pub open spec fn select_all(
    rib: Map<Seq<char>, AnnouncementView>,
    q: Seq<AnnouncementView>,
    asn: u32,
    rel: Relationships,
) -> Map<Seq<char>, AnnouncementView>
    decreases q.len(),
{
    if q.len() == 0 {
        rib
    } else {
        select_step(select_all(rib, q.drop_last(), asn, rel), q.last(), asn, rel)
    }
}

/// The table that a sequence of entries stands for (later entries win).
pub open spec fn rib_map(s: Seq<AnnouncementView>) -> Map<Seq<char>, AnnouncementView>
    decreases s.len(),
{
    if s.len() == 0 {
        Map::empty()
    } else {
        rib_map(s.drop_last()).insert(s.last().prefix, s.last())
    }
}

pub open spec fn distinct_prefixes(s: Seq<AnnouncementView>) -> bool {
    forall|i: int, j: int| 0 <= i < s.len() && 0 <= j < s.len() && i != j ==> s[i].prefix != s[j].prefix
}

proof fn lemma_rib_map(s: Seq<AnnouncementView>)
    requires
        distinct_prefixes(s),
    ensures
        forall|k: Seq<char>| rib_map(s).contains_key(k) <==> exists|i: int| 0 <= i < s.len() && s[i].prefix == k,
        forall|i: int| 0 <= i < s.len() ==> #[trigger] rib_map(s)[s[i].prefix] == s[i],
        rib_map(s).dom().finite(),
    decreases s.len(),
{
    if s.len() > 0 {
        let t = s.drop_last();
        assert(distinct_prefixes(t));
        lemma_rib_map(t);
        assert forall|k: Seq<char>| rib_map(s).contains_key(k) implies exists|i: int| 0 <= i < s.len() && s[i].prefix == k by {
            if k != s.last().prefix {
                let i = choose|i: int| 0 <= i < t.len() && t[i].prefix == k;
                assert(s[i].prefix == k);
            } else {
                assert(s[s.len() - 1].prefix == k);
            }
        }
        assert forall|k: Seq<char>| (exists|i: int| 0 <= i < s.len() && s[i].prefix == k) implies rib_map(s).contains_key(k) by {
            let i = choose|i: int| 0 <= i < s.len() && s[i].prefix == k;
            if i < s.len() - 1 {
                assert(t[i].prefix == k);
            }
        }
        assert forall|i: int| 0 <= i < s.len() implies #[trigger] rib_map(s)[s[i].prefix] == s[i] by {
            if i < s.len() - 1 {
                assert(t[i] == s[i]);
                assert(rib_map(t)[t[i].prefix] == t[i]);
            }
        }
    }
}

proof fn lemma_rib_map_update(s: Seq<AnnouncementView>, i: int, a: AnnouncementView)
    requires
        distinct_prefixes(s),
        0 <= i < s.len(),
        s[i].prefix == a.prefix,
    ensures
        distinct_prefixes(s.update(i, a)),
        rib_map(s.update(i, a)) == rib_map(s).insert(a.prefix, a),
{
    let u = s.update(i, a);
    assert(distinct_prefixes(u));
    lemma_rib_map(s);
    lemma_rib_map(u);
    assert forall|k: Seq<char>| rib_map(u).contains_key(k) <==> rib_map(s).insert(a.prefix, a).contains_key(k) by {
        if rib_map(u).contains_key(k) {
            let j = choose|j: int| 0 <= j < u.len() && u[j].prefix == k;
            if j != i {
                assert(s[j].prefix == k);
            }
        }
        if rib_map(s).contains_key(k) {
            let j = choose|j: int| 0 <= j < s.len() && s[j].prefix == k;
            assert(u[j].prefix == k);
        }
        if k == a.prefix {
            assert(u[i].prefix == k);
        }
    }
    assert forall|k: Seq<char>| rib_map(u).contains_key(k) implies rib_map(u)[k] == rib_map(s).insert(a.prefix, a)[k] by {
        let j = choose|j: int| 0 <= j < u.len() && u[j].prefix == k;
        assert(rib_map(u)[u[j].prefix] == u[j]);
        if j != i {
            assert(rib_map(s)[s[j].prefix] == s[j]);
        }
    }
    assert(rib_map(u) =~= rib_map(s).insert(a.prefix, a));
}

proof fn lemma_rib_map_push(s: Seq<AnnouncementView>, a: AnnouncementView)
    requires
        distinct_prefixes(s),
        !rib_map(s).contains_key(a.prefix),
    ensures
        distinct_prefixes(s.push(a)),
        rib_map(s.push(a)) == rib_map(s).insert(a.prefix, a),
{
    lemma_rib_map(s);
    assert forall|i: int| 0 <= i < s.len() implies s[i].prefix != a.prefix by {
        assert(rib_map(s).contains_key(s[i].prefix));
    }
    assert(s.push(a).drop_last() =~= s);
}

/// The table of selected routes: at most one per prefix.
#[derive(Debug, Clone)]
pub struct LocalRIB {
    pub data: Vec<Announcement>,
}

impl LocalRIB {
    /// The entries, in the order in which their prefixes were first stored.
    pub open spec fn entries(&self) -> Seq<AnnouncementView> {
        self.data@.map_values(|a: Announcement| a@)
    }

    pub open spec fn wf(&self) -> bool {
        distinct_prefixes(self.entries())
    }

    /// The table as a map from prefix to selected route.
    pub open spec fn view(&self) -> Map<Seq<char>, AnnouncementView> {
        rib_map(self.entries())
    }

    pub fn new() -> (r: Self)
        ensures
            r.wf(),
            r.view() == Map::<Seq<char>, AnnouncementView>::empty(),
    {
        let r = LocalRIB { data: Vec::new() };
        assert(r.entries() =~= Seq::<AnnouncementView>::empty());
        r
    }

    /// Position of the entry for `prefix`.
    pub fn find(&self, prefix: &String) -> (r: Option<usize>)
        requires
            self.wf(),
        ensures
            match r {
                Some(i) => i < self.data@.len() && self.data@[i as int].prefix@ == prefix@
                    && self.view().contains_key(prefix@) && self.view()[prefix@] == self.data@[i as int]@,
                None => !self.view().contains_key(prefix@),
            },
    {
        let mut i: usize = 0;
        while i < self.data.len()
            invariant
                self.wf(),
                i <= self.data@.len(),
                forall|j: int| 0 <= j < i ==> self.data@[j].prefix@ != prefix@,
            decreases self.data.len() - i,
        {
            if self.data[i].prefix == *prefix {
                proof {
                    lemma_rib_map(self.entries());
                    assert(self.entries()[i as int] == self.data@[i as int]@);
                }
                return Some(i);
            }
            i = i + 1;
        }
        proof {
            lemma_rib_map(self.entries());
            if self.view().contains_key(prefix@) {
                let j = choose|j: int| 0 <= j < self.entries().len() && self.entries()[j].prefix == prefix@;
                assert(self.entries()[j] == self.data@[j]@);
            }
        }
        None
    }

    /// The selected route for `prefix`, if any.
    pub fn get_ann(&self, prefix: &String) -> (r: Option<&Announcement>)
        requires
            self.wf(),
        ensures
            r matches Some(a) ==> self.view().contains_key(prefix@) && a@ == self.view()[prefix@],
            r is None ==> !self.view().contains_key(prefix@),
    {
        match self.find(prefix) {
            Some(i) => Some(&self.data[i]),
            None => None,
        }
    }

    /// Stores `ann` as the selected route of its prefix, replacing any.
    pub fn add_ann(&mut self, ann: Announcement)
        requires
            old(self).wf(),
        ensures
            final(self).wf(),
            final(self).view() == old(self).view().insert(ann.prefix@, ann@),
    {
        let ghost a = ann@;
        match self.find(&ann.prefix) {
            Some(i) => {
                proof {
                    assert(self.entries()[i as int].prefix == a.prefix);
                    lemma_rib_map_update(self.entries(), i as int, a);
                }
                self.data.set(i, ann);
                assert(self.entries() =~= old(self).entries().update(i as int, a));
            }
            None => {
                proof {
                    lemma_rib_map_push(self.entries(), a);
                }
                self.data.push(ann);
                assert(self.entries() =~= old(self).entries().push(a));
            }
        }
    }
}


/// The announcements of `s` with prefix `p`, in order.
pub open spec fn with_prefix(s: Seq<AnnouncementView>, p: Seq<char>) -> Seq<AnnouncementView>
    decreases s.len(),
{
    if s.len() == 0 {
        Seq::empty()
    } else if s.last().prefix == p {
        with_prefix(s.drop_last(), p).push(s.last())
    } else {
        with_prefix(s.drop_last(), p)
    }
}

/// Candidates received this round, in order of arrival.
#[derive(Debug, Clone)]
pub struct RecvQueue {
    pub data: Vec<Announcement>,
}

impl RecvQueue {
    pub open spec fn view(&self) -> Seq<AnnouncementView> {
        self.data@.map_values(|a: Announcement| a@)
    }

    pub fn new() -> (r: Self)
        ensures
            r.view() == Seq::<AnnouncementView>::empty(),
    {
        let r = RecvQueue { data: Vec::new() };
        assert(r.view() =~= Seq::<AnnouncementView>::empty());
        r
    }

    pub fn add_ann(&mut self, ann: Announcement)
        ensures
            final(self).view() == old(self).view().push(ann@),
    {
        self.data.push(ann);
        assert(self.view() =~= old(self).view().push(ann@));
    }

    /// The queued announcements for `prefix`, in order of arrival.
    pub fn get_ann_list(&self, prefix: &String) -> (r: Vec<Announcement>)
        ensures
            r@.map_values(|a: Announcement| a@) == with_prefix(self.view(), prefix@),
    {
        let mut r: Vec<Announcement> = Vec::new();
        let mut i: usize = 0;
        while i < self.data.len()
            invariant
                i <= self.data@.len(),
                r@.map_values(|a: Announcement| a@) == with_prefix(self.view().take(i as int), prefix@),
            decreases self.data.len() - i,
        {
            let ghost before = r@.map_values(|a: Announcement| a@);
            assert(self.view().take(i + 1).drop_last() =~= self.view().take(i as int));
            if self.data[i].prefix == *prefix {
                let a = self.data[i].duplicate();
                r.push(a);
                assert(r@.map_values(|a: Announcement| a@) =~= before.push(a@));
            }
            i = i + 1;
        }
        assert(self.view().take(i as int) =~= self.view());
        r
    }
}

/// Why a routing operation was refused.
#[derive(Debug, Clone, Copy, PartialEq, Eq, Structural)]
pub enum BgpError {
    /// The prefix already has a selected route.
    SeedConflict,
}

/// The routes that `asn` sends over edges of kind `rel` to `nbrs`, given its
/// selected routes `entries`: for each exportable entry in order, one copy
/// per neighbour.
pub open spec fn exports(
    entries: Seq<AnnouncementView>,
    nbrs: Seq<u32>,
    asn: u32,
    rel: Relationships,
) -> Seq<(u32, AnnouncementView)>
    decreases entries.len(),
{
    if entries.len() == 0 {
        Seq::empty()
    } else {
        let e = entries.last();
        exports(entries.drop_last(), nbrs, asn, rel) + if exportable(e.recv_relationship, rel) {
            nbrs.map_values(|n: u32| (n, outbound(e, asn, rel)))
        } else {
            Seq::empty()
        }
    }
}

/// Model of a list of outbound messages.
pub open spec fn messages_view(m: Seq<(u32, Announcement)>) -> Seq<(u32, AnnouncementView)> {
    m.map_values(|x: (u32, Announcement)| (x.0, x.1@))
}

/// The BGP decision process of one AS.
#[derive(Debug, Clone)]
pub struct BGP {
    pub local_rib: LocalRIB,
    pub recv_q: RecvQueue,
    pub asn: u32,
    pub providers: Vec<u32>,
    pub customers: Vec<u32>,
    pub peers: Vec<u32>,
}

impl BGP {
    pub open spec fn wf(&self) -> bool {
        self.local_rib.wf()
    }

    /// Same AS and neighbours.
    pub open spec fn same_node(&self, other: &BGP) -> bool {
        &&& self.asn == other.asn
        &&& self.providers@ == other.providers@
        &&& self.customers@ == other.customers@
        &&& self.peers@ == other.peers@
    }

    pub fn new(autonomous_system: &AutonomousSystem) -> (r: Self)
        ensures
            r.wf(),
            r.asn == autonomous_system.asn,
            r.providers@ == autonomous_system.providers@,
            r.customers@ == autonomous_system.customers@,
            r.peers@ == autonomous_system.peers@,
            r.local_rib.view() == Map::<Seq<char>, AnnouncementView>::empty(),
            r.recv_q.view() == Seq::<AnnouncementView>::empty(),
    {
        BGP {
            local_rib: LocalRIB::new(),
            recv_q: RecvQueue::new(),
            asn: autonomous_system.asn,
            providers: copy_path(&autonomous_system.providers),
            customers: copy_path(&autonomous_system.customers),
            peers: copy_path(&autonomous_system.peers),
        }
    }

    /// Installs an originated route; refused when the prefix already has one.
    pub fn seed_ann(&mut self, ann: Announcement) -> (r: Result<(), BgpError>)
        requires
            old(self).wf(),
        ensures
            final(self).wf(),
            final(self).same_node(old(self)),
            final(self).recv_q == old(self).recv_q,
            r is Err <==> old(self).local_rib.view().contains_key(ann.prefix@),
            r is Err ==> final(self).local_rib.view() == old(self).local_rib.view(),
            r is Ok ==> final(self).local_rib.view() == old(self).local_rib.view().insert(ann.prefix@, ann@),
    {
        if self.local_rib.find(&ann.prefix).is_some() {
            return Err(BgpError::SeedConflict);
        }
        self.local_rib.add_ann(ann);
        Ok(())
    }

    /// Queues a candidate received from a neighbour.
    pub fn receive_ann(&mut self, ann: Announcement)
        ensures
            final(self).local_rib == old(self).local_rib,
            final(self).same_node(old(self)),
            final(self).recv_q.view() == old(self).recv_q.view().push(ann@),
    {
        self.recv_q.add_ann(ann);
    }

    fn valid_ann(&self, ann: &Announcement) -> (r: bool)
        ensures
            r == valid_at(ann@, self.asn),
    {
        !path_contains(&ann.as_path, self.asn) && !path_contains(&ann.as_path, 0)
    }

    /// Best-path rule: whether `new` wins over `current`.
    pub fn is_better_ann(&self, current: &Announcement, new: &Announcement) -> (r: bool)
        ensures
            r == is_better(current@, new@),
    {
        if current.recv_relationship != new.recv_relationship {
            return current.recv_relationship.preference() < new.recv_relationship.preference();
        }
        if current.as_path.len() != new.as_path.len() {
            return current.as_path.len() > new.as_path.len();
        }
        match (current.next_hop_asn, new.next_hop_asn) {
            (Some(x), Some(y)) => x > y,
            (Some(_), None) => true,
            _ => false,
        }
    }

    /// The form in which this AS stores `ann` received over `recv_relationship`.
    pub fn copy_and_process(&self, ann: &Announcement, recv_relationship: Relationships) -> (r: Announcement)
        ensures
            r@ == processed(ann@, self.asn, recv_relationship),
    {
        let mut as_path: Vec<u32> = Vec::new();
        as_path.push(self.asn);
        let mut i: usize = 0;
        while i < ann.as_path.len()
            invariant
                i <= ann.as_path@.len(),
                as_path@ == seq![self.asn] + ann.as_path@.take(i as int),
            decreases ann.as_path.len() - i,
        {
            as_path.push(ann.as_path[i]);
            i = i + 1;
            assert(as_path@ =~= seq![self.asn] + ann.as_path@.take(i as int));
        }
        assert(ann.as_path@.take(i as int) =~= ann.as_path@);
        let r = Announcement {
            prefix: ann.prefix.clone(),
            as_path,
            next_hop_asn: Some(self.asn),
            seed_asn: None,
            recv_relationship,
            timestamp: ann.timestamp,
            withdraw: ann.withdraw,
            bgpsec_next_asn: ann.bgpsec_next_asn,
            bgpsec_as_path: copy_path(&ann.bgpsec_as_path),
            only_to_customers: ann.only_to_customers,
            rovpp_blackhole: ann.rovpp_blackhole,
        };
        assert(r@ =~= processed(ann@, self.asn, recv_relationship));
        r
    }

    /// Runs the decision process on every queued candidate, in order of
    /// arrival, as received over `from_rel`; then empties the queue if
    /// `reset_q`.
    pub fn process_incoming_anns(&mut self, from_rel: Relationships, reset_q: bool)
        requires
            old(self).wf(),
        ensures
            final(self).wf(),
            final(self).same_node(old(self)),
            final(self).local_rib.view() == select_all(old(self).local_rib.view(), old(self).recv_q.view(), old(self).asn, from_rel),
            forall|k: Seq<char>| #[trigger] final(self).local_rib.view().contains_key(k) && !(old(self).local_rib.view().contains_key(k)
                && final(self).local_rib.view()[k] == old(self).local_rib.view()[k])
                ==> final(self).local_rib.view()[k].seed_asn is None,
            reset_q ==> final(self).recv_q.view() == Seq::<AnnouncementView>::empty(),
            !reset_q ==> final(self).recv_q.view() == old(self).recv_q.view(),
    {
        let ghost rib0 = self.local_rib.view();
        let ghost q = self.recv_q.view();
        let mut i: usize = 0;
        while i < self.recv_q.data.len()
            invariant
                self.wf(),
                self.same_node(old(self)),
                self.recv_q == old(self).recv_q,
                q == self.recv_q.view(),
                i <= q.len(),
                self.local_rib.view() == select_all(rib0, q.take(i as int), self.asn, from_rel),
            decreases self.recv_q.data.len() - i,
        {
            assert(q.take(i + 1).drop_last() =~= q.take(i as int));
            assert(q[i as int] == self.recv_q.data@[i as int]@);
            let found = self.local_rib.find(&self.recv_q.data[i].prefix);
            let seeded = match found {
                Some(j) => self.local_rib.data[j].seed_asn.is_some(),
                None => false,
            };
            if !seeded && self.valid_ann(&self.recv_q.data[i]) {
                let candidate = self.copy_and_process(&self.recv_q.data[i], from_rel);
                let install = match found {
                    Some(j) => self.is_better_ann(&self.local_rib.data[j], &candidate),
                    None => true,
                };
                if install {
                    self.local_rib.add_ann(candidate);
                }
            }
            i = i + 1;
        }
        assert(q.take(i as int) =~= q);
        proof {
            assert forall|k: Seq<char>| #[trigger] self.local_rib.view().contains_key(k) && !(rib0.contains_key(k)
                && self.local_rib.view()[k] == rib0[k]) implies self.local_rib.view()[k].seed_asn is None by {
                lemma_select_all_entry(rib0, q, self.asn, from_rel, k);
            }
        }
        if reset_q {
            self.reset_recv_q();
        }
    }

    /// Sends the originated and customer-learned routes to the providers.
    pub fn propagate_to_providers(&self) -> (r: Vec<(u32, Announcement)>)
        ensures
            messages_view(r@) == exports(self.local_rib.entries(), self.providers@, self.asn, Relationships::PROVIDERS),
    {
        self.propagate(&self.providers, Relationships::PROVIDERS)
    }

    /// Sends every route of a known relationship to the customers.
    pub fn propagate_to_customers(&self) -> (r: Vec<(u32, Announcement)>)
        ensures
            messages_view(r@) == exports(self.local_rib.entries(), self.customers@, self.asn, Relationships::CUSTOMERS),
    {
        self.propagate(&self.customers, Relationships::CUSTOMERS)
    }

    /// Sends the originated and customer-learned routes to the peers.
    pub fn propagate_to_peers(&self) -> (r: Vec<(u32, Announcement)>)
        ensures
            messages_view(r@) == exports(self.local_rib.entries(), self.peers@, self.asn, Relationships::PEERS),
    {
        self.propagate(&self.peers, Relationships::PEERS)
    }

    fn may_export(learned: Relationships, target: Relationships) -> (r: bool)
        ensures
            r == exportable(learned, target),
    {
        match target {
            Relationships::CUSTOMERS => learned != Relationships::UNKNOWN,
            _ => learned == Relationships::ORIGIN || learned == Relationships::CUSTOMERS,
        }
    }

    fn outbound_copy(&self, ann: &Announcement, rel_type: Relationships) -> (r: Announcement)
        ensures
            r@ == outbound(ann@, self.asn, rel_type),
    {
        let mut r = ann.duplicate();
        r.next_hop_asn = Some(self.asn);
        r.recv_relationship = rel_type;
        r
    }

    fn propagate(&self, neighbors: &Vec<u32>, rel_type: Relationships) -> (r: Vec<(u32, Announcement)>)
        ensures
            messages_view(r@) == exports(self.local_rib.entries(), neighbors@, self.asn, rel_type),
    {
        let ghost entries = self.local_rib.entries();
        let ghost nbrs = neighbors@;
        let mut out: Vec<(u32, Announcement)> = Vec::new();
        let mut i: usize = 0;
        assert(messages_view(out@) =~= exports(entries.take(0), nbrs, self.asn, rel_type));
        while i < self.local_rib.data.len()
            invariant
                entries == self.local_rib.entries(),
                nbrs == neighbors@,
                i <= entries.len(),
                messages_view(out@) == exports(entries.take(i as int), nbrs, self.asn, rel_type),
            decreases self.local_rib.data.len() - i,
        {
            let e = &self.local_rib.data[i];
            assert(entries.take(i + 1).drop_last() =~= entries.take(i as int));
            assert(entries[i as int] == e@);
            let ghost base = messages_view(out@);
            if Self::may_export(e.recv_relationship, rel_type) {
                let mut j: usize = 0;
                while j < neighbors.len()
                    invariant
                        j <= nbrs.len(),
                        nbrs == neighbors@,
                        messages_view(out@) == base + nbrs.take(j as int).map_values(
                            |n: u32| (n, outbound(e@, self.asn, rel_type)),
                        ),
                    decreases neighbors.len() - j,
                {
                    let ann = self.outbound_copy(e, rel_type);
                    let ghost prev = out@;
                    let ghost item = (nbrs[j as int], ann@);
                    out.push((neighbors[j], ann));
                    assert(messages_view(out@) =~= messages_view(prev).push(item));
                    assert(nbrs.take(j + 1) =~= nbrs.take(j as int).push(nbrs[j as int]));
                    j = j + 1;
                    assert(messages_view(out@) =~= base + nbrs.take(j as int).map_values(
                        |n: u32| (n, outbound(e@, self.asn, rel_type)),
                    ));
                }
                assert(nbrs.take(j as int) =~= nbrs);
            } else {
                assert(messages_view(out@) =~= base + Seq::<(u32, AnnouncementView)>::empty());
            }
            i = i + 1;
        }
        assert(entries.take(i as int) =~= entries);
        out
    }

    fn reset_recv_q(&mut self)
        ensures
            final(self).local_rib == old(self).local_rib,
            final(self).same_node(old(self)),
            final(self).recv_q.view() == Seq::<AnnouncementView>::empty(),
    {
        self.recv_q = RecvQueue::new();
    }
}


/// The announcements of `m` addressed to `asn`, in order.
pub open spec fn addressed_to(m: Seq<(u32, AnnouncementView)>, asn: u32) -> Seq<AnnouncementView>
    decreases m.len(),
{
    if m.len() == 0 {
        Seq::empty()
    } else if m.last().0 == asn {
        addressed_to(m.drop_last(), asn).push(m.last().1)
    } else {
        addressed_to(m.drop_last(), asn)
    }
}

/// No two processes of `procs` belong to the same AS.
pub open spec fn distinct_speakers(procs: Seq<BGP>) -> bool {
    forall|i: int, j: int| 0 <= i < procs.len() && 0 <= j < procs.len() && i != j ==> procs[i].asn != procs[j].asn
}

/// Position of the process of `asn` in `procs`.
fn find_speaker(procs: &Vec<BGP>, asn: u32) -> (r: Option<usize>)
    ensures
        r matches Some(i) ==> i < procs@.len() && procs@[i as int].asn == asn,
        r is None ==> forall|j: int| 0 <= j < procs@.len() ==> procs@[j].asn != asn,
{
    let mut i: usize = 0;
    while i < procs.len()
        invariant
            i <= procs@.len(),
            forall|j: int| 0 <= j < i ==> procs@[j].asn != asn,
        decreases procs.len() - i,
    {
        if procs[i].asn == asn {
            return Some(i);
        }
        i = i + 1;
    }
    None
}

/// Hands each outbound message to `receive_ann` of the process of the AS
/// it is addressed to; a message for an AS without a process in `procs` is
/// dropped.
pub fn deliver(procs: &mut Vec<BGP>, messages: &Vec<(u32, Announcement)>)
    requires
        distinct_speakers(old(procs)@),
    ensures
        final(procs)@.len() == old(procs)@.len(),
        forall|i: int| 0 <= i < final(procs)@.len() ==> {
            &&& (#[trigger] final(procs)@[i]).local_rib == old(procs)@[i].local_rib
            &&& final(procs)@[i].same_node(&old(procs)@[i])
            &&& final(procs)@[i].recv_q.view() == old(procs)@[i].recv_q.view() + addressed_to(
                messages_view(messages@),
                old(procs)@[i].asn,
            )
        },
{
    let ghost m = messages_view(messages@);
    let mut k: usize = 0;
    while k < messages.len()
        invariant
            distinct_speakers(old(procs)@),
            k <= messages@.len(),
            m == messages_view(messages@),
            procs@.len() == old(procs)@.len(),
            forall|i: int| 0 <= i < procs@.len() ==> {
                &&& (#[trigger] procs@[i]).local_rib == old(procs)@[i].local_rib
                &&& procs@[i].same_node(&old(procs)@[i])
                &&& procs@[i].recv_q.view() == old(procs)@[i].recv_q.view() + addressed_to(m.take(k as int), old(procs)@[i].asn)
            },
        decreases messages.len() - k,
    {
        let target = messages[k].0;
        assert(m.take(k + 1).drop_last() =~= m.take(k as int));
        assert(m.take(k + 1).last() == (target, messages@[k as int].1@));
        let found = find_speaker(procs, target);
        let ghost before = procs@;
        if let Some(i) = found {
            let ann = messages[k].1.duplicate();
            procs[i].receive_ann(ann);
            proof {
                assert(before[i as int].same_node(&old(procs)@[i as int]));
                assert(old(procs)@[i as int].asn == target);
                assert(addressed_to(m.take(k + 1), target) == addressed_to(m.take(k as int), target).push(messages@[k as int].1@));
                assert forall|j: int| 0 <= j < procs@.len() implies {
                    &&& (#[trigger] procs@[j]).local_rib == old(procs)@[j].local_rib
                    &&& procs@[j].same_node(&old(procs)@[j])
                    &&& procs@[j].recv_q.view() == old(procs)@[j].recv_q.view() + addressed_to(m.take(k + 1), old(procs)@[j].asn)
                } by {
                    if j == i {
                        assert(procs@[j].recv_q.view() == before[j].recv_q.view().push(messages@[k as int].1@));
                        assert(procs@[j].recv_q.view() =~= old(procs)@[j].recv_q.view() + addressed_to(m.take(k + 1), old(procs)@[j].asn));
                    } else {
                        assert(procs@[j] == before[j]);
                        assert(before[j].same_node(&old(procs)@[j]));
                        assert(before[i as int].same_node(&old(procs)@[i as int]));
                        assert(old(procs)@[j].asn != target);
                    }
                }
            }
        } else {
            proof {
                assert forall|j: int| 0 <= j < procs@.len() implies
                    (#[trigger] procs@[j]).recv_q.view() == old(procs)@[j].recv_q.view() + addressed_to(m.take(k + 1), old(procs)@[j].asn) by {
                    assert(before[j].same_node(&old(procs)@[j]));
                    assert(old(procs)@[j].asn != target);
                }
            }
        }
        k = k + 1;
    }
    assert(m.take(k as int) =~= m);
}

/// Neither announcement is preferred over the other.
pub open spec fn tied(x: AnnouncementView, y: AnnouncementView) -> bool {
    !is_better(x, y) && !is_better(y, x)
}

proof fn lemma_better_order(x: AnnouncementView, y: AnnouncementView, z: AnnouncementView)
    ensures
        !is_better(x, y) && !is_better(y, z) ==> !is_better(x, z),
        is_better(x, y) && !is_better(x, z) ==> !is_better(y, z),
        !is_better(x, x),
{
}

/// `a` is a queued candidate that `asn` may select for prefix `k`.
pub open spec fn candidate_for(q: Seq<AnnouncementView>, j: int, k: Seq<char>, asn: u32) -> bool {
    0 <= j < q.len() && q[j].prefix == k && valid_at(q[j], asn)
}

/// What processing a queue does to the entry of one prefix `k`: a seeded
/// entry stays; otherwise the result is the old entry or a processed valid
/// candidate, present exactly when one of them is, and no candidate nor the
/// old entry is preferred over it.
pub proof fn lemma_select_all_entry(
    rib: Map<Seq<char>, AnnouncementView>,
    q: Seq<AnnouncementView>,
    asn: u32,
    rel: Relationships,
    k: Seq<char>,
)
    ensures
        ({
            let r = select_all(rib, q, asn, rel);
            &&& rib.contains_key(k) && rib[k].seed_asn is Some ==> r.contains_key(k) && r[k] == rib[k]
            &&& !(rib.contains_key(k) && rib[k].seed_asn is Some) ==> {
                &&& r.contains_key(k) <==> (rib.contains_key(k) || exists|j: int| #[trigger] candidate_for(q, j, k, asn))
                &&& r.contains_key(k) ==> ((rib.contains_key(k) && r[k] == rib[k]) || exists|j: int|
                    #[trigger] candidate_for(q, j, k, asn) && r[k] == processed(q[j], asn, rel))
                &&& r.contains_key(k) && rib.contains_key(k) ==> !is_better(r[k], rib[k])
                &&& forall|j: int| #[trigger] candidate_for(q, j, k, asn) ==> !is_better(r[k], processed(q[j], asn, rel))
                &&& r.contains_key(k) ==> r[k].seed_asn is None || (rib.contains_key(k) && r[k] == rib[k])
            }
        }),
    decreases q.len(),
{
    if q.len() > 0 {
        let p = q.drop_last();
        lemma_select_all_entry(rib, p, asn, rel, k);
        let r0 = select_all(rib, p, asn, rel);
        let r = select_all(rib, q, asn, rel);
        let a = q.last();
        let n = q.len() - 1;
        assert forall|j: int| #[trigger] candidate_for(p, j, k, asn) implies candidate_for(q, j, k, asn) && q[j] == p[j] by {}
        assert forall|j: int| #[trigger] candidate_for(q, j, k, asn) && j < n implies candidate_for(p, j, k, asn) by {}
        if !(rib.contains_key(k) && rib[k].seed_asn is Some) {
            if a.prefix == k && valid_at(a, asn) && !(r0.contains_key(k) && r0[k].seed_asn is Some) {
                assert(candidate_for(q, n, k, asn));
                let pa = processed(a, asn, rel);
                if r0.contains_key(k) {
                    lemma_better_order(r0[k], pa, pa);
                    if is_better(r0[k], pa) {
                        assert forall|j: int| #[trigger] candidate_for(q, j, k, asn) implies !is_better(r[k], processed(q[j], asn, rel)) by {
                            if j < n {
                                assert(candidate_for(p, j, k, asn));
                                lemma_better_order(r0[k], pa, processed(q[j], asn, rel));
                            }
                        }
                        if rib.contains_key(k) {
                            lemma_better_order(r0[k], pa, rib[k]);
                        }
                    } else {
                        assert forall|j: int| #[trigger] candidate_for(q, j, k, asn) implies !is_better(r[k], processed(q[j], asn, rel)) by {
                            if j < n {
                                assert(candidate_for(p, j, k, asn));
                            }
                        }
                    }
                } else {
                    assert forall|j: int| #[trigger] candidate_for(q, j, k, asn) implies !is_better(r[k], processed(q[j], asn, rel)) by {
                        if j < n {
                            assert(candidate_for(p, j, k, asn));
                        }
                    }
                }
            } else {
                // the entry of `k` in `r0` carries no seed, so `a` is no candidate for `k`
                assert(!(a.prefix == k && valid_at(a, asn)));
                assert forall|j: int| #[trigger] candidate_for(q, j, k, asn) implies !is_better(r[k], processed(q[j], asn, rel)) by {
                    assert(j < n);
                    assert(candidate_for(p, j, k, asn));
                }
                if a.prefix != k {
                    assert(r =~= r0 || r == r0.insert(a.prefix, processed(a, asn, rel)));
                }
                assert(r.contains_key(k) == r0.contains_key(k));
            }
        }
    }
}

/// A seeded entry is never displaced by processing queued announcements.
pub proof fn lemma_seed_immunity(
    rib: Map<Seq<char>, AnnouncementView>,
    q: Seq<AnnouncementView>,
    asn: u32,
    rel: Relationships,
)
    ensures
        forall|k: Seq<char>| rib.contains_key(k) && (#[trigger] rib[k]).seed_asn is Some ==> select_all(rib, q, asn, rel).contains_key(k)
            && select_all(rib, q, asn, rel)[k] == rib[k],
{
    assert forall|k: Seq<char>| rib.contains_key(k) && (#[trigger] rib[k]).seed_asn is Some implies select_all(rib, q, asn, rel).contains_key(k)
        && select_all(rib, q, asn, rel)[k] == rib[k] by {
        lemma_select_all_entry(rib, q, asn, rel, k);
    }
}

/// Every entry that processing installs was received without `asn` (nor 0)
/// in its path: `asn` appears in the installed path only as its first hop.
pub proof fn lemma_loop_rejection(
    rib: Map<Seq<char>, AnnouncementView>,
    q: Seq<AnnouncementView>,
    asn: u32,
    rel: Relationships,
)
    ensures
        forall|k: Seq<char>| #[trigger] select_all(rib, q, asn, rel).contains_key(k) && !(rib.contains_key(k)
            && select_all(rib, q, asn, rel)[k] == rib[k]) ==> {
            let e = select_all(rib, q, asn, rel)[k];
            &&& e.as_path.len() > 0 && e.as_path[0] == asn
            &&& !e.as_path.drop_first().contains(asn)
        },
{
    assert forall|k: Seq<char>| #[trigger] select_all(rib, q, asn, rel).contains_key(k) && !(rib.contains_key(k)
        && select_all(rib, q, asn, rel)[k] == rib[k]) implies {
        let e = select_all(rib, q, asn, rel)[k];
        &&& e.as_path.len() > 0 && e.as_path[0] == asn
        &&& !e.as_path.drop_first().contains(asn)
    } by {
        lemma_select_all_entry(rib, q, asn, rel, k);
        let j = choose|j: int| #[trigger] candidate_for(q, j, k, asn) && select_all(rib, q, asn, rel)[k] == processed(q[j], asn, rel);
        let e = select_all(rib, q, asn, rel)[k];
        assert(e.as_path.drop_first() =~= q[j].as_path);
    }
}


/// Equally preferred candidates of one prefix are identical once processed,
/// and so is any candidate equally preferred to the unseeded entry in `rib`.
pub open spec fn ties_identical(
    rib: Map<Seq<char>, AnnouncementView>,
    q: Seq<AnnouncementView>,
    asn: u32,
    rel: Relationships,
) -> bool {
    &&& forall|i: int, j: int|
        #[trigger] candidate_for(q, i, q[j].prefix, asn) && #[trigger] candidate_for(q, j, q[i].prefix, asn)
            && tied(processed(q[i], asn, rel), processed(q[j], asn, rel))
            ==> processed(q[i], asn, rel) == processed(q[j], asn, rel)
    &&& forall|i: int|
        #[trigger] candidate_for(q, i, q[i].prefix, asn) && rib.contains_key(q[i].prefix)
            && tied(rib[q[i].prefix], processed(q[i], asn, rel)) ==> rib[q[i].prefix] == processed(q[i], asn, rel)
}

/// The result for prefix `k` of queue `q1` is preferred at least as much as
/// the result of any queue `q2` whose candidates all stand in `q1`.
proof fn lemma_result_dominates(
    rib: Map<Seq<char>, AnnouncementView>,
    q1: Seq<AnnouncementView>,
    q2: Seq<AnnouncementView>,
    asn: u32,
    rel: Relationships,
    k: Seq<char>,
)
    requires
        forall|a: AnnouncementView| q2.contains(a) ==> q1.contains(a),
        !(rib.contains_key(k) && rib[k].seed_asn is Some),
        select_all(rib, q1, asn, rel).contains_key(k),
        select_all(rib, q2, asn, rel).contains_key(k),
    ensures
        !is_better(select_all(rib, q1, asn, rel)[k], select_all(rib, q2, asn, rel)[k]),
        select_all(rib, q2, asn, rel)[k] == rib[k] && rib.contains_key(k) || exists|j: int|
            #[trigger] candidate_for(q1, j, k, asn) && select_all(rib, q2, asn, rel)[k] == processed(q1[j], asn, rel),
{
    lemma_select_all_entry(rib, q1, asn, rel, k);
    lemma_select_all_entry(rib, q2, asn, rel, k);
    let r2 = select_all(rib, q2, asn, rel);
    if !(rib.contains_key(k) && r2[k] == rib[k]) {
        let m = choose|m: int| #[trigger] candidate_for(q2, m, k, asn) && r2[k] == processed(q2[m], asn, rel);
        assert(q2.contains(q2[m]));
        let j = choose|j: int| 0 <= j < q1.len() && q1[j] == q2[m];
        assert(candidate_for(q1, j, k, asn));
    }
}

/// Two queues with the same candidates give prefix `k` the same entry.
proof fn lemma_order_irrelevant_at(
    rib: Map<Seq<char>, AnnouncementView>,
    q1: Seq<AnnouncementView>,
    q2: Seq<AnnouncementView>,
    asn: u32,
    rel: Relationships,
    k: Seq<char>,
)
    requires
        forall|a: AnnouncementView| q1.contains(a) <==> q2.contains(a),
        ties_identical(rib, q1, asn, rel),
    ensures
        select_all(rib, q1, asn, rel).contains_key(k) == select_all(rib, q2, asn, rel).contains_key(k),
        select_all(rib, q1, asn, rel).contains_key(k) ==> select_all(rib, q1, asn, rel)[k] == select_all(rib, q2, asn, rel)[k],
{
    let r1 = select_all(rib, q1, asn, rel);
    let r2 = select_all(rib, q2, asn, rel);
    lemma_select_all_entry(rib, q1, asn, rel, k);
    lemma_select_all_entry(rib, q2, asn, rel, k);
    if !(rib.contains_key(k) && rib[k].seed_asn is Some) {
        if exists|j: int| #[trigger] candidate_for(q1, j, k, asn) {
            let j = choose|j: int| #[trigger] candidate_for(q1, j, k, asn);
            assert(q1.contains(q1[j]));
            let m = choose|m: int| 0 <= m < q2.len() && q2[m] == q1[j];
            assert(candidate_for(q2, m, k, asn));
        }
        if exists|m: int| #[trigger] candidate_for(q2, m, k, asn) {
            let m = choose|m: int| #[trigger] candidate_for(q2, m, k, asn);
            assert(q2.contains(q2[m]));
            let j = choose|j: int| 0 <= j < q1.len() && q1[j] == q2[m];
            assert(candidate_for(q1, j, k, asn));
        }
        if r1.contains_key(k) {
            lemma_result_dominates(rib, q1, q2, asn, rel, k);
            lemma_result_dominates(rib, q2, q1, asn, rel, k);
            assert(tied(r1[k], r2[k]));
            let from_rib1 = rib.contains_key(k) && r1[k] == rib[k];
            let from_rib2 = rib.contains_key(k) && r2[k] == rib[k];
            if !from_rib1 && !from_rib2 {
                let j1 = choose|j: int| #[trigger] candidate_for(q1, j, k, asn) && r1[k] == processed(q1[j], asn, rel);
                let j2 = choose|j: int| #[trigger] candidate_for(q1, j, k, asn) && r2[k] == processed(q1[j], asn, rel);
                assert(candidate_for(q1, j1, q1[j2].prefix, asn));
                assert(candidate_for(q1, j2, q1[j1].prefix, asn));
            } else if !from_rib1 {
                let j1 = choose|j: int| #[trigger] candidate_for(q1, j, k, asn) && r1[k] == processed(q1[j], asn, rel);
                assert(candidate_for(q1, j1, q1[j1].prefix, asn));
            } else if !from_rib2 {
                let j2 = choose|j: int| #[trigger] candidate_for(q1, j, k, asn) && r2[k] == processed(q1[j], asn, rel);
                assert(candidate_for(q1, j2, q1[j2].prefix, asn));
            }
        }
    }
}

/// Delivery order does not matter: two queues holding the same candidates
/// lead to the same table, when equally preferred candidates are identical.
pub proof fn lemma_order_irrelevant(
    rib: Map<Seq<char>, AnnouncementView>,
    q1: Seq<AnnouncementView>,
    q2: Seq<AnnouncementView>,
    asn: u32,
    rel: Relationships,
)
    requires
        forall|a: AnnouncementView| q1.contains(a) <==> q2.contains(a),
        ties_identical(rib, q1, asn, rel),
    ensures
        select_all(rib, q1, asn, rel) == select_all(rib, q2, asn, rel),
{
    let r1 = select_all(rib, q1, asn, rel);
    let r2 = select_all(rib, q2, asn, rel);
    assert forall|k: Seq<char>| #[trigger] r1.contains_key(k) == r2.contains_key(k) by {
        lemma_order_irrelevant_at(rib, q1, q2, asn, rel, k);
    }
    assert forall|k: Seq<char>| #[trigger] r1.contains_key(k) implies r1[k] == r2[k] by {
        lemma_order_irrelevant_at(rib, q1, q2, asn, rel, k);
    }
    assert(r1 =~= r2);
}

/// Valley-free export: everything sent to providers or peers comes from an
/// entry that was originated or learned from a customer, never from one
/// learned from a provider or a peer; and it goes only to the given
/// neighbours.
pub proof fn lemma_valley_free(entries: Seq<AnnouncementView>, nbrs: Seq<u32>, asn: u32, target: Relationships)
    requires
        target == Relationships::PROVIDERS || target == Relationships::PEERS,
    ensures
        forall|j: int| 0 <= j < exports(entries, nbrs, asn, target).len() ==> {
            let m = #[trigger] exports(entries, nbrs, asn, target)[j];
            &&& nbrs.contains(m.0)
            &&& exists|i: int| 0 <= i < entries.len() && (entries[i].recv_relationship == Relationships::ORIGIN
                || entries[i].recv_relationship == Relationships::CUSTOMERS) && m.1 == outbound(entries[i], asn, target)
        },
    decreases entries.len(),
{
    if entries.len() > 0 {
        let p = entries.drop_last();
        lemma_valley_free(p, nbrs, asn, target);
        let e = entries.last();
        let before = exports(p, nbrs, asn, target);
        let all = exports(entries, nbrs, asn, target);
        assert forall|j: int| 0 <= j < all.len() implies {
            let m = #[trigger] all[j];
            &&& nbrs.contains(m.0)
            &&& exists|i: int| 0 <= i < entries.len() && (entries[i].recv_relationship == Relationships::ORIGIN
                || entries[i].recv_relationship == Relationships::CUSTOMERS) && m.1 == outbound(entries[i], asn, target)
        } by {
            if j < before.len() {
                assert(all[j] == before[j]);
                let m = before[j];
                let i = choose|i: int| 0 <= i < p.len() && (p[i].recv_relationship == Relationships::ORIGIN
                    || p[i].recv_relationship == Relationships::CUSTOMERS) && m.1 == outbound(p[i], asn, target);
                assert(entries[i] == p[i]);
            } else {
                let n = j - before.len();
                assert(all[j] == (nbrs[n], outbound(e, asn, target)));
                assert(entries[entries.len() - 1] == e);
                assert(nbrs.contains(nbrs[n]));
            }
        }
    }
}

} // verus!
