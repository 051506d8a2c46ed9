use vstd::prelude::*;

use crate::text::{numbers_from, parse_numbers, parse_u32, parse_u32_spec};

verus! {

/// A customer-provider link of the relationship data.
#[derive(Debug, Clone, Copy, PartialEq, Eq, Structural, Hash)]
pub struct CustomerProviderLink {
    pub customer_asn: u32,
    pub provider_asn: u32,
}

/// A peer link of the relationship data (unordered).
#[derive(Debug, Clone, Copy, PartialEq, Eq, Structural, Hash)]
pub struct PeerLink {
    pub peer1_asn: u32,
    pub peer2_asn: u32,
}

/// The topology description that a graph is built from. Repeated links are
/// allowed and count once.
#[derive(Debug, Clone)]
pub struct ASGraphInfo {
    pub customer_provider_links: Vec<CustomerProviderLink>,
    pub peer_links: Vec<PeerLink>,
    pub ixp_asns: Vec<u32>,
    pub input_clique_asns: Vec<u32>,
}

/// `s` holds a link from customer `c` to provider `p`.
pub open spec fn has_cp_link(s: Seq<CustomerProviderLink>, c: u32, p: u32) -> bool {
    exists|k: int| 0 <= k < s.len() && s[k].customer_asn == c && s[k].provider_asn == p
}

/// `s` holds a peer link between `x` and `y`, in either direction.
pub open spec fn has_peer_link(s: Seq<PeerLink>, x: u32, y: u32) -> bool {
    exists|k: int|
        0 <= k < s.len() && ((s[k].peer1_asn == x && s[k].peer2_asn == y) || (s[k].peer1_asn == y
            && s[k].peer2_asn == x))
}

/// `a` is an end of some link of `s`.
pub open spec fn in_cp_links(s: Seq<CustomerProviderLink>, a: u32) -> bool {
    exists|k: int| 0 <= k < s.len() && (s[k].customer_asn == a || s[k].provider_asn == a)
}

/// `a` is an end of some link of `s`.
pub open spec fn in_peer_links(s: Seq<PeerLink>, a: u32) -> bool {
    exists|k: int| 0 <= k < s.len() && (s[k].peer1_asn == a || s[k].peer2_asn == a)
}

impl ASGraphInfo {
    /// The ASNs that the description mentions anywhere.
    pub open spec fn mentions(&self, a: u32) -> bool {
        in_cp_links(self.customer_provider_links@, a) || in_peer_links(self.peer_links@, a)
            || self.ixp_asns@.contains(a) || self.input_clique_asns@.contains(a)
    }

    /// `c` is a customer of `p` (links of an AS to itself are ignored).
    pub open spec fn customer_of(&self, c: u32, p: u32) -> bool {
        c != p && has_cp_link(self.customer_provider_links@, c, p)
    }

    /// `x` and `y` are peers (links of an AS to itself are ignored).
    pub open spec fn peers_of(&self, x: u32, y: u32) -> bool {
        x != y && has_peer_link(self.peer_links@, x, y)
    }

    /// Some assignment of natural numbers puts every provider strictly above
    /// each of its customers: the provider relation has no cycle.
    pub open spec fn provider_acyclic(&self) -> bool {
        exists|f: spec_fn(u32) -> nat| #[trigger] self.orders_providers_above(f)
    }

    /// `f` puts every provider strictly above each of its customers.
    pub open spec fn orders_providers_above(&self, f: spec_fn(u32) -> nat) -> bool {
        forall|c: u32, p: u32| #[trigger] self.customer_of(c, p) ==> f(c) < f(p)
    }
}


/// `s` begins with `p`.
pub open spec fn starts_with(s: Seq<u8>, p: Seq<u8>) -> bool {
    s.len() >= p.len() && s.take(p.len() as int) == p
}

/// `# input clique`
pub open spec fn clique_tag() -> Seq<u8> {
    seq![35u8, 32u8, 105u8, 110u8, 112u8, 117u8, 116u8, 32u8, 99u8, 108u8, 105u8, 113u8, 117u8, 101u8]
}

/// `# IXP ASes`
pub open spec fn ixp_tag() -> Seq<u8> {
    seq![35u8, 32u8, 73u8, 88u8, 80u8, 32u8, 65u8, 83u8, 101u8, 115u8]
}

/// A comment line starts with `#`.
pub open spec fn is_comment(s: Seq<u8>) -> bool {
    s.len() > 0 && s[0] == 35u8
}

/// `s` holds `-1` somewhere.
pub open spec fn has_minus_one(s: Seq<u8>) -> bool {
    exists|k: int| 0 <= k && k + 1 < s.len() && #[trigger] s[k] == 45u8 && s[k + 1] == 49u8
}

/// Position just after the last `:` of `s`, or 0 if it has none.
pub open spec fn after_last_colon(s: Seq<u8>) -> int
    decreases s.len(),
{
    if s.len() == 0 {
        0
    } else if s.last() == 58u8 {
        s.len() as int
    } else {
        after_last_colon(s.drop_last())
    }
}

/// First position at or after `k` of byte `c` in `s`, or -1.
pub open spec fn find_from(s: Seq<u8>, c: u8, k: int) -> int
    decreases s.len() - k,
{
    if k < 0 || k >= s.len() {
        -1
    } else if s[k] == c {
        k
    } else {
        find_from(s, c, k + 1)
    }
}

/// The first two `|`-separated fields of `s`, and whether a third follows.
pub open spec fn two_fields(s: Seq<u8>) -> Option<(Seq<u8>, Seq<u8>, bool)> {
    let b1 = find_from(s, 124u8, 0);
    if b1 < 0 {
        None
    } else {
        let b2 = find_from(s, 124u8, b1 + 1);
        if b2 < 0 {
            Some((s.take(b1), s.subrange(b1 + 1, s.len() as int), false))
        } else {
            Some((s.take(b1), s.subrange(b1 + 1, b2), true))
        }
    }
}

/// The link of a `provider|customer|-1...` line.
pub open spec fn cp_link_of(s: Seq<u8>) -> Option<CustomerProviderLink> {
    match two_fields(s) {
        Some((f0, f1, true)) => match (parse_u32_spec(f0), parse_u32_spec(f1)) {
            (Some(p), Some(c)) => Some(CustomerProviderLink { customer_asn: c, provider_asn: p }),
            _ => None,
        },
        _ => None,
    }
}

/// The link of a `peer|peer...` line.
pub open spec fn peer_link_of(s: Seq<u8>) -> Option<PeerLink> {
    match two_fields(s) {
        Some((f0, f1, _)) => match (parse_u32_spec(f0), parse_u32_spec(f1)) {
            (Some(x), Some(y)) => Some(PeerLink { peer1_asn: x, peer2_asn: y }),
            _ => None,
        },
        _ => None,
    }
}

pub open spec fn opt_seq<T>(o: Option<T>) -> Seq<T> {
    match o {
        Some(x) => seq![x],
        None => Seq::empty(),
    }
}

/// What one line of a relationship file contributes to each part of the
/// description: (input clique, IXPs, customer-provider links, peer links).
pub open spec fn line_records(s: Seq<u8>) -> (Seq<u32>, Seq<u32>, Seq<CustomerProviderLink>, Seq<PeerLink>) {
    if starts_with(s, clique_tag()) {
        (numbers_from(s, after_last_colon(s)), Seq::empty(), Seq::empty(), Seq::empty())
    } else if starts_with(s, ixp_tag()) {
        (Seq::empty(), numbers_from(s, after_last_colon(s)), Seq::empty(), Seq::empty())
    } else if is_comment(s) {
        (Seq::empty(), Seq::empty(), Seq::empty(), Seq::empty())
    } else if has_minus_one(s) {
        (Seq::empty(), Seq::empty(), opt_seq(cp_link_of(s)), Seq::empty())
    } else {
        (Seq::empty(), Seq::empty(), Seq::empty(), opt_seq(peer_link_of(s)))
    }
}

/// The description that the lines `ls` give, each in order.
pub open spec fn records_of(ls: Seq<Seq<u8>>) -> (Seq<u32>, Seq<u32>, Seq<CustomerProviderLink>, Seq<PeerLink>)
    decreases ls.len(),
{
    if ls.len() == 0 {
        (Seq::empty(), Seq::empty(), Seq::empty(), Seq::empty())
    } else {
        let r = records_of(ls.drop_last());
        let l = line_records(ls.last());
        (r.0 + l.0, r.1 + l.1, r.2 + l.2, r.3 + l.3)
    }
}

fn starts_with_bytes(s: &[u8], p: &Vec<u8>) -> (r: bool)
    ensures
        r == starts_with(s@, p@),
{
    if s.len() < p.len() {
        return false;
    }
    let mut i: usize = 0;
    while i < p.len()
        invariant
            p@.len() <= s@.len(),
            i <= p@.len(),
            forall|k: int| 0 <= k < i ==> s@[k] == p@[k],
        decreases p.len() - i,
    {
        if s[i] != p[i] {
            assert(s@.take(p@.len() as int)[i as int] != p@[i as int]);
            return false;
        }
        i = i + 1;
    }
    assert(s@.take(p@.len() as int) =~= p@);
    true
}

fn contains_minus_one(s: &[u8]) -> (r: bool)
    ensures
        r == has_minus_one(s@),
{
    if s.len() < 2 {
        return false;
    }
    let mut i: usize = 0;
    while i < s.len() - 1
        invariant
            s@.len() >= 2,
            forall|k: int| 0 <= k < i && k + 1 < s@.len() ==> !(#[trigger] s@[k] == 45u8 && s@[k + 1] == 49u8),
        decreases s.len() - i,
    {
        if s[i] == 45u8 && s[i + 1] == 49u8 {
            return true;
        }
        i = i + 1;
    }
    false
}

fn colon_end(s: &[u8]) -> (r: usize)
    ensures
        r as int == after_last_colon(s@),
        r <= s@.len(),
{
    let mut i = s.len();
    assert(s@.take(i as int) =~= s@);
    while i > 0
        invariant
            i <= s@.len(),
            after_last_colon(s@) == after_last_colon(s@.take(i as int)),
        decreases i,
    {
        assert(s@.take(i as int).drop_last() =~= s@.take(i - 1));
        if s[i - 1] == 58u8 {
            return i;
        }
        i = i - 1;
    }
    0
}

fn find_byte(s: &[u8], c: u8, k: usize) -> (r: Option<usize>)
    requires
        k <= s@.len(),
    ensures
        match r {
            Some(j) => j as int == find_from(s@, c, k as int) && k <= j < s@.len(),
            None => find_from(s@, c, k as int) == -1,
        },
{
    let mut j = k;
    while j < s.len()
        invariant
            k <= j <= s@.len(),
            find_from(s@, c, k as int) == find_from(s@, c, j as int),
        decreases s.len() - j,
    {
        if s[j] == c {
            return Some(j);
        }
        j = j + 1;
    }
    None
}

/// The first two `|`-separated fields of a line, parsed as numbers.
fn parse_two_fields(line: &[u8]) -> (r: Option<(Option<u32>, Option<u32>, bool)>)
    ensures
        match two_fields(line@) {
            None => r is None,
            Some((f0, f1, more)) => r == Some((parse_u32_spec(f0), parse_u32_spec(f1), more)),
        },
{
    let b1 = match find_byte(line, 124u8, 0) {
        Some(b) => b,
        None => return None,
    };
    assert(b1 < line@.len());
    let n = line.len();
    assert(b1 < n);
    let first = parse_u32(line, 0, b1);
    assert(line@.subrange(0, b1 as int) =~= line@.take(b1 as int));
    match find_byte(line, 124u8, b1 + 1) {
        Some(b2) => Some((first, parse_u32(line, b1 + 1, b2), true)),
        None => Some((first, parse_u32(line, b1 + 1, line.len()), false)),
    }
}

/// Builds topology descriptions from the lines of an AS-relationship file.
pub struct CAIDAASGraphConstructor {}

impl CAIDAASGraphConstructor {
    pub fn new() -> Self {
        CAIDAASGraphConstructor {}
    }

    /// The description that the lines of a relationship file give.
    pub fn run(&self, lines: &Vec<Vec<u8>>) -> (r: ASGraphInfo)
        ensures
            ({
                let rec = records_of(lines@.map_values(|l: Vec<u8>| l@));
                &&& r.input_clique_asns@ == rec.0
                &&& r.ixp_asns@ == rec.1
                &&& r.customer_provider_links@ == rec.2
                &&& r.peer_links@ == rec.3
            }),
    {
        self.get_as_graph_info(lines)
    }

    fn get_as_graph_info(&self, lines: &Vec<Vec<u8>>) -> (r: ASGraphInfo)
        ensures
            ({
                let rec = records_of(lines@.map_values(|l: Vec<u8>| l@));
                &&& r.input_clique_asns@ == rec.0
                &&& r.ixp_asns@ == rec.1
                &&& r.customer_provider_links@ == rec.2
                &&& r.peer_links@ == rec.3
            }),
    {
        let ghost ls = lines@.map_values(|l: Vec<u8>| l@);
        let clique = vec![35u8, 32u8, 105u8, 110u8, 112u8, 117u8, 116u8, 32u8, 99u8, 108u8, 105u8, 113u8, 117u8, 101u8];
        let ixp = vec![35u8, 32u8, 73u8, 88u8, 80u8, 32u8, 65u8, 83u8, 101u8, 115u8];
        assert(clique@ =~= clique_tag());
        assert(ixp@ =~= ixp_tag());
        let mut input_clique_asns: Vec<u32> = Vec::new();
        let mut ixp_asns: Vec<u32> = Vec::new();
        let mut cp_links: Vec<CustomerProviderLink> = Vec::new();
        let mut peer_links: Vec<PeerLink> = Vec::new();
        let mut i: usize = 0;
        while i < lines.len()
            invariant
                i <= lines@.len(),
                ls == lines@.map_values(|l: Vec<u8>| l@),
                clique@ == clique_tag(),
                ixp@ == ixp_tag(),
                input_clique_asns@ == records_of(ls.take(i as int)).0,
                ixp_asns@ == records_of(ls.take(i as int)).1,
                cp_links@ == records_of(ls.take(i as int)).2,
                peer_links@ == records_of(ls.take(i as int)).3,
            decreases lines.len() - i,
        {
            let line = lines[i].as_slice();
            assert(ls.take(i + 1).drop_last() =~= ls.take(i as int));
            assert(ls.take(i + 1).last() == line@);
            let ghost l = line_records(line@);
            let ghost (c0, x0, p0, q0) = (input_clique_asns@, ixp_asns@, cp_links@, peer_links@);
            if starts_with_bytes(line, &clique) {
                self.extract_input_clique_asns(line, &mut input_clique_asns);
            } else if starts_with_bytes(line, &ixp) {
                self.extract_ixp_asns(line, &mut ixp_asns);
            } else if !(line.len() > 0 && line[0] == 35u8) {
                if contains_minus_one(line) {
                    self.extract_provider_customers(line, &mut cp_links);
                } else {
                    self.extract_peers(line, &mut peer_links);
                }
            }
            proof {
                assert(input_clique_asns@ =~= c0 + l.0);
                assert(ixp_asns@ =~= x0 + l.1);
                assert(cp_links@ =~= p0 + l.2);
                assert(peer_links@ =~= q0 + l.3);
            }
            i = i + 1;
        }
        assert(ls.take(i as int) =~= ls);
        ASGraphInfo { customer_provider_links: cp_links, peer_links, ixp_asns, input_clique_asns }
    }

    /// Appends the ASNs listed after the last `:` of an input-clique line.
    pub fn extract_input_clique_asns(&self, line: &[u8], input_clique_asns: &mut Vec<u32>)
        ensures
            final(input_clique_asns)@ == old(input_clique_asns)@ + numbers_from(line@, after_last_colon(line@)),
    {
        let found = parse_numbers(line, colon_end(line));
        append_u32(input_clique_asns, &found);
    }

    /// Appends the ASNs listed after the last `:` of an IXP line.
    pub fn extract_ixp_asns(&self, line: &[u8], ixp_asns: &mut Vec<u32>)
        ensures
            final(ixp_asns)@ == old(ixp_asns)@ + numbers_from(line@, after_last_colon(line@)),
    {
        let found = parse_numbers(line, colon_end(line));
        append_u32(ixp_asns, &found);
    }

    /// Appends the link of a `provider|customer|-1` line, if it has one.
    pub fn extract_provider_customers(&self, line: &[u8], cp_links: &mut Vec<CustomerProviderLink>)
        ensures
            final(cp_links)@ == old(cp_links)@ + opt_seq(cp_link_of(line@)),
    {
        match parse_two_fields(line) {
            Some((Some(provider_asn), Some(customer_asn), true)) => {
                cp_links.push(CustomerProviderLink { customer_asn, provider_asn });
            },
            _ => {},
        }
        assert(cp_links@ =~= old(cp_links)@ + opt_seq(cp_link_of(line@)));
    }

    /// Appends the link of a `peer|peer` line, if it has one.
    pub fn extract_peers(&self, line: &[u8], peer_links: &mut Vec<PeerLink>)
        ensures
            final(peer_links)@ == old(peer_links)@ + opt_seq(peer_link_of(line@)),
    {
        match parse_two_fields(line) {
            Some((Some(peer1_asn), Some(peer2_asn), _)) => {
                peer_links.push(PeerLink { peer1_asn, peer2_asn });
            },
            _ => {},
        }
        assert(peer_links@ =~= old(peer_links)@ + opt_seq(peer_link_of(line@)));
    }
}

/// `s` holds `t` as a contiguous part.
pub open spec fn has_substring(s: Seq<u8>, t: Seq<u8>) -> bool {
    exists|k: int| 0 <= k && k + t.len() <= s.len() && #[trigger] s.subrange(k, k + t.len()) == t
}

fn occurs_at(s: &Vec<u8>, t: &Vec<u8>, k: usize) -> (r: bool)
    requires
        k + t@.len() <= s@.len(),
    ensures
        r == (s@.subrange(k as int, k + t@.len()) == t@),
{
    let n = s.len();
    let mut i: usize = 0;
    while i < t.len()
        invariant
            n == s@.len(),
            k + t@.len() <= s@.len(),
            i <= t@.len(),
            forall|m: int| 0 <= m < i ==> s@[k + m] == t@[m],
        decreases t.len() - i,
    {
        if s[k + i] != t[i] {
            assert(s@.subrange(k as int, k + t@.len())[i as int] != t@[i as int]);
            return false;
        }
        i = i + 1;
    }
    assert(s@.subrange(k as int, k + t@.len()) =~= t@);
    true
}

fn contains_bytes(s: &Vec<u8>, t: &Vec<u8>) -> (r: bool)
    ensures
        r == has_substring(s@, t@),
{
    if t.len() > s.len() {
        return false;
    }
    let last = s.len() - t.len();
    let mut k: usize = 0;
    loop
        invariant
            k <= last,
            last + t@.len() == s@.len(),
            forall|m: int| 0 <= m < k ==> #[trigger] s@.subrange(m, m + t@.len()) != t@,
        decreases last - k,
    {
        if occurs_at(s, t, k) {
            return true;
        }
        if k == last {
            assert forall|m: int| 0 <= m && m + t@.len() <= s@.len() implies #[trigger] s@.subrange(m, m + t@.len()) != t@ by {
                assert(m <= k);
            }
            return false;
        }
        k = k + 1;
    }
}

/// Position of the first link of a dataset index that names `target` (a
/// date stamp such as `20240101`).
pub fn first_href_with(hrefs: &Vec<Vec<u8>>, target: &Vec<u8>) -> (r: Option<usize>)
    ensures
        match r {
            Some(i) => i < hrefs@.len() && has_substring(hrefs@[i as int]@, target@) && forall|j: int|
                0 <= j < i ==> !has_substring(#[trigger] hrefs@[j]@, target@),
            None => forall|j: int| 0 <= j < hrefs@.len() ==> !has_substring(#[trigger] hrefs@[j]@, target@),
        },
{
    let mut i: usize = 0;
    while i < hrefs.len()
        invariant
            i <= hrefs@.len(),
            forall|j: int| 0 <= j < i ==> !has_substring(#[trigger] hrefs@[j]@, target@),
        decreases hrefs.len() - i,
    {
        if contains_bytes(&hrefs[i], target) {
            return Some(i);
        }
        i = i + 1;
    }
    None
}

fn append_u32(dst: &mut Vec<u32>, src: &Vec<u32>)
    ensures
        final(dst)@ == old(dst)@ + src@,
{
    let mut i: usize = 0;
    while i < src.len()
        invariant
            i <= src@.len(),
            dst@ == old(dst)@ + src@.take(i as int),
        decreases src.len() - i,
    {
        dst.push(src[i]);
        i = i + 1;
        assert(dst@ =~= old(dst)@ + src@.take(i as int));
    }
    assert(src@.take(src@.len() as int) =~= src@);
}

} // verus!
