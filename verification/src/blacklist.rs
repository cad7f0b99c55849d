//! The blacklist: a host-to-port-scope table folded from loosely formatted
//! address strings.
//!
//! Each input string is parsed as an address pattern; malformed strings are
//! dropped silently. A host-only pattern blocks every port on the host and
//! always wins: once a host is at `AllPorts` no later port entry narrows
//! it, and a host-only entry escalates a specific-port entry whenever it
//! appears. Port entries accumulate into a set.

use vstd::prelude::*;

use crate::addr::{spec_parse_pattern, AddressPattern, IpAddress};

verus! {

/// The per-host blocking granularity.
pub enum PortScope {
    /// Every port on the host is blocked.
    AllPorts,
    /// Only the listed ports are blocked; never empty.
    SpecificPorts(Vec<u16>),
}

/// The mathematical reading of a [`PortScope`]: all ports, or a set of
/// ports.
pub enum ScopeView {
    All,
    Ports(Set<u16>),
}

impl ScopeView {
    /// Whether this scope blocks `port`.
    pub open spec fn blocks(self, port: u16) -> bool {
        match self {
            ScopeView::All => true,
            ScopeView::Ports(s) => s.contains(port),
        }
    }
}

impl View for PortScope {
    type V = ScopeView;

    open spec fn view(&self) -> ScopeView {
        match self {
            PortScope::AllPorts => ScopeView::All,
            PortScope::SpecificPorts(v) => ScopeView::Ports(v@.to_set()),
        }
    }
}

fn vec_contains_u16(v: &Vec<u16>, x: u16) -> (r: bool)
    ensures
        r == v@.contains(x),
{
    let mut i: usize = 0;
    while i < v.len()
        invariant
            0 <= i <= v@.len(),
            forall|j: int| 0 <= j < i ==> v@[j] != x,
        decreases v@.len() - i,
    {
        if v[i] == x {
            return true;
        }
        i = i + 1;
    }
    false
}

fn copy_ports(v: &Vec<u16>) -> (r: Vec<u16>)
    ensures
        r@ == v@,
{
    let mut out: Vec<u16> = Vec::new();
    let mut i: usize = 0;
    while i < v.len()
        invariant
            0 <= i <= v@.len(),
            out@ =~= v@.take(i as int),
        decreases v@.len() - i,
    {
        out.push(v[i]);
        i = i + 1;
        proof {
            assert(out@ =~= v@.take(i as int));
        }
    }
    proof {
        assert(v@.take(v@.len() as int) =~= v@);
    }
    out
}

impl PortScope {
    /// Whether this scope blocks `port`.
    pub fn blocks(&self, port: u16) -> (r: bool)
        ensures
            r == self@.blocks(port),
    {
        match self {
            PortScope::AllPorts => true,
            PortScope::SpecificPorts(v) => vec_contains_u16(v, port),
        }
    }
}

/// The mapping an entry list stands for: later entries would win, though a
/// well-formed list never repeats a key.
pub open spec fn entries_map(s: Seq<(IpAddress, PortScope)>) -> Map<IpAddress, ScopeView>
    decreases s.len(),
{
    if s.len() == 0 {
        Map::<IpAddress, ScopeView>::empty()
    } else {
        entries_map(s.drop_last()).insert(s.last().0, s.last().1@)
    }
}

pub open spec fn unique_keys(s: Seq<(IpAddress, PortScope)>) -> bool {
    forall|i: int, j: int| 0 <= i < j < s.len() ==> (#[trigger] s[i]).0 != (#[trigger] s[j]).0
}

proof fn lemma_entries_map_key(s: Seq<(IpAddress, PortScope)>, k: IpAddress)
    ensures
        entries_map(s).contains_key(k) <==> exists|i: int| 0 <= i < s.len() && (#[trigger] s[i]).0
            == k,
    decreases s.len(),
{
    if s.len() > 0 {
        lemma_entries_map_key(s.drop_last(), k);
        if s.last().0 == k {
            assert(s[s.len() - 1].0 == k);
        } else if entries_map(s).contains_key(k) {
            let i = choose|i: int| 0 <= i < s.drop_last().len() && (#[trigger] s.drop_last()[i]).0
                == k;
            assert(s[i].0 == k);
        } else {
            assert(forall|i: int|
                0 <= i < s.len() - 1 ==> (#[trigger] s[i]).0 == s.drop_last()[i].0);
        }
    }
}

proof fn lemma_entries_map_index(s: Seq<(IpAddress, PortScope)>, j: int)
    requires
        unique_keys(s),
        0 <= j < s.len(),
    ensures
        entries_map(s).contains_key(s[j].0),
        entries_map(s)[s[j].0] == s[j].1@,
    decreases s.len(),
{
    if j == s.len() - 1 {
    } else {
        assert(unique_keys(s.drop_last()));
        assert(s.drop_last()[j] == s[j]);
        lemma_entries_map_index(s.drop_last(), j);
        assert(s[j].0 != s.last().0);
    }
}

proof fn lemma_entries_map_update(s: Seq<(IpAddress, PortScope)>, j: int, e: (IpAddress, PortScope))
    requires
        unique_keys(s),
        0 <= j < s.len(),
        e.0 == s[j].0,
    ensures
        entries_map(s.update(j, e)) == entries_map(s).insert(e.0, e.1@),
    decreases s.len(),
{
    let s2 = s.update(j, e);
    if j == s.len() - 1 {
        assert(s2.drop_last() =~= s.drop_last());
        assert(s2.last() == e);
        assert(entries_map(s2) == entries_map(s.drop_last()).insert(e.0, e.1@));
        assert(entries_map(s.drop_last()).insert(s.last().0, s.last().1@).insert(e.0, e.1@)
            =~= entries_map(s.drop_last()).insert(e.0, e.1@));
    } else {
        assert(unique_keys(s.drop_last()));
        assert(s.drop_last()[j] == s[j]);
        lemma_entries_map_update(s.drop_last(), j, e);
        assert(s2.drop_last() =~= s.drop_last().update(j, e));
        assert(s2.last() == s.last());
        assert(e.0 != s.last().0);
        assert(entries_map(s2) == entries_map(s.drop_last()).insert(e.0, e.1@).insert(
            s.last().0,
            s.last().1@,
        ));
        assert(entries_map(s.drop_last()).insert(e.0, e.1@).insert(s.last().0, s.last().1@)
            =~= entries_map(s.drop_last()).insert(s.last().0, s.last().1@).insert(e.0, e.1@));
    }
}

/// The host-to-port-scope table. Built once by a fold over input strings;
/// immutable afterwards.
pub struct Blacklist {
    entries: Vec<(IpAddress, PortScope)>,
}

impl View for Blacklist {
    type V = Map<IpAddress, ScopeView>;

    closed spec fn view(&self) -> Map<IpAddress, ScopeView> {
        entries_map(self.entries@)
    }
}

/// One merge step: fold an address pattern into the table. A host-only
/// pattern forces the host to `All`; a host-and-port pattern adds the port
/// unless the host is already at `All`.
pub open spec fn merge_pattern(m: Map<IpAddress, ScopeView>, p: AddressPattern) -> Map<
    IpAddress,
    ScopeView,
> {
    match p {
        AddressPattern::HostOnly(a) => m.insert(a, ScopeView::All),
        AddressPattern::HostAndPort(a, port) => {
            if !m.contains_key(a) {
                m.insert(a, ScopeView::Ports(set![port]))
            } else {
                match m[a] {
                    ScopeView::All => m,
                    ScopeView::Ports(s) => m.insert(a, ScopeView::Ports(s.insert(port))),
                }
            }
        },
    }
}

/// One fold step over an input string: parse it and merge, or drop it
/// silently if malformed.
pub open spec fn build_step(m: Map<IpAddress, ScopeView>, s: Seq<char>) -> Map<
    IpAddress,
    ScopeView,
> {
    match spec_parse_pattern(s) {
        Some(p) => merge_pattern(m, p),
        None => m,
    }
}

/// The table denoted by a sequence of input strings: the left fold of
/// [`build_step`] from the empty table.
pub open spec fn spec_build(strs: Seq<Seq<char>>) -> Map<IpAddress, ScopeView>
    decreases strs.len(),
{
    if strs.len() == 0 {
        Map::<IpAddress, ScopeView>::empty()
    } else {
        build_step(spec_build(strs.drop_last()), strs.last())
    }
}

fn find_key(entries: &Vec<(IpAddress, PortScope)>, a: IpAddress) -> (r: Option<usize>)
    ensures
        match r {
            Some(j) => j < entries@.len() && entries@[j as int].0 == a,
            None => forall|i: int| 0 <= i < entries@.len() ==> (#[trigger] entries@[i]).0 != a,
        },
{
    let mut i: usize = 0;
    while i < entries.len()
        invariant
            0 <= i <= entries@.len(),
            forall|j: int| 0 <= j < i ==> (#[trigger] entries@[j]).0 != a,
        decreases entries@.len() - i,
    {
        if entries[i].0 == a {
            return Some(i);
        }
        i = i + 1;
    }
    None
}

impl Blacklist {
    /// Well-formedness: no host appears twice, and a specific-port entry
    /// is never empty.
    pub closed spec fn inv(&self) -> bool {
        &&& unique_keys(self.entries@)
        &&& forall|i: int|
            0 <= i < self.entries@.len() ==> match (#[trigger] self.entries@[i]).1 {
                PortScope::AllPorts => true,
                PortScope::SpecificPorts(v) => v@.len() > 0,
            }
    }

    /// The empty table.
    pub fn new() -> (r: Self)
        ensures
            r.inv(),
            r@ == Map::<IpAddress, ScopeView>::empty(),
    {
        Blacklist { entries: Vec::new() }
    }

    /// Fold one parsed pattern into the table.
    pub fn apply(&mut self, p: AddressPattern)
        requires
            old(self).inv(),
        ensures
            final(self).inv(),
            final(self)@ == merge_pattern(old(self)@, p),
    {
        let (a, scope_of_new): (IpAddress, Option<u16>) = match p {
            AddressPattern::HostOnly(a) => (a, None),
            AddressPattern::HostAndPort(a, port) => (a, Some(port)),
        };
        let found = find_key(&self.entries, a);
        match found {
            None => {
                proof {
                    lemma_entries_map_key(self.entries@, a);
                }
                let scope = match scope_of_new {
                    None => PortScope::AllPorts,
                    Some(port) => {
                        let mut pv: Vec<u16> = Vec::new();
                        pv.push(port);
                        proof {
                            Seq::<u16>::empty().lemma_push_to_set_commute(port);
                            assert(Seq::<u16>::empty().to_set() =~= Set::<u16>::empty());
                            assert(pv@.to_set() =~= set![port]);
                        }
                        PortScope::SpecificPorts(pv)
                    },
                };
                self.entries.push((a, scope));
                proof {
                    assert(self.entries@.drop_last() =~= old(self).entries@);
                    assert(self@ == old(self)@.insert(a, scope@));
                }
            },
            Some(j) => {
                proof {
                    lemma_entries_map_index(self.entries@, j as int);
                }
                match scope_of_new {
                    None => {
                        self.entries[j] = (a, PortScope::AllPorts);
                        proof {
                            lemma_entries_map_update(
                                old(self).entries@,
                                j as int,
                                (a, PortScope::AllPorts),
                            );
                        }
                    },
                    Some(port) => {
                        let is_all = match &self.entries[j].1 {
                            PortScope::AllPorts => true,
                            PortScope::SpecificPorts(_) => false,
                        };
                        if is_all {
                            proof {
                                assert(merge_pattern(old(self)@, p) =~= old(self)@);
                            }
                        } else {
                            let mut nv = match &self.entries[j].1 {
                                PortScope::AllPorts => Vec::new(),
                                PortScope::SpecificPorts(v) => copy_ports(v),
                            };
                            let ghost oldseq = nv@;
                            let ghost oldset = nv@.to_set();
                            if !vec_contains_u16(&nv, port) {
                                nv.push(port);
                                proof {
                                    oldseq.lemma_push_to_set_commute(port);
                                }
                            } else {
                                proof {
                                    assert(oldset.contains(port));
                                    assert(nv@.to_set() =~= oldset.insert(port));
                                }
                            }
                            self.entries[j] = (a, PortScope::SpecificPorts(nv));
                            proof {
                                lemma_entries_map_update(
                                    old(self).entries@,
                                    j as int,
                                    (a, PortScope::SpecificPorts(nv)),
                                );
                            }
                        }
                    },
                }
            },
        }
    }

    /// The scope recorded for a host, if any.
    pub fn get(&self, addr: &IpAddress) -> (r: Option<&PortScope>)
        requires
            self.inv(),
        ensures
            match r {
                Some(p) => self@.contains_key(*addr) && p@ == self@[*addr],
                None => !self@.contains_key(*addr),
            },
    {
        match find_key(&self.entries, *addr) {
            Some(j) => {
                proof {
                    lemma_entries_map_index(self.entries@, j as int);
                }
                Some(&self.entries[j].1)
            },
            None => {
                proof {
                    lemma_entries_map_key(self.entries@, *addr);
                }
                None
            },
        }
    }

    /// How many hosts the table holds.
    pub fn len(&self) -> (r: usize)
        requires
            self.inv(),
        ensures
            self@.dom().finite(),
            r == self@.dom().len(),
    {
        proof {
            lemma_entries_map_dom_len(self.entries@);
        }
        self.entries.len()
    }
}

proof fn lemma_entries_map_dom_len(s: Seq<(IpAddress, PortScope)>)
    requires
        unique_keys(s),
    ensures
        entries_map(s).dom().finite(),
        entries_map(s).dom().len() == s.len(),
    decreases s.len(),
{
    if s.len() == 0 {
        assert(entries_map(s).dom() =~= Set::<IpAddress>::empty());
    } else {
        assert(unique_keys(s.drop_last()));
        lemma_entries_map_dom_len(s.drop_last());
        lemma_entries_map_key(s.drop_last(), s.last().0);
        assert(forall|i: int|
            0 <= i < s.len() - 1 ==> (#[trigger] s.drop_last()[i]).0 == s[i].0);
        assert(!entries_map(s.drop_last()).contains_key(s.last().0));
        assert(entries_map(s).dom() =~= entries_map(s.drop_last()).dom().insert(s.last().0));
    }
}

/// No entry of the table holds an empty port set: a specific-ports scope
/// always lists at least one port.
pub open spec fn no_empty_scopes(m: Map<IpAddress, ScopeView>) -> bool {
    forall|k: IpAddress|
        m.contains_key(k) && (#[trigger] m[k]) is Ports ==> exists|p: u16| m[k]->Ports_0.contains(p)
}

/// An empty-port-set state is never persisted: whatever the input
/// strings, every specific-ports entry of the built table is non-empty.
pub proof fn lemma_no_empty_port_set(strs: Seq<Seq<char>>)
    ensures
        no_empty_scopes(spec_build(strs)),
    decreases strs.len(),
{
    if strs.len() > 0 {
        lemma_no_empty_port_set(strs.drop_last());
        let m = spec_build(strs.drop_last());
        let m2 = spec_build(strs);
        assert forall|k: IpAddress| m2.contains_key(k) && (#[trigger] m2[k]) is Ports implies exists|p: u16|
            m2[k]->Ports_0.contains(p) by {
            if m.contains_key(k) && m[k] is Ports {
                let p = choose|p: u16| m[k]->Ports_0.contains(p);
                if m2[k] == m[k] {
                    assert(m2[k]->Ports_0.contains(p));
                }
            }
            match spec_parse_pattern(strs.last()) {
                None => {},
                Some(pat) => match pat {
                    AddressPattern::HostOnly(a) => {},
                    AddressPattern::HostAndPort(a, port) => {
                        if k == a {
                            assert(set![port].contains(port));
                            if m.contains_key(a) && m[a] is Ports {
                                assert(m[a]->Ports_0.insert(port).contains(port));
                            }
                            assert(m2[k]->Ports_0.contains(port));
                        }
                    },
                },
            }
        }
    }
}

/// A single bare-address string yields the table that blocks every port
/// on that host.
pub proof fn lemma_single_host_only(s: Seq<char>, a: IpAddress)
    requires
        spec_parse_pattern(s) == Some(AddressPattern::HostOnly(a)),
    ensures
        spec_build(seq![s]) == map![a => ScopeView::All],
{
    reveal_with_fuel(spec_build, 5);
    assert(seq![s].drop_last() =~= Seq::<Seq<char>>::empty());
    assert(spec_build(seq![s]) =~= map![a => ScopeView::All]);
}

/// A single address-and-port string yields the table that blocks exactly
/// that one port on that host.
pub proof fn lemma_single_host_and_port(s: Seq<char>, a: IpAddress, p: u16)
    requires
        spec_parse_pattern(s) == Some(AddressPattern::HostAndPort(a, p)),
    ensures
        spec_build(seq![s]) == map![a => ScopeView::Ports(set![p])],
{
    reveal_with_fuel(spec_build, 5);
    assert(seq![s].drop_last() =~= Seq::<Seq<char>>::empty());
    assert(spec_build(seq![s]) =~= map![a => ScopeView::Ports(set![p])]);
}

/// Escalation is order independent: a host-only string and a port string
/// for the same host yield the full block in either order.
#[verifier::rlimit(50)]
pub proof fn lemma_escalation_order_independent(s1: Seq<char>, s2: Seq<char>, a: IpAddress, p: u16)
    requires
        spec_parse_pattern(s1) == Some(AddressPattern::HostOnly(a)),
        spec_parse_pattern(s2) == Some(AddressPattern::HostAndPort(a, p)),
    ensures
        spec_build(seq![s1, s2]) == map![a => ScopeView::All],
        spec_build(seq![s2, s1]) == map![a => ScopeView::All],
{
    reveal_with_fuel(spec_build, 5);
    let e = Seq::<Seq<char>>::empty();
    assert(seq![s1, s2].drop_last() =~= seq![s1]);
    assert(seq![s1].drop_last() =~= e);
    assert(spec_build(seq![s1, s2]) =~= map![a => ScopeView::All]);
    assert(seq![s2, s1].drop_last() =~= seq![s2]);
    assert(seq![s2].drop_last() =~= e);
    assert(spec_build(seq![s2, s1]) =~= map![a => ScopeView::All]);
}

/// Port entries for one host accumulate into a set.
pub proof fn lemma_accumulation(s1: Seq<char>, s2: Seq<char>, a: IpAddress, p1: u16, p2: u16)
    requires
        spec_parse_pattern(s1) == Some(AddressPattern::HostAndPort(a, p1)),
        spec_parse_pattern(s2) == Some(AddressPattern::HostAndPort(a, p2)),
    ensures
        spec_build(seq![s1, s2]) == map![a => ScopeView::Ports(set![p1, p2])],
{
    reveal_with_fuel(spec_build, 5);
    assert(seq![s1, s2].drop_last() =~= seq![s1]);
    assert(seq![s1].drop_last() =~= Seq::<Seq<char>>::empty());
    assert(set![p1].insert(p2) =~= set![p1, p2]);
    assert(spec_build(seq![s1, s2]) =~= map![a => ScopeView::Ports(set![p1, p2])]);
}

/// A malformed string is dropped without affecting the rest of the table.
pub proof fn lemma_malformed_dropped(strs: Seq<Seq<char>>, i: int)
    requires
        0 <= i < strs.len(),
        spec_parse_pattern(strs[i]) == None::<AddressPattern>,
    ensures
        spec_build(strs) == spec_build(strs.remove(i)),
    decreases strs.len(),
{
    if i == strs.len() - 1 {
        assert(strs.remove(i) =~= strs.drop_last());
    } else {
        assert(strs.remove(i).drop_last() =~= strs.drop_last().remove(i));
        assert(strs.drop_last()[i] == strs[i]);
        lemma_malformed_dropped(strs.drop_last(), i);
        assert(strs.remove(i).last() == strs.last());
    }
}

/// Repeating one pattern string changes nothing: the fold is idempotent
/// on a single input.
pub proof fn lemma_idempotent_single(s: Seq<char>)
    requires
        spec_parse_pattern(s).is_some(),
    ensures
        spec_build(seq![s, s]) == spec_build(seq![s]),
{
    reveal_with_fuel(spec_build, 5);
    assert(seq![s, s].drop_last() =~= seq![s]);
    assert(seq![s].drop_last() =~= Seq::<Seq<char>>::empty());
    let m1 = spec_build(seq![s]);
    match spec_parse_pattern(s).unwrap() {
        AddressPattern::HostOnly(a) => {
            assert(spec_build(seq![s, s]) =~= m1);
        },
        AddressPattern::HostAndPort(a, p) => {
            assert(m1 == Map::<IpAddress, ScopeView>::empty().insert(
                a,
                ScopeView::Ports(set![p]),
            ));
            assert(set![p].insert(p) =~= set![p]);
            assert(spec_build(seq![s, s]) =~= m1);
        },
    }
}

/// Convert a list of address strings to a host-to-port-scope table.
///
/// Each string holds either a bare address, which blocks every port on
/// that host, or an address and a port, which blocks that one port;
/// malformed strings are dropped silently.
pub fn blacklist_from_iter(blacklist: Vec<String>) -> (r: Blacklist)
    ensures
        r.inv(),
        r@ == spec_build(blacklist.deep_view()),
{
    let ghost dv = blacklist.deep_view();
    let mut bl = Blacklist::new();
    let mut i: usize = 0;
    proof {
        assert(dv.take(0) =~= Seq::<Seq<char>>::empty());
    }
    while i < blacklist.len()
        invariant
            0 <= i <= blacklist@.len(),
            dv == blacklist.deep_view(),
            dv.len() == blacklist@.len(),
            bl.inv(),
            bl@ == spec_build(dv.take(i as int)),
        decreases blacklist@.len() - i,
    {
        proof {
            assert(dv.take(i + 1).drop_last() =~= dv.take(i as int));
            assert(dv.take(i + 1).last() == dv[i as int]);
            assert(dv[i as int] == blacklist@[i as int]@);
        }
        match crate::addr::parse_pattern_str(blacklist[i].as_str()) {
            Some(p) => {
                bl.apply(p);
            },
            None => {},
        }
        i = i + 1;
    }
    proof {
        assert(dv.take(dv.len() as int) =~= dv);
    }
    bl
}

} // verus!
