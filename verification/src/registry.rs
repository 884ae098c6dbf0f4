//! The peer registry: a mapping from node identity to peer metadata and a
//! liveness timestamp, with insert-or-refresh, alias, lookup, listing and
//! expiry-sweep operations.
//!
//! The registry is modelled as a `Map` from the identity (a sequence of
//! characters) to the record held for that identity. Every operation's
//! contract states exactly how the map changes.

use vstd::prelude::*;

use crate::addr::Ipv4;

verus! {

/// What the registry knows of one peer.
pub struct NodeInfo {
    pub ip: Ipv4,
    pub port: u16,
    /// Milliseconds on the process's monotonic clock when the last
    /// announcement from this peer was accepted.
    pub last_active: u64,
    /// A user-assigned label, absent until set. When set, it is unique
    /// across the registry.
    pub alias: Option<String>,
}

/// The mathematical content of a `NodeInfo`.
#[verifier::ext_equal]
pub struct NodeInfoView {
    pub ip: Ipv4,
    pub port: u16,
    pub last_active: u64,
    pub alias: Option<Seq<char>>,
}

impl View for NodeInfo {
    type V = NodeInfoView;

    open spec fn view(&self) -> NodeInfoView {
        NodeInfoView {
            ip: self.ip,
            port: self.port,
            last_active: self.last_active,
            alias: match self.alias {
                Some(a) => Some(a@),
                None => None,
            },
        }
    }
}

impl NodeInfo {
    /// A record for a peer first heard from at `now`, with no alias yet.
    pub fn new(ip: Ipv4, port: u16, now: u64) -> (r: Self)
        ensures
            r@ == (NodeInfoView { ip, port, last_active: now, alias: None }),
    {
        NodeInfo { ip, port, last_active: now, alias: None }
    }
}

impl Clone for NodeInfo {
    fn clone(&self) -> (r: Self)
        ensures
            r == *self,
    {
        NodeInfo {
            ip: self.ip,
            port: self.port,
            last_active: self.last_active,
            alias: match &self.alias {
                Some(a) => Some(a.clone()),
                None => None,
            },
        }
    }
}

/// One registry entry: an identity and what is known of the peer behind it.
pub struct Entry {
    pub name: String,
    pub info: NodeInfo,
}

/// The map described by a sequence of entries; a later entry wins over an
/// earlier one with the same name (the registry keeps names unique, so the
/// case never arises there).
pub open spec fn map_of(s: Seq<Entry>) -> Map<Seq<char>, NodeInfoView>
    decreases s.len(),
{
    if s.len() == 0 {
        Map::empty()
    } else {
        map_of(s.drop_last()).insert(s.last().name@, s.last().info@)
    }
}

/// No two entries share a name.
pub open spec fn unique_names(s: Seq<Entry>) -> bool {
    forall|i: int, j: int| 0 <= i < j < s.len() ==> s[i].name@ != s[j].name@
}

/// No two entries share an alias (when both have one).
pub open spec fn unique_aliases(s: Seq<Entry>) -> bool {
    forall|i: int, j: int|
        0 <= i < j < s.len() ==> !(s[i].info@.alias is Some && s[j].info@.alias is Some
            && s[i].info@.alias->0 == s[j].info@.alias->0)
}

pub proof fn lemma_map_of_contains(s: Seq<Entry>, k: Seq<char>)
    ensures
        map_of(s).dom().contains(k) <==> exists|i: int| 0 <= i < s.len() && s[i].name@ == k,
    decreases s.len(),
{
    if s.len() > 0 {
        lemma_map_of_contains(s.drop_last(), k);
        if s.last().name@ == k {
            assert(s[s.len() - 1].name@ == k);
        } else if map_of(s).dom().contains(k) {
            let i = choose|i: int| 0 <= i < s.drop_last().len() && s.drop_last()[i].name@ == k;
            assert(s[i].name@ == k);
        } else if exists|i: int| 0 <= i < s.len() && s[i].name@ == k {
            let i = choose|i: int| 0 <= i < s.len() && s[i].name@ == k;
            assert(s.drop_last()[i].name@ == k);
        }
    }
}

pub proof fn lemma_map_of_index(s: Seq<Entry>, i: int)
    requires
        unique_names(s),
        0 <= i < s.len(),
    ensures
        map_of(s).dom().contains(s[i].name@),
        map_of(s)[s[i].name@] == s[i].info@,
    decreases s.len(),
{
    if i < s.len() - 1 {
        lemma_map_of_index(s.drop_last(), i);
        assert(s.drop_last()[i] == s[i]);
    }
}

pub proof fn lemma_map_of_finite(s: Seq<Entry>)
    ensures
        map_of(s).dom().finite(),
    decreases s.len(),
{
    if s.len() > 0 {
        lemma_map_of_finite(s.drop_last());
    }
}

pub proof fn lemma_map_of_len(s: Seq<Entry>)
    requires
        unique_names(s),
    ensures
        map_of(s).dom().finite(),
        map_of(s).dom().len() == s.len(),
    decreases s.len(),
{
    lemma_map_of_finite(s);
    if s.len() > 0 {
        lemma_map_of_len(s.drop_last());
        lemma_map_of_contains(s.drop_last(), s.last().name@);
        assert(forall|i: int| 0 <= i < s.drop_last().len() ==> s.drop_last()[i] == s[i]);
        assert(!map_of(s.drop_last()).dom().contains(s.last().name@));
        assert(map_of(s).dom() =~= map_of(s.drop_last()).dom().insert(s.last().name@));
    }
}

/// Updating the entry at `i` to one with the same name rewrites that name's
/// record in the map.
pub proof fn lemma_map_of_update(s: Seq<Entry>, i: int, e: Entry)
    requires
        unique_names(s),
        0 <= i < s.len(),
        e.name@ == s[i].name@,
    ensures
        map_of(s.update(i, e)) =~= map_of(s).insert(e.name@, e.info@),
    decreases s.len(),
{
    let s2 = s.update(i, e);
    if i == s.len() - 1 {
        assert(s2.drop_last() =~= s.drop_last());
        assert(s2.last() == e);
    } else {
        lemma_map_of_update(s.drop_last(), i, e);
        assert(s2.drop_last() =~= s.drop_last().update(i, e));
        assert(s2.last() == s.last());
        assert(s.last().name@ != e.name@);
    }
}

/// Removing the entry at `i` removes exactly that name from the map.
pub proof fn lemma_map_of_remove(s: Seq<Entry>, i: int)
    requires
        unique_names(s),
        0 <= i < s.len(),
    ensures
        map_of(s.remove(i)) =~= map_of(s).remove(s[i].name@),
    decreases s.len(),
{
    let s2 = s.remove(i);
    if i == s.len() - 1 {
        assert(s2 =~= s.drop_last());
        lemma_map_of_contains(s.drop_last(), s[i].name@);
        assert(forall|j: int| 0 <= j < s.drop_last().len() ==> s.drop_last()[j] == s[j]);
        assert(!map_of(s.drop_last()).dom().contains(s[i].name@));
        assert(map_of(s.drop_last()).remove(s[i].name@) =~= map_of(s.drop_last()));
        assert(map_of(s).remove(s[i].name@) =~= map_of(s.drop_last()));
    } else {
        lemma_map_of_remove(s.drop_last(), i);
        assert(s2.drop_last() =~= s.drop_last().remove(i));
        assert(s2.last() == s.last());
        assert(s.last().name@ != s[i].name@);
    }
}

} // verus!

use vstd::pervasive::VecAdditionalExecFns;

verus! {

/// What `add_or_update_node` did: created a record, or refreshed one.
#[derive(Clone, Copy, PartialEq, Eq, Structural, Debug)]
pub enum UpsertOutcome {
    Inserted,
    Refreshed,
}

/// The recoverable failures of the registry's commands.
#[derive(Clone, Copy, PartialEq, Eq, Structural, Debug)]
pub enum RegistryError {
    /// Another identity already holds the requested alias.
    AliasConflict,
    /// The named identity has no record.
    NotFound,
}

/// The record created for a newly seen identity.
pub open spec fn fresh_record(ip: Ipv4, port: u16, now: u64) -> NodeInfoView {
    NodeInfoView { ip, port, last_active: now, alias: None }
}

/// A refresh keeps the alias, takes the announced address, and never moves
/// `last_active` backwards (announcements may be handled out of order).
pub open spec fn refreshed_record(prev: NodeInfoView, ip: Ipv4, port: u16, now: u64) -> NodeInfoView {
    NodeInfoView {
        ip,
        port,
        last_active: if prev.last_active >= now { prev.last_active } else { now },
        alias: prev.alias,
    }
}

/// The registry map after an insert-or-refresh for `name`.
pub open spec fn upsert_map(
    m: Map<Seq<char>, NodeInfoView>,
    name: Seq<char>,
    ip: Ipv4,
    port: u16,
    now: u64,
) -> Map<Seq<char>, NodeInfoView> {
    if m.dom().contains(name) {
        m.insert(name, refreshed_record(m[name], ip, port, now))
    } else {
        m.insert(name, fresh_record(ip, port, now))
    }
}

/// What an insert-or-refresh for `name` reports.
pub open spec fn upsert_outcome(m: Map<Seq<char>, NodeInfoView>, name: Seq<char>) -> UpsertOutcome {
    if m.dom().contains(name) {
        UpsertOutcome::Refreshed
    } else {
        UpsertOutcome::Inserted
    }
}

/// A record expires when more than `threshold` milliseconds have passed
/// since its last announcement.
pub open spec fn is_expired(last_active: u64, now: u64, threshold: u64) -> bool {
    now - last_active > threshold
}

/// The registry map after removing every expired record.
pub open spec fn live_map(
    m: Map<Seq<char>, NodeInfoView>,
    now: u64,
    threshold: u64,
) -> Map<Seq<char>, NodeInfoView> {
    Map::new(
        |k: Seq<char>| m.dom().contains(k) && !is_expired(m[k].last_active, now, threshold),
        |k: Seq<char>| m[k],
    )
}

/// Some record of `m` carries alias `a`.
pub open spec fn has_alias(m: Map<Seq<char>, NodeInfoView>, a: Seq<char>) -> bool {
    exists|k: Seq<char>| m.dom().contains(k) && m[k].alias == Some(a)
}

/// Some record other than `name`'s carries alias `a`.
pub open spec fn alias_conflict(
    m: Map<Seq<char>, NodeInfoView>,
    name: Seq<char>,
    a: Seq<char>,
) -> bool {
    exists|k: Seq<char>| m.dom().contains(k) && k != name && m[k].alias == Some(a)
}

/// `v` with its alias replaced.
pub open spec fn with_alias(v: NodeInfoView, a: Seq<char>) -> NodeInfoView {
    NodeInfoView { ip: v.ip, port: v.port, last_active: v.last_active, alias: Some(a) }
}

impl Clone for Entry {
    fn clone(&self) -> (r: Self)
        ensures
            r == *self,
    {
        Entry { name: self.name.clone(), info: self.info.clone() }
    }
}

/// The registry together with this node's own address and identity.
///
/// The entries live behind the operations below; every operation's contract
/// describes its effect on the map view, and the registry keeps both names
/// and aliases unique.
pub struct NodeManager {
    entries: Vec<Entry>,
    ip: Ipv4,
    port: u16,
    uuid: String,
}

impl View for NodeManager {
    type V = Map<Seq<char>, NodeInfoView>;

    closed spec fn view(&self) -> Map<Seq<char>, NodeInfoView> {
        map_of(self.entries@)
    }
}

impl NodeManager {
    /// The registry's internal discipline: names unique, aliases unique.
    pub closed spec fn wf(self) -> bool {
        unique_names(self.entries@) && unique_aliases(self.entries@)
    }

    /// The address this node announces.
    pub closed spec fn spec_ip(self) -> Ipv4 {
        self.ip
    }

    /// The port this node announces.
    pub closed spec fn spec_port(self) -> u16 {
        self.port
    }

    /// This node's own identity.
    pub closed spec fn spec_uuid(self) -> Seq<char> {
        self.uuid@
    }

    pub fn ip(&self) -> (r: Ipv4)
        ensures
            r == self.spec_ip(),
    {
        self.ip
    }

    pub fn port(&self) -> (r: u16)
        ensures
            r == self.spec_port(),
    {
        self.port
    }

    /// This node's own identity.
    pub fn uuid(&self) -> (r: &String)
        ensures
            r@ == self.spec_uuid(),
    {
        &self.uuid
    }

    /// Well-formedness seen on the map: two distinct identities never hold
    /// the same alias.
    pub proof fn lemma_wf_alias_unique(self)
        requires
            self.wf(),
        ensures
            forall|k1: Seq<char>, k2: Seq<char>|
                self@.dom().contains(k1) && self@.dom().contains(k2) && k1 != k2
                    ==> !(self@[k1].alias is Some && self@[k1].alias == self@[k2].alias),
    {
        assert forall|k1: Seq<char>, k2: Seq<char>|
            self@.dom().contains(k1) && self@.dom().contains(k2) && k1 != k2 implies !(
        self@[k1].alias is Some && self@[k1].alias == self@[k2].alias) by {
            lemma_map_of_contains(self.entries@, k1);
            lemma_map_of_contains(self.entries@, k2);
            let i = choose|i: int| 0 <= i < self.entries@.len() && self.entries@[i].name@ == k1;
            let j = choose|j: int| 0 <= j < self.entries@.len() && self.entries@[j].name@ == k2;
            lemma_map_of_index(self.entries@, i);
            lemma_map_of_index(self.entries@, j);
        }
    }

    /// An empty registry for a node that announces `ip:port` under
    /// identity `uuid`.
    pub fn new(ip: Ipv4, port: u16, uuid: String) -> (r: Self)
        ensures
            r.wf(),
            r@ == Map::<Seq<char>, NodeInfoView>::empty(),
            r.spec_ip() == ip,
            r.spec_port() == port,
            r.spec_uuid() == uuid@,
    {
        NodeManager { entries: Vec::new(), ip, port, uuid }
    }

    /// The number of known peers.
    pub fn count(&self) -> (r: usize)
        requires
            self.wf(),
        ensures
            r == self@.dom().len(),
    {
        proof {
            lemma_map_of_len(self.entries@);
        }
        self.entries.len()
    }

    /// The index holding `name`, if any.
    fn find_index(&self, name: &String) -> (r: Option<usize>)
        ensures
            match r {
                Some(i) => i < self.entries@.len() && self.entries@[i as int].name@ == name@,
                None => forall|i: int| 0 <= i < self.entries@.len() ==> self.entries@[i].name@ != name@,
            },
    {
        let n = self.entries.len();
        let mut idx: usize = 0;
        while idx < n
            invariant
                n == self.entries@.len(),
                idx <= n,
                forall|i: int| 0 <= i < idx ==> self.entries@[i].name@ != name@,
            decreases n - idx,
        {
            if self.entries[idx].name == *name {
                return Some(idx);
            }
            idx += 1;
        }
        None
    }

    /// Insert-or-refresh: the one way discovery traffic enters the registry.
    /// A new identity gets a fresh record stamped `now`; a known identity is
    /// restamped (never backwards) and its address updated, with the alias
    /// kept. Never fails.
    pub fn add_or_update_node(&mut self, name: String, ip: Ipv4, port: u16, now: u64) -> (r:
        UpsertOutcome)
        requires
            old(self).wf(),
        ensures
            final(self).wf(),
            final(self)@ == upsert_map(old(self)@, name@, ip, port, now),
            r == upsert_outcome(old(self)@, name@),
            final(self).spec_ip() == old(self).spec_ip(),
            final(self).spec_port() == old(self).spec_port(),
            final(self).spec_uuid() == old(self).spec_uuid(),
    {
        let ghost m0 = self@;
        match self.find_index(&name) {
            Some(i) => {
                proof {
                    lemma_map_of_index(self.entries@, i as int);
                    lemma_map_of_contains(self.entries@, name@);
                }
                let prev = &self.entries[i];
                let last_active = if prev.info.last_active >= now {
                    prev.info.last_active
                } else {
                    now
                };
                let alias = match &prev.info.alias {
                    Some(a) => Some(a.clone()),
                    None => None,
                };
                let e = Entry { name, info: NodeInfo { ip, port, last_active, alias } };
                let ghost entries0 = self.entries@;
                proof {
                    assert(e.info@ == refreshed_record(m0[e.name@], ip, port, now));
                }
                self.entries.set(i, e);
                proof {
                    lemma_map_of_update(entries0, i as int, self.entries@[i as int]);
                    assert(final(self)@ =~= upsert_map(m0, self.entries@[i as int].name@, ip, port, now));
                }
                UpsertOutcome::Refreshed
            },
            None => {
                proof {
                    lemma_map_of_contains(self.entries@, name@);
                }
                let e = Entry {
                    name,
                    info: NodeInfo { ip, port, last_active: now, alias: None },
                };
                let ghost entries0 = self.entries@;
                self.entries.push(e);
                proof {
                    assert(self.entries@.drop_last() =~= entries0);
                    assert(final(self)@ =~= upsert_map(m0, self.entries@.last().name@, ip, port, now));
                }
                UpsertOutcome::Inserted
            },
        }
    }

    /// Set or change `name`'s alias. Fails with `AliasConflict` when a
    /// different identity already holds the alias, with `NotFound` when
    /// `name` has no record; otherwise the alias is stored and nothing else
    /// changes.
    pub fn update_node_alias(&mut self, name: &String, alias: String) -> (r: Result<
        (),
        RegistryError,
    >)
        requires
            old(self).wf(),
        ensures
            final(self).wf(),
            final(self).spec_ip() == old(self).spec_ip(),
            final(self).spec_port() == old(self).spec_port(),
            final(self).spec_uuid() == old(self).spec_uuid(),
            alias_conflict(old(self)@, name@, alias@) ==> r == Err::<(), RegistryError>(
                RegistryError::AliasConflict,
            ) && final(self)@ == old(self)@,
            !alias_conflict(old(self)@, name@, alias@) && !old(self)@.dom().contains(name@) ==> r
                == Err::<(), RegistryError>(RegistryError::NotFound) && final(self)@ == old(self)@,
            !alias_conflict(old(self)@, name@, alias@) && old(self)@.dom().contains(name@) ==> r
                == Ok::<(), RegistryError>(()) && final(self)@ == old(self)@.insert(
                name@,
                with_alias(old(self)@[name@], alias@),
            ),
    {
        let n = self.entries.len();
        let mut idx: usize = 0;
        while idx < n
            invariant
                idx <= n,
                *self == *old(self),
                self.wf(),
                n == self.entries@.len(),
                forall|j: int|
                    0 <= j < idx ==> !(self.entries@[j].name@ != name@
                        && self.entries@[j].info@.alias == Some(alias@)),
            decreases n - idx,
        {
            let e = &self.entries[idx];
            if !(e.name == *name) {
                match &e.info.alias {
                    Some(a) => {
                        if *a == alias {
                            proof {
                                lemma_map_of_index(self.entries@, idx as int);
                            }
                            return Err(RegistryError::AliasConflict);
                        }
                    },
                    None => {},
                }
            }
            idx += 1;
        }
        proof {
            if alias_conflict(self@, name@, alias@) {
                let k = choose|k: Seq<char>|
                    self@.dom().contains(k) && k != name@ && self@[k].alias == Some(alias@);
                lemma_map_of_contains(self.entries@, k);
                let j = choose|j: int| 0 <= j < self.entries@.len() && self.entries@[j].name@ == k;
                lemma_map_of_index(self.entries@, j);
            }
        }
        match self.find_index(name) {
            Some(i) => {
                proof {
                    lemma_map_of_index(self.entries@, i as int);
                }
                let prev = &self.entries[i];
                let e = Entry {
                    name: prev.name.clone(),
                    info: NodeInfo {
                        ip: prev.info.ip,
                        port: prev.info.port,
                        last_active: prev.info.last_active,
                        alias: Some(alias),
                    },
                };
                let ghost entries0 = self.entries@;
                self.entries.set(i, e);
                proof {
                    lemma_map_of_update(entries0, i as int, self.entries@[i as int]);
                }
                Ok(())
            },
            None => {
                proof {
                    lemma_map_of_contains(self.entries@, name@);
                }
                Err(RegistryError::NotFound)
            },
        }
    }

    /// Whether no record at all carries `alias`.
    pub fn is_alias_unique(&self, alias: &String) -> (r: bool)
        requires
            self.wf(),
        ensures
            r == !has_alias(self@, alias@),
    {
        let n = self.entries.len();
        let mut idx: usize = 0;
        while idx < n
            invariant
                idx <= n,
                n == self.entries@.len(),
                self.wf(),
                forall|j: int| 0 <= j < idx ==> self.entries@[j].info@.alias != Some(alias@),
            decreases n - idx,
        {
            let e = &self.entries[idx];
            match &e.info.alias {
                Some(a) => {
                    if *a == *alias {
                        proof {
                            lemma_map_of_index(self.entries@, idx as int);
                        }
                        return false;
                    }
                },
                None => {},
            }
            idx += 1;
        }
        proof {
            if has_alias(self@, alias@) {
                let k = choose|k: Seq<char>|
                    self@.dom().contains(k) && self@[k].alias == Some(alias@);
                lemma_map_of_contains(self.entries@, k);
                let j = choose|j: int| 0 <= j < self.entries@.len() && self.entries@[j].name@ == k;
                lemma_map_of_index(self.entries@, j);
            }
        }
        true
    }

    /// A snapshot of the record held for `name` (exact identity match).
    pub fn lookup(&self, name: &String) -> (r: Option<NodeInfo>)
        requires
            self.wf(),
        ensures
            self@.dom().contains(name@) ==> r is Some && r->0@ == self@[name@],
            !self@.dom().contains(name@) ==> r is None,
    {
        match self.find_index(name) {
            Some(i) => {
                proof {
                    lemma_map_of_index(self.entries@, i as int);
                }
                Some(self.entries[i].info.clone())
            },
            None => {
                proof {
                    lemma_map_of_contains(self.entries@, name@);
                }
                None
            },
        }
    }

    /// A snapshot of the record for `identifier`: the alias holder when some
    /// record carries that alias, otherwise the record keyed by it.
    pub fn get_node_info(&self, identifier: &String) -> (r: Option<NodeInfo>)
        requires
            self.wf(),
        ensures
            has_alias(self@, identifier@) ==> r is Some && exists|k: Seq<char>|
                self@.dom().contains(k) && self@[k].alias == Some(identifier@) && r->0@ == self@[k],
            !has_alias(self@, identifier@) && self@.dom().contains(identifier@) ==> r is Some
                && r->0@ == self@[identifier@],
            !has_alias(self@, identifier@) && !self@.dom().contains(identifier@) ==> r is None,
    {
        let n = self.entries.len();
        let mut idx: usize = 0;
        while idx < n
            invariant
                idx <= n,
                n == self.entries@.len(),
                self.wf(),
                forall|j: int|
                    0 <= j < idx ==> self.entries@[j].info@.alias != Some(identifier@),
            decreases n - idx,
        {
            let e = &self.entries[idx];
            match &e.info.alias {
                Some(a) => {
                    if *a == *identifier {
                        proof {
                            lemma_map_of_index(self.entries@, idx as int);
                        }
                        return Some(e.info.clone());
                    }
                },
                None => {},
            }
            idx += 1;
        }
        proof {
            if has_alias(self@, identifier@) {
                let k = choose|k: Seq<char>|
                    self@.dom().contains(k) && self@[k].alias == Some(identifier@);
                lemma_map_of_contains(self.entries@, k);
                let j = choose|j: int| 0 <= j < self.entries@.len() && self.entries@[j].name@ == k;
                lemma_map_of_index(self.entries@, j);
            }
        }
        self.lookup(identifier)
    }

    /// Remove `name`'s record, if it has one.
    pub fn remove_node(&mut self, name: &String) -> (r: Result<(), RegistryError>)
        requires
            old(self).wf(),
        ensures
            final(self).wf(),
            final(self).spec_ip() == old(self).spec_ip(),
            final(self).spec_port() == old(self).spec_port(),
            final(self).spec_uuid() == old(self).spec_uuid(),
            old(self)@.dom().contains(name@) ==> r == Ok::<(), RegistryError>(()) && final(self)@
                == old(self)@.remove(name@),
            !old(self)@.dom().contains(name@) ==> r == Err::<(), RegistryError>(
                RegistryError::NotFound,
            ) && final(self)@ == old(self)@,
    {
        match self.find_index(name) {
            Some(i) => {
                proof {
                    lemma_map_of_index(self.entries@, i as int);
                }
                let ghost entries0 = self.entries@;
                self.entries.remove(i);
                proof {
                    lemma_map_of_remove(entries0, i as int);
                    assert(self.entries@ =~= entries0.remove(i as int));
                    assert forall|a: int, b: int| 0 <= a < b < self.entries@.len() implies self.entries@[a].name@
                        != self.entries@[b].name@ by {
                        assert(self.entries@[a] == if a < i as int {
                            entries0[a]
                        } else {
                            entries0[a + 1]
                        });
                        assert(self.entries@[b] == if b < i as int {
                            entries0[b]
                        } else {
                            entries0[b + 1]
                        });
                    }
                    assert forall|a: int, b: int| 0 <= a < b < self.entries@.len() implies !(
                    self.entries@[a].info@.alias is Some && self.entries@[b].info@.alias is Some
                        && self.entries@[a].info@.alias->0 == self.entries@[b].info@.alias->0) by {
                        assert(self.entries@[a] == if a < i as int {
                            entries0[a]
                        } else {
                            entries0[a + 1]
                        });
                        assert(self.entries@[b] == if b < i as int {
                            entries0[b]
                        } else {
                            entries0[b + 1]
                        });
                    }
                }
                Ok(())
            },
            None => {
                proof {
                    lemma_map_of_contains(self.entries@, name@);
                }
                Err(RegistryError::NotFound)
            },
        }
    }

    /// A snapshot of every entry: each known identity with a copy of its
    /// record, each exactly once. No particular order is promised.
    pub fn list_users(&self) -> (r: Vec<(String, NodeInfo)>)
        requires
            self.wf(),
        ensures
            r@.len() == self@.dom().len(),
            forall|i: int|
                0 <= i < r@.len() ==> self@.dom().contains(r@[i].0@) && self@[r@[i].0@] == r@[i].1@,
            forall|k: Seq<char>|
                self@.dom().contains(k) ==> exists|i: int| 0 <= i < r@.len() && r@[i].0@ == k,
            forall|i: int, j: int| 0 <= i < j < r@.len() ==> r@[i].0@ != r@[j].0@,
    {
        let n = self.entries.len();
        let mut out: Vec<(String, NodeInfo)> = Vec::new();
        let mut idx: usize = 0;
        while idx < n
            invariant
                idx <= n,
                n == self.entries@.len(),
                out@.len() == idx,
                forall|i: int|
                    0 <= i < idx ==> out@[i].0@ == self.entries@[i].name@ && out@[i].1@
                        == self.entries@[i].info@,
            decreases n - idx,
        {
            let e = &self.entries[idx];
            out.push((e.name.clone(), e.info.clone()));
            idx += 1;
        }
        proof {
            lemma_map_of_len(self.entries@);
            assert forall|i: int| 0 <= i < out@.len() implies self@.dom().contains(out@[i].0@)
                && self@[out@[i].0@] == out@[i].1@ by {
                lemma_map_of_index(self.entries@, i);
            }
            assert forall|k: Seq<char>| self@.dom().contains(k) implies exists|i: int|
                0 <= i < out@.len() && out@[i].0@ == k by {
                lemma_map_of_contains(self.entries@, k);
                let j = choose|j: int| 0 <= j < self.entries@.len() && self.entries@[j].name@ == k;
                assert(out@[j].0@ == k);
            }
        }
        out
    }

    /// True when a record last stamped `last_active` has expired by `now`.
    pub fn expired_at(last_active: u64, now: u64, threshold: u64) -> (r: bool)
        ensures
            r == is_expired(last_active, now, threshold),
    {
        now > last_active && now - last_active > threshold
    }

    /// Remove every record whose last announcement lies more than
    /// `threshold` milliseconds before `now`, and report the removed
    /// identities, each exactly once. Records are removed by a sweep if and
    /// only if they have expired.
    pub fn sweep_expired(&mut self, now: u64, threshold: u64) -> (removed: Vec<String>)
        requires
            old(self).wf(),
        ensures
            final(self).wf(),
            final(self).spec_ip() == old(self).spec_ip(),
            final(self).spec_port() == old(self).spec_port(),
            final(self).spec_uuid() == old(self).spec_uuid(),
            final(self)@ == live_map(old(self)@, now, threshold),
            forall|i: int|
                0 <= i < removed@.len() ==> old(self)@.dom().contains(removed@[i]@) && is_expired(
                    old(self)@[removed@[i]@].last_active,
                    now,
                    threshold,
                ),
            forall|k: Seq<char>|
                old(self)@.dom().contains(k) && is_expired(old(self)@[k].last_active, now, threshold)
                    ==> exists|i: int| 0 <= i < removed@.len() && removed@[i]@ == k,
            forall|i: int, j: int| 0 <= i < j < removed@.len() ==> removed@[i]@ != removed@[j]@,
    {
        let ghost s0 = self.entries@;
        let ghost live = live_entry(now, threshold);
        let ghost dead = expired_entry(now, threshold);
        let n = self.entries.len();
        let mut kept: Vec<Entry> = Vec::new();
        let mut removed: Vec<String> = Vec::new();
        let mut idx: usize = 0;
        proof {
            reveal(Seq::filter);
            assert(s0.take(0) =~= Seq::<Entry>::empty());
            assert(kept@ =~= s0.take(0).filter(live));
            assert(removed@ =~= s0.take(0).filter(dead).map_values(|e: Entry| e.name));
        }
        while idx < n
            invariant
                idx <= n,
                *self == *old(self),
                self.wf(),
                self.entries@ == s0,
                n == s0.len(),
                live == live_entry(now, threshold),
                dead == expired_entry(now, threshold),
                kept@ == s0.take(idx as int).filter(live),
                removed@ == s0.take(idx as int).filter(dead).map_values(|e: Entry| e.name),
            decreases n - idx,
        {
            let e = &self.entries[idx];
            let ghost kept0 = kept@;
            let ghost removed0 = removed@;
            let ghost t0 = s0.take(idx as int);
            let ghost t1 = s0.take(idx as int + 1);
            if Self::expired_at(e.info.last_active, now, threshold) {
                let name = e.name.clone();
                removed.push(name);
            } else {
                let keep = Entry { name: e.name.clone(), info: e.info.clone() };
                kept.push(keep);
            }
            proof {
                reveal(Seq::filter);
                assert(t1.drop_last() =~= t0);
                assert(t1.last() == s0[idx as int]);
                if is_expired(s0[idx as int].info@.last_active, now, threshold) {
                    assert(t1.filter(live) == t0.filter(live));
                    assert(t1.filter(dead) == t0.filter(dead).push(s0[idx as int]));
                    assert(removed@ =~= t1.filter(dead).map_values(|e: Entry| e.name));
                } else {
                    assert(t1.filter(dead) == t0.filter(dead));
                    assert(removed@ =~= t1.filter(dead).map_values(|e: Entry| e.name));
                    assert(t1.filter(live) == t0.filter(live).push(s0[idx as int]));
                }
            }
            idx += 1;
        }
        proof {
            assert(s0.take(n as int) =~= s0);
            lemma_sweep_post(s0, now, threshold);
            let fd = s0.filter(dead);
            assert(removed@ == fd.map_values(|e: Entry| e.name));
            assert(removed@.len() == fd.len());
            assert forall|i: int| 0 <= i < removed@.len() implies #[trigger] removed@[i] == fd[i].name by {}
            assert forall|k: Seq<char>|
                map_of(s0).dom().contains(k) && is_expired(map_of(s0)[k].last_active, now, threshold)
                    implies exists|i: int| 0 <= i < removed@.len() && removed@[i]@ == k by {
                let i = choose|i: int| 0 <= i < fd.len() && fd[i].name@ == k;
                assert(removed@[i]@ == k);
            }
        }
        self.entries = kept;
        removed
    }
}



/// The predicate a sweep keeps by: the record has not expired.
pub open spec fn live_entry(now: u64, threshold: u64) -> spec_fn(Entry) -> bool {
    |e: Entry| !is_expired(e.info@.last_active, now, threshold)
}

/// The predicate a sweep removes by: the record has expired.
pub open spec fn expired_entry(now: u64, threshold: u64) -> spec_fn(Entry) -> bool {
    |e: Entry| is_expired(e.info@.last_active, now, threshold)
}

/// Every element of a filtered sequence is an element of the unfiltered one, and
/// satisfies the predicate.
proof fn lemma_filter_elems(s: Seq<Entry>, pred: spec_fn(Entry) -> bool)
    ensures
        forall|i: int| #![trigger s.filter(pred)[i]]
            0 <= i < s.filter(pred).len() ==> pred(s.filter(pred)[i]) && exists|j: int|
                0 <= j < s.len() && s[j] == s.filter(pred)[i],
    decreases s.len(),
{
    reveal(Seq::filter);
    if s.len() > 0 {
        let d = s.drop_last();
        lemma_filter_elems(d, pred);
        assert forall|i: int| 0 <= i < s.filter(pred).len() implies pred(#[trigger] s.filter(pred)[i])
            && exists|j: int| 0 <= j < s.len() && s[j] == s.filter(pred)[i] by {
            if i < d.filter(pred).len() {
                assert(s.filter(pred)[i] == d.filter(pred)[i]);
                let j = choose|j: int| 0 <= j < d.len() && d[j] == d.filter(pred)[i];
                assert(s[j] == s.filter(pred)[i]);
            } else {
                assert(s.filter(pred)[i] == s.last());
                assert(s[s.len() - 1] == s.filter(pred)[i]);
            }
        }
    }
}

/// Filtering keeps the uniqueness of names and aliases.
proof fn lemma_filter_unique(s: Seq<Entry>, pred: spec_fn(Entry) -> bool)
    requires
        unique_names(s),
        unique_aliases(s),
    ensures
        unique_names(s.filter(pred)),
        unique_aliases(s.filter(pred)),
        forall|i1: int, i2: int|
            0 <= i1 < i2 < s.filter(pred).len() ==> s.filter(pred)[i1] != s.filter(pred)[i2],
    decreases s.len(),
{
    reveal(Seq::filter);
    let f = s.filter(pred);
    if s.len() > 0 {
        let d = s.drop_last();
        lemma_filter_unique(d, pred);
        lemma_filter_elems(d, pred);
        assert forall|i1: int, i2: int| 0 <= i1 < i2 < f.len() implies f[i1].name@ != f[i2].name@
            && !(f[i1].info@.alias is Some && f[i2].info@.alias is Some && f[i1].info@.alias->0
            == f[i2].info@.alias->0) && f[i1] != f[i2] by {
            if i2 < d.filter(pred).len() {
                assert(f[i1] == d.filter(pred)[i1] && f[i2] == d.filter(pred)[i2]);
            } else if pred(s.last()) && i2 == d.filter(pred).len() {
                assert(f[i2] == s.last());
                assert(f[i1] == d.filter(pred)[i1]);
                let j = choose|j: int| 0 <= j < d.len() && d[j] == d.filter(pred)[i1];
                assert(s[j] == f[i1]);
                assert(s[j].name@ != s[s.len() - 1].name@);
            }
        }
    }
}

/// What a completed sweep leaves and reports: the kept entries form a
/// well-formed registry holding exactly the live records, and the removed
/// names are exactly the expired identities, each once.
proof fn lemma_sweep_post(s0: Seq<Entry>, now: u64, threshold: u64)
    requires
        unique_names(s0),
        unique_aliases(s0),
    ensures
        unique_names(s0.filter(live_entry(now, threshold))),
        unique_aliases(s0.filter(live_entry(now, threshold))),
        map_of(s0.filter(live_entry(now, threshold))) == live_map(map_of(s0), now, threshold),
        unique_names(s0.filter(expired_entry(now, threshold))),
        forall|i: int| #![trigger s0.filter(expired_entry(now, threshold))[i]]
            0 <= i < s0.filter(expired_entry(now, threshold)).len() ==> map_of(s0).dom().contains(
                s0.filter(expired_entry(now, threshold))[i].name@,
            ) && is_expired(
                map_of(s0)[s0.filter(expired_entry(now, threshold))[i].name@].last_active,
                now,
                threshold,
            ),
        forall|k: Seq<char>|
            map_of(s0).dom().contains(k) && is_expired(map_of(s0)[k].last_active, now, threshold)
                ==> exists|i: int|
                0 <= i < s0.filter(expired_entry(now, threshold)).len() && s0.filter(
                    expired_entry(now, threshold),
                )[i].name@ == k,
{
    let live = live_entry(now, threshold);
    let dead = expired_entry(now, threshold);
    let m0 = map_of(s0);
    lemma_filter_unique(s0, live);
    lemma_filter_unique(s0, dead);
    lemma_filter_elems(s0, live);
    lemma_filter_elems(s0, dead);
    let fl = s0.filter(live);
    let fd = s0.filter(dead);
    // The live filter's map is the live part of the unswept map.
    assert forall|k: Seq<char>| #[trigger] map_of(fl).dom().contains(k) implies live_map(
        m0,
        now,
        threshold,
    ).dom().contains(k) && map_of(fl)[k] == live_map(m0, now, threshold)[k] by {
        lemma_map_of_contains(fl, k);
        let i = choose|i: int| 0 <= i < fl.len() && fl[i].name@ == k;
        lemma_map_of_index(fl, i);
        let j = choose|j: int| 0 <= j < s0.len() && s0[j] == fl[i];
        lemma_map_of_index(s0, j);
    }
    assert forall|k: Seq<char>| #[trigger] live_map(m0, now, threshold).dom().contains(k) implies
        map_of(fl).dom().contains(k) by {
        lemma_map_of_contains(s0, k);
        let j = choose|j: int| 0 <= j < s0.len() && s0[j].name@ == k;
        lemma_map_of_index(s0, j);
        lemma_filter_contains_entry(s0, live, j);
        let i = choose|i: int| 0 <= i < fl.len() && fl[i] == s0[j];
        lemma_map_of_index(fl, i);
    }
    assert(map_of(fl) =~= live_map(m0, now, threshold));
    // Every reported name was expired.
    assert forall|i: int| 0 <= i < fd.len() implies m0.dom().contains(#[trigger] fd[i].name@)
        && is_expired(m0[fd[i].name@].last_active, now, threshold) by {
        let j = choose|j: int| 0 <= j < s0.len() && s0[j] == fd[i];
        lemma_map_of_index(s0, j);
    }
    // Every expired identity is reported.
    assert forall|k: Seq<char>|
        m0.dom().contains(k) && is_expired(m0[k].last_active, now, threshold) implies exists|i: int|
        0 <= i < fd.len() && fd[i].name@ == k by {
        lemma_map_of_contains(s0, k);
        let j = choose|j: int| 0 <= j < s0.len() && s0[j].name@ == k;
        lemma_map_of_index(s0, j);
        lemma_filter_contains_entry(s0, dead, j);
        let i = choose|i: int| 0 <= i < fd.len() && fd[i] == s0[j];
        assert(fd[i].name@ == k);
    }
}

/// An element that satisfies the predicate appears in the filtered sequence.
proof fn lemma_filter_contains_entry(s: Seq<Entry>, pred: spec_fn(Entry) -> bool, j: int)
    requires
        0 <= j < s.len(),
        pred(s[j]),
    ensures
        exists|i: int| 0 <= i < s.filter(pred).len() && s.filter(pred)[i] == s[j],
    decreases s.len(),
{
    reveal(Seq::filter);
    if j == s.len() - 1 {
        assert(s.filter(pred)[s.filter(pred).len() - 1] == s[j]);
    } else {
        let d = s.drop_last();
        assert(d[j] == s[j]);
        lemma_filter_contains_entry(d, pred, j);
        let i = choose|i: int| 0 <= i < d.filter(pred).len() && d.filter(pred)[i] == d[j];
        assert(s.filter(pred)[i] == s[j]);
    }
}


/// Arrival and refresh: an identity's first upsert reports `Inserted`; any
/// later upsert of the same identity reports `Refreshed`, keeps the key set
/// unchanged (no duplicate entry), and moves `last_active` forward to the
/// later stamp, never backwards.
pub proof fn lemma_arrival_refresh(
    m: Map<Seq<char>, NodeInfoView>,
    name: Seq<char>,
    ip: Ipv4,
    port: u16,
    now: u64,
    ip2: Ipv4,
    port2: u16,
    now2: u64,
)
    requires
        !m.dom().contains(name),
    ensures
        upsert_outcome(m, name) == UpsertOutcome::Inserted,
        upsert_map(m, name, ip, port, now).dom() == m.dom().insert(name),
        upsert_outcome(upsert_map(m, name, ip, port, now), name) == UpsertOutcome::Refreshed,
        upsert_map(upsert_map(m, name, ip, port, now), name, ip2, port2, now2).dom() == m.dom().insert(
            name,
        ),
        upsert_map(upsert_map(m, name, ip, port, now), name, ip2, port2, now2)[name].last_active
            == if now >= now2 {
            now
        } else {
            now2
        },
        upsert_map(upsert_map(m, name, ip, port, now), name, ip2, port2, now2)[name].alias
            == Option::<Seq<char>>::None,
{
    let m1 = upsert_map(m, name, ip, port, now);
    assert(m1.dom() =~= m.dom().insert(name));
    let m2 = upsert_map(m1, name, ip2, port2, now2);
    assert(m2.dom() =~= m.dom().insert(name));
}

/// A fresh upsert grows the registry by exactly one entry; upserting a known
/// identity does not change the key set. Repeated for each of any number of
/// distinct identities, every one of them is present afterwards.
pub proof fn lemma_upsert_counts(
    m: Map<Seq<char>, NodeInfoView>,
    name: Seq<char>,
    ip: Ipv4,
    port: u16,
    now: u64,
)
    requires
        m.dom().finite(),
    ensures
        upsert_map(m, name, ip, port, now).dom().finite(),
        !m.dom().contains(name) ==> upsert_map(m, name, ip, port, now).dom().len() == m.dom().len()
            + 1,
        m.dom().contains(name) ==> upsert_map(m, name, ip, port, now).dom().len() == m.dom().len(),
        forall|k: Seq<char>|
            m.dom().contains(k) ==> upsert_map(m, name, ip, port, now).dom().contains(k),
{
    let m1 = upsert_map(m, name, ip, port, now);
    assert(m1.dom() =~= m.dom().insert(name));
}

/// While a record exists, its liveness stamp never moves backwards: any
/// insert-or-refresh leaves every present key's `last_active` at least
/// where it was, and leaves every present key present.
pub proof fn lemma_last_active_monotone(
    m: Map<Seq<char>, NodeInfoView>,
    name: Seq<char>,
    ip: Ipv4,
    port: u16,
    now: u64,
    k: Seq<char>,
)
    requires
        m.dom().contains(k),
    ensures
        upsert_map(m, name, ip, port, now).dom().contains(k),
        upsert_map(m, name, ip, port, now)[k].last_active >= m[k].last_active,
{
}

/// A sweep removes nothing when nothing has expired: upserts are never lost
/// to a sweep that runs before their records go stale.
pub proof fn lemma_sweep_none_expired(m: Map<Seq<char>, NodeInfoView>, now: u64, threshold: u64)
    requires
        forall|k: Seq<char>|
            m.dom().contains(k) ==> !is_expired(m[k].last_active, now, threshold),
    ensures
        live_map(m, now, threshold) == m,
{
    assert(live_map(m, now, threshold) =~= m);
}

/// An alias conflict leaves every record exactly as it was: in particular
/// the identity that already holds the alias keeps it.
pub proof fn lemma_alias_conflict_preserves(
    m: Map<Seq<char>, NodeInfoView>,
    name: Seq<char>,
    a: Seq<char>,
    holder: Seq<char>,
)
    requires
        m.dom().contains(holder),
        holder != name,
        m[holder].alias == Some(a),
    ensures
        alias_conflict(m, name, a),
{
}

} // verus!
