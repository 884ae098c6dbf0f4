//! The discovery decisions: what one received datagram does to the registry
//! and which notification it produces, the announcer's outbound text, the
//! sweep with its departure notices, and sending to a known peer.
//!
//! The surrounding process owns the sockets and timers; it hands these
//! functions the datagram text and the clock, and carries their results back
//! out.

use vstd::prelude::*;

use crate::addr::Ipv4;
use crate::codec::{
    decode_message, encode_message, ip_chars, spec_decode, spec_encode, Message, MessageView,
};
use crate::registry::{upsert_map, NodeManager, RegistryError, UpsertOutcome};
use crate::text::{dec_digits, push_char, push_dec};

verus! {

/// The arrival notice for `name`.
pub open spec fn arrival_text(name: Seq<char>) -> Seq<char> {
    "Node "@ + name + " came online!"@
}

/// The departure notice for `name`.
pub open spec fn departure_text(name: Seq<char>) -> Seq<char> {
    "Node "@ + name + " went offline!"@
}

/// The self-describing text an announcement carries.
pub open spec fn online_text(ip: Ipv4, port: u16) -> Seq<char> {
    "Node is online at "@ + ip_chars(ip) + seq![':'] + dec_digits(port as int)
}

/// Append the dotted-quad text of `ip`.
fn push_ip_text(out: &mut String, ip: Ipv4)
    ensures
        final(out)@ == old(out)@ + ip_chars(ip),
{
    push_dec(out, ip.a as u64);
    push_char(out, '.');
    push_dec(out, ip.b as u64);
    push_char(out, '.');
    push_dec(out, ip.c as u64);
    push_char(out, '.');
    push_dec(out, ip.d as u64);
    proof {
        assert(final(out)@ =~= old(out)@ + ip_chars(ip));
    }
}

/// Build the arrival notice for `name`.
pub fn arrival_notification(name: &String) -> (r: String)
    ensures
        r@ == arrival_text(name@),
{
    let mut out = String::from_str("Node ");
    out.append(name.as_str());
    out.append(" came online!");
    out
}

/// Build the departure notice for `name`.
pub fn departure_notification(name: &String) -> (r: String)
    ensures
        r@ == departure_text(name@),
{
    let mut out = String::from_str("Node ");
    out.append(name.as_str());
    out.append(" went offline!");
    out
}

impl NodeManager {
    /// What one multicast datagram does, at `now` on the local clock, for a
    /// listener whose notification grace period ends at `grace_end`:
    /// undecodable traffic does nothing; an announcement carrying this
    /// node's own identity does nothing; any other announcement is entered
    /// into the registry, and an arrival notice is produced exactly when the
    /// identity is new and the grace period is over.
    pub fn monitor_step(&mut self, datagram: &str, now: u64, grace_end: u64) -> (r: Option<String>)
        requires
            old(self).wf(),
        ensures
            final(self).wf(),
            final(self).spec_ip() == old(self).spec_ip(),
            final(self).spec_port() == old(self).spec_port(),
            final(self).spec_uuid() == old(self).spec_uuid(),
            match spec_decode(datagram@) {
                None => final(self)@ == old(self)@ && r is None,
                Some(m) => {
                    &&& m.name == old(self).spec_uuid() ==> final(self)@ == old(self)@ && r is None
                    &&& m.name != old(self).spec_uuid() ==> {
                        &&& final(self)@ == upsert_map(old(self)@, m.name, m.ip, m.port, now)
                        &&& (r is Some <==> !old(self)@.dom().contains(m.name) && now >= grace_end)
                        &&& r is Some ==> r->0@ == arrival_text(m.name)
                    }
                },
            },
    {
        match decode_message(datagram) {
            None => None,
            Some(message) => {
                if message.name == *self.uuid() {
                    return None;
                }
                let outcome = self.add_or_update_node(
                    message.name.clone(),
                    message.ip,
                    message.port,
                    now,
                );
                match outcome {
                    UpsertOutcome::Inserted => {
                        if now >= grace_end {
                            Some(arrival_notification(&message.name))
                        } else {
                            None
                        }
                    },
                    UpsertOutcome::Refreshed => None,
                }
            },
        }
    }

    /// What one unicast datagram does at `now`: an undecodable one does
    /// nothing; a decodable one registers or refreshes its sender and is
    /// returned for display.
    pub fn process_message(&mut self, datagram: &str, now: u64) -> (r: Option<Message>)
        requires
            old(self).wf(),
        ensures
            final(self).wf(),
            final(self).spec_ip() == old(self).spec_ip(),
            final(self).spec_port() == old(self).spec_port(),
            final(self).spec_uuid() == old(self).spec_uuid(),
            match spec_decode(datagram@) {
                None => final(self)@ == old(self)@ && r is None,
                Some(m) => final(self)@ == upsert_map(old(self)@, m.name, m.ip, m.port, now) && r
                    is Some && r->0@ == m,
            },
    {
        match decode_message(datagram) {
            None => None,
            Some(message) => {
                self.add_or_update_node(message.name.clone(), message.ip, message.port, now);
                Some(message)
            },
        }
    }

    /// The announcement this node broadcasts: its address, port and
    /// identity, with a human-readable "node online" text.
    pub open spec fn spec_announcement(self) -> MessageView {
        MessageView {
            ip: self.spec_ip(),
            port: self.spec_port(),
            name: self.spec_uuid(),
            content: online_text(self.spec_ip(), self.spec_port()),
        }
    }

    /// Build the announcement datagram this node broadcasts on each tick.
    pub fn build_announcement(&self) -> (r: String)
        ensures
            r@ == spec_encode(self.spec_announcement()),
    {
        let mut content = String::from_str("Node is online at ");
        push_ip_text(&mut content, self.ip());
        push_char(&mut content, ':');
        push_dec(&mut content, self.port() as u64);
        proof {
            assert(content@ =~= online_text(self.spec_ip(), self.spec_port()));
        }
        let message = Message {
            ip: self.ip(),
            port: self.port(),
            name: self.uuid().clone(),
            content,
        };
        encode_message(&message)
    }

    /// Resolve `uuid` to a known peer and build the datagram that carries
    /// `content` from this node to it: the target's address and port, and
    /// the encoded message. Fails only when no record is keyed by `uuid`.
    pub fn prepare_send(&self, uuid: &String, content: &String) -> (r: Result<
        (Ipv4, u16, String),
        RegistryError,
    >)
        requires
            self.wf(),
        ensures
            self@.dom().contains(uuid@) ==> r is Ok && r->Ok_0.0 == self@[uuid@].ip && r->Ok_0.1
                == self@[uuid@].port && r->Ok_0.2@ == spec_encode(
                MessageView {
                    ip: self.spec_ip(),
                    port: self.spec_port(),
                    name: self.spec_uuid(),
                    content: content@,
                },
            ),
            !self@.dom().contains(uuid@) ==> r == Err::<(Ipv4, u16, String), RegistryError>(
                RegistryError::NotFound,
            ),
    {
        match self.lookup(uuid) {
            None => Err(RegistryError::NotFound),
            Some(info) => {
                let message = Message {
                    ip: self.ip(),
                    port: self.port(),
                    name: self.uuid().clone(),
                    content: content.clone(),
                };
                Ok((info.ip, info.port, encode_message(&message)))
            },
        }
    }

    /// Sweep out the expired records and give the departure notice for each
    /// removed identity, in step with `sweep_expired`'s contract.
    pub fn check_and_notify_offline_nodes(&mut self, now: u64, threshold: u64) -> (r: Vec<String>)
        requires
            old(self).wf(),
        ensures
            final(self).wf(),
            final(self).spec_ip() == old(self).spec_ip(),
            final(self).spec_port() == old(self).spec_port(),
            final(self).spec_uuid() == old(self).spec_uuid(),
            final(self)@ == crate::registry::live_map(old(self)@, now, threshold),
            departure_notices_ok(r@, old(self)@, now, threshold),
    {
        let removed = self.sweep_expired(now, threshold);
        let mut out: Vec<String> = Vec::new();
        let n = removed.len();
        let mut i: usize = 0;
        while i < n
            invariant
                i <= n,
                n == removed@.len(),
                out@.len() == i,
                forall|x: int| 0 <= x < i ==> out@[x]@ == departure_text(removed@[x]@),
            decreases n - i,
        {
            out.push(departure_notification(&removed[i]));
            i += 1;
        }
        proof {
            assert forall|a: int, b: int| 0 <= a < b < out@.len() implies out@[a]@ != out@[b]@ by {
                if out@[a]@ == out@[b]@ {
                    lemma_departure_text_injective(removed@[a]@, removed@[b]@);
                }
            }
            assert forall|x: int| #![trigger out@[x]] 0 <= x < out@.len() implies departs_expired(
                out@[x]@,
                old(self)@,
                now,
                threshold,
            ) by {
                let k = removed@[x]@;
                assert(old(self)@.dom().contains(k) && crate::registry::is_expired(
                    old(self)@[k].last_active,
                    now,
                    threshold,
                ) && out@[x]@ == departure_text(k));
            }
            assert forall|k: Seq<char>|
                old(self)@.dom().contains(k) && crate::registry::is_expired(
                    old(self)@[k].last_active,
                    now,
                    threshold,
                ) implies exists|i: int| 0 <= i < out@.len() && out@[i]@ == departure_text(k) by {
                let i = choose|i: int| 0 <= i < removed@.len() && removed@[i]@ == k;
                assert(out@[i]@ == departure_text(k));
            }
            assert(departure_notices_ok(out@, old(self)@, now, threshold));
        }
        out
    }
}

/// `notice` is the departure notice of some identity expired in `m`.
pub open spec fn departs_expired(
    notice: Seq<char>,
    m: Map<Seq<char>, crate::registry::NodeInfoView>,
    now: u64,
    threshold: u64,
) -> bool {
    exists|k: Seq<char>|
        m.dom().contains(k) && crate::registry::is_expired(m[k].last_active, now, threshold)
            && notice == departure_text(k)
}

/// The notices a sweep reports: one departure notice for each expired
/// identity of `m`, nothing else, and no notice twice.
pub open spec fn departure_notices_ok(
    r: Seq<String>,
    m: Map<Seq<char>, crate::registry::NodeInfoView>,
    now: u64,
    threshold: u64,
) -> bool {
    &&& forall|i: int| #![trigger r[i]]
        0 <= i < r.len() ==> departs_expired(r[i]@, m, now, threshold)
    &&& forall|k: Seq<char>|
        m.dom().contains(k) && crate::registry::is_expired(m[k].last_active, now, threshold)
            ==> exists|i: int| 0 <= i < r.len() && r[i]@ == departure_text(k)
    &&& forall|i: int, j: int| 0 <= i < j < r.len() ==> r[i]@ != r[j]@
}

/// Two departure notices agree only for one and the same identity.
proof fn lemma_departure_text_injective(k1: Seq<char>, k2: Seq<char>)
    requires
        departure_text(k1) == departure_text(k2),
    ensures
        k1 == k2,
{
    reveal_strlit("Node ");
    reveal_strlit(" went offline!");
    let t1 = departure_text(k1);
    let t2 = departure_text(k2);
    assert(t1.len() == 5 + k1.len() + 14);
    assert(t2.len() == 5 + k2.len() + 14);
    assert forall|x: int| 0 <= x < k1.len() implies k1[x] == k2[x] by {
        assert(t1[5 + x] == k1[x]);
        assert(t2[5 + x] == k2[x]);
    }
    assert(k1 =~= k2);
}

} // verus!
