//! Peers: the set of nodes to notify, the allow/deny policy of origins, and
//! the trust decision that gates incoming notifications.
use vstd::prelude::*;
use crate::random::shuffled_indices;
use crate::url::{same_origin, url_origin, Origin, Url};

verus! {

/// The policy of an origin.
#[derive(Debug, Clone, Copy, PartialEq, Eq, Structural)]
pub enum OriginStatus {
    /// The origin is allow-listed.
    Allow,
    /// The origin is deny-listed.
    Deny,
    /// The origin is not one we know about.
    Unknown,
}

/// Whether a notification from an origin with status `status` is accepted:
/// deny always wins; otherwise `allow_all` or an allow entry admits it.
pub open spec fn trusted(status: OriginStatus, allow_all: bool) -> bool {
    status != OriginStatus::Deny && (allow_all || status == OriginStatus::Allow)
}

/// Whether `origin` is one of `set`.
pub open spec fn has_origin(set: Seq<Option<Seq<char>>>, origin: Option<Seq<char>>) -> bool {
    exists|i: int| 0 <= i < set.len() && same_origin(#[trigger] set[i], origin)
}

pub open spec fn origins_view(v: Seq<Origin>) -> Seq<Option<Seq<char>>> {
    v.map_values(|o: Origin| o@)
}

/// The status an origin has under an allow list and a deny list.
pub open spec fn listed_status(
    allow: Seq<Option<Seq<char>>>,
    deny: Seq<Option<Seq<char>>>,
    origin: Option<Seq<char>>,
) -> OriginStatus {
    if has_origin(deny, origin) {
        OriginStatus::Deny
    } else if has_origin(allow, origin) {
        OriginStatus::Allow
    } else {
        OriginStatus::Unknown
    }
}

fn contains_origin(set: &[Origin], origin: &Origin) -> (r: bool)
    ensures
        r == has_origin(origins_view(set@), origin@),
{
    let mut i: usize = 0;
    while i < set.len()
        invariant
            i <= set@.len(),
            forall|j: int| 0 <= j < i ==> !same_origin(#[trigger] set@[j]@, origin@),
        decreases set@.len() - i,
    {
        if set[i].same_as(origin) {
            assert(origins_view(set@)[i as int] == set@[i as int]@);
            return true;
        }
        i = i + 1;
    }
    proof {
        assert forall|j: int| 0 <= j < origins_view(set@).len() implies !same_origin(
            #[trigger] origins_view(set@)[j],
            origin@,
        ) by {
            assert(origins_view(set@)[j] == set@[j]@);
        }
    }
    false
}

/// Should we listen to notifications about this peer? The deny list is always
/// honored; otherwise notifications are restricted to the allow list unless
/// `allow_all` is set.
pub fn should_allow_peer(peer: &Url, allow: &[Origin], deny: &[Origin], allow_all: bool) -> (r:
    bool)
    ensures
        r == trusted(
            listed_status(origins_view(allow@), origins_view(deny@), url_origin(peer@)),
            allow_all,
        ),
{
    let origin = peer.origin();
    if contains_origin(deny, &origin) {
        return false;
    }
    if allow_all {
        return true;
    }
    contains_origin(allow, &origin)
}

/// The status that a policy list gives a key: the last entry for it, else unknown.
pub open spec fn lookup(policy: Seq<(Seq<char>, OriginStatus)>, key: Seq<char>) -> OriginStatus
    decreases policy.len(),
{
    if policy.len() == 0 {
        OriginStatus::Unknown
    } else if policy.last().0 == key {
        policy.last().1
    } else {
        lookup(policy.drop_last(), key)
    }
}

/// The status of an origin under a policy; an opaque origin is unknown.
pub open spec fn status_of(policy: Seq<(Seq<char>, OriginStatus)>, origin: Option<Seq<char>>) -> OriginStatus {
    match origin {
        Some(k) => lookup(policy, k),
        None => OriginStatus::Unknown,
    }
}

pub open spec fn policy_view(v: Seq<(String, OriginStatus)>) -> Seq<(Seq<char>, OriginStatus)> {
    v.map_values(|e: (String, OriginStatus)| (e.0@, e.1))
}

pub open spec fn urls_of(v: Seq<Url>) -> Seq<Seq<char>> {
    v.map_values(|u: Url| u@)
}

/// The peers a node notifies and the policy it applies to origins.
pub struct PeerRegistry {
    notify: Vec<Url>,
    policy: Vec<(String, OriginStatus)>,
}

impl PeerRegistry {
    /// The notify peers, as URL serializations.
    pub closed spec fn notify_peers(&self) -> Seq<Seq<char>> {
        urls_of(self.notify@)
    }

    /// The origin policy, as (origin, status) entries; the last entry for an origin decides.
    pub closed spec fn policy(&self) -> Seq<(Seq<char>, OriginStatus)> {
        policy_view(self.policy@)
    }

    /// The registry's invariant: no peer is listed twice.
    pub open spec fn wf(&self) -> bool {
        self.notify_peers().no_duplicates()
    }

    /// An empty registry.
    pub fn new() -> (r: PeerRegistry)
        ensures
            r.wf(),
            r.notify_peers() == Seq::<Seq<char>>::empty(),
            forall|k: Seq<char>| lookup(r.policy(), k) == OriginStatus::Unknown,
    {
        let r = PeerRegistry { notify: Vec::new(), policy: Vec::new() };
        assert(r.notify_peers() =~= Seq::<Seq<char>>::empty());
        r
    }

    /// Whether `url` is a notify peer.
    pub fn contains_notify(&self, url: &Url) -> (r: bool)
        ensures
            r == self.notify_peers().contains(url@),
    {
        let mut i: usize = 0;
        while i < self.notify.len()
            invariant
                i <= self.notify@.len(),
                forall|j: int| 0 <= j < i ==> #[trigger] self.notify@[j]@ != url@,
            decreases self.notify@.len() - i,
        {
            if self.notify[i] == *url {
                assert(self.notify_peers()[i as int] == url@);
                return true;
            }
            i = i + 1;
        }
        proof {
            if self.notify_peers().contains(url@) {
                let j = choose|j: int| 0 <= j < self.notify_peers().len() && self.notify_peers()[j] == url@;
                assert(self.notify@[j]@ == url@);
            }
        }
        false
    }

    /// Adds a notify peer; adding one that is there already changes nothing.
    pub fn add_notify(&mut self, url: &Url)
        requires
            old(self).wf(),
        ensures
            final(self).wf(),
            final(self).notify_peers().to_set() == old(self).notify_peers().to_set().insert(url@),
            final(self).policy() == old(self).policy(),
    {
        if !self.contains_notify(url) {
            let ghost before = self.notify_peers();
            self.notify.push(url.duplicate());
            assert(self.notify_peers() =~= before.push(url@));
            proof {
                assert forall|i: int, j: int| 0 <= i < j < self.notify_peers().len() implies
                    self.notify_peers()[i] != self.notify_peers()[j] by {
                    if j == before.len() {
                        assert(before.contains(before[i]));
                    }
                }
                assert forall|x: Seq<char>| self.notify_peers().contains(x) <==> (before.contains(x)
                    || x == url@) by {
                    if self.notify_peers().contains(x) && x != url@ {
                        let k = choose|k: int| 0 <= k < self.notify_peers().len() && self.notify_peers()[k] == x;
                        assert(before[k] == x);
                    }
                    if before.contains(x) {
                        let k = choose|k: int| 0 <= k < before.len() && before[k] == x;
                        assert(self.notify_peers()[k] == x);
                    }
                    if x == url@ {
                        assert(self.notify_peers()[before.len() as int] == x);
                    }
                }
                assert(self.notify_peers().to_set() =~= before.to_set().insert(url@));
            }
        } else {
            assert(self.notify_peers().to_set() =~= self.notify_peers().to_set().insert(url@));
        }
    }

    /// Removes a notify peer.
    pub fn remove_notify(&mut self, url: &Url)
        requires
            old(self).wf(),
        ensures
            final(self).wf(),
            final(self).notify_peers().to_set() == old(self).notify_peers().to_set().remove(url@),
            final(self).policy() == old(self).policy(),
    {
        let ghost before = self.notify_peers();
        let mut kept: Vec<Url> = Vec::new();
        let mut i: usize = 0;
        while i < self.notify.len()
            invariant
                i <= self.notify@.len(),
                before == urls_of(self.notify@),
                before.no_duplicates(),
                urls_of(kept@).no_duplicates(),
                forall|x: Seq<char>| urls_of(kept@).contains(x) <==> (x != url@ && exists|j: int|
                    0 <= j < i && #[trigger] before[j] == x),
            decreases self.notify@.len() - i,
        {
            if self.notify[i] != *url {
                let ghost prev = urls_of(kept@);
                kept.push(self.notify[i].duplicate());
                proof {
                    assert(urls_of(kept@) =~= prev.push(before[i as int]));
                    assert forall|a: int, b: int| 0 <= a < b < urls_of(kept@).len() implies urls_of(kept@)[a]
                        != urls_of(kept@)[b] by {
                        if b == prev.len() {
                            assert(prev.contains(prev[a]));
                        }
                    }
                    assert forall|x: Seq<char>| urls_of(kept@).contains(x) <==> (x != url@ && exists|j: int|
                        0 <= j < i + 1 && #[trigger] before[j] == x) by {
                        if urls_of(kept@).contains(x) && x != before[i as int] {
                            let k = choose|k: int| 0 <= k < urls_of(kept@).len() && urls_of(kept@)[k] == x;
                            assert(prev[k] == x);
                            assert(prev.contains(x));
                        }
                        if x != url@ && exists|j: int| 0 <= j < i + 1 && #[trigger] before[j] == x {
                            let j = choose|j: int| 0 <= j < i + 1 && #[trigger] before[j] == x;
                            if j < i {
                                assert(prev.contains(x));
                                let k = choose|k: int| 0 <= k < prev.len() && prev[k] == x;
                                assert(urls_of(kept@)[k] == x);
                            } else {
                                assert(urls_of(kept@)[prev.len() as int] == x);
                            }
                        }
                    }
                }
            } else {
                proof {
                    assert forall|x: Seq<char>| urls_of(kept@).contains(x) <==> (x != url@ && exists|j: int|
                        0 <= j < i + 1 && #[trigger] before[j] == x) by {
                        if x != url@ && exists|j: int| 0 <= j < i + 1 && #[trigger] before[j] == x {
                            let j = choose|j: int| 0 <= j < i + 1 && #[trigger] before[j] == x;
                            assert(j < i);
                        }
                    }
                }
            }
            i = i + 1;
        }
        self.notify = kept;
        proof {
            assert forall|x: Seq<char>| self.notify_peers().to_set().contains(x) <==> before.to_set().remove(url@).contains(x) by {
                if before.contains(x) {
                    let j = choose|j: int| 0 <= j < before.len() && before[j] == x;
                    assert(before[j] == x);
                }
            }
            assert(self.notify_peers().to_set() =~= before.to_set().remove(url@));
        }
    }

    /// Up to `n` distinct notify peers, drawn at random; all of them when there are no more than `n`.
    pub fn sample_notify(&self, n: usize) -> (r: Vec<Url>)
        requires
            self.wf(),
        ensures
            urls_of(r@).len() == if self.notify_peers().len() < n {
                self.notify_peers().len()
            } else {
                n as nat
            },
            urls_of(r@).no_duplicates(),
            forall|i: int| 0 <= i < r@.len() ==> self.notify_peers().contains(#[trigger] r@[i]@),
    {
        let total = self.notify.len();
        let order = shuffled_indices(total);
        let count = if total < n { total } else { n };
        let mut out: Vec<Url> = Vec::new();
        let mut i: usize = 0;
        while i < count
            invariant
                count <= total == self.notify@.len() == order@.len(),
                i <= count,
                self.wf(),
                order@.no_duplicates(),
                forall|k: int| 0 <= k < total ==> #[trigger] order@[k] < total,
                out@.len() == i,
                forall|k: int| 0 <= k < i ==> #[trigger] out@[k]@ == self.notify@[order@[k] as int]@,
            decreases count - i,
        {
            out.push(self.notify[order[i]].duplicate());
            i = i + 1;
        }
        proof {
            let peers = self.notify_peers();
            assert forall|a: int, b: int| 0 <= a < b < urls_of(out@).len() implies urls_of(out@)[a]
                != urls_of(out@)[b] by {
                assert(order@[a] != order@[b]);
                assert(urls_of(out@)[a] == peers[order@[a] as int]);
                assert(urls_of(out@)[b] == peers[order@[b] as int]);
            }
            assert forall|k: int| 0 <= k < out@.len() implies peers.contains(#[trigger] out@[k]@) by {
                assert(peers[order@[k] as int] == out@[k]@);
            }
        }
        out
    }

    fn without_origin(&mut self, key: &String)
        ensures
            final(self).notify == old(self).notify,
            forall|k: Seq<char>| lookup(final(self).policy(), k) == if k == key@ {
                OriginStatus::Unknown
            } else {
                lookup(old(self).policy(), k)
            },
    {
        let ghost before = self.policy();
        let mut kept: Vec<(String, OriginStatus)> = Vec::new();
        let mut i: usize = 0;
        while i < self.policy.len()
            invariant
                i <= self.policy@.len(),
                before == policy_view(self.policy@),
                forall|k: Seq<char>| lookup(policy_view(kept@), k) == if k == key@ {
                    OriginStatus::Unknown
                } else {
                    lookup(before.subrange(0, i as int), k)
                },
            decreases self.policy@.len() - i,
        {
            let ghost prev = policy_view(kept@);
            proof {
                assert(before.subrange(0, i + 1).drop_last() =~= before.subrange(0, i as int));
                assert(before.subrange(0, i + 1).last() == before[i as int]);
                assert(before[i as int] == (self.policy@[i as int].0@, self.policy@[i as int].1));
            }
            if !self.policy[i].0.eq(key) {
                let entry = (self.policy[i].0.clone(), self.policy[i].1);
                kept.push(entry);
                assert(policy_view(kept@).drop_last() =~= prev);
                assert(policy_view(kept@).last() == before[i as int]);
            }
            proof {
                let sub = before.subrange(0, i + 1);
                assert forall|k: Seq<char>| lookup(policy_view(kept@), k) == (if k == key@ {
                    OriginStatus::Unknown
                } else {
                    lookup(sub, k)
                }) by {
                    assert(lookup(sub, k) == if sub.last().0 == k {
                        sub.last().1
                    } else {
                        lookup(sub.drop_last(), k)
                    });
                    if before[i as int].0 != key@ {
                        assert(lookup(policy_view(kept@), k) == if policy_view(kept@).last().0 == k {
                            policy_view(kept@).last().1
                        } else {
                            lookup(policy_view(kept@).drop_last(), k)
                        });
                    }
                }
            }
            i = i + 1;
        }
        assert(before.subrange(0, self.policy@.len() as int) =~= before);
        self.policy = kept;
    }

    fn set_status(&mut self, origin: &Origin, status: OriginStatus)
        ensures
            final(self).notify == old(self).notify,
            forall|k: Seq<char>| lookup(final(self).policy(), k) == if origin@ == Some(k) {
                status
            } else {
                lookup(old(self).policy(), k)
            },
    {
        match origin.ascii_key() {
            Some(key) => {
                self.without_origin(&key);
                let ghost mid = self.policy();
                let k2 = key.clone();
                self.policy.push((k2, status));
                assert(self.policy().drop_last() =~= mid);
                assert(self.policy().last() == (key@, status));
                assert forall|k: Seq<char>| lookup(self.policy(), k) == (if k == key@ {
                    status
                } else {
                    lookup(mid, k)
                }) by {
                    assert(lookup(self.policy(), k) == if self.policy().last().0 == k {
                        self.policy().last().1
                    } else {
                        lookup(self.policy().drop_last(), k)
                    });
                }
            },
            None => {},
        }
    }

    /// Marks the origin of `url` as allowed; a later entry for that origin replaces an earlier one.
    pub fn set_allow(&mut self, url: &Url)
        requires
            old(self).wf(),
        ensures
            final(self).wf(),
            final(self).notify_peers() == old(self).notify_peers(),
            forall|o: Option<Seq<char>>| status_of(final(self).policy(), o) == if o is Some && o
                == url_origin(url@) {
                OriginStatus::Allow
            } else {
                status_of(old(self).policy(), o)
            },
    {
        self.set_status(&url.origin(), OriginStatus::Allow);
    }

    /// Marks the origin of `url` as denied; a later entry for that origin replaces an earlier one.
    pub fn set_deny(&mut self, url: &Url)
        requires
            old(self).wf(),
        ensures
            final(self).wf(),
            final(self).notify_peers() == old(self).notify_peers(),
            forall|o: Option<Seq<char>>| status_of(final(self).policy(), o) == if o is Some && o
                == url_origin(url@) {
                OriginStatus::Deny
            } else {
                status_of(old(self).policy(), o)
            },
    {
        self.set_status(&url.origin(), OriginStatus::Deny);
    }

    /// Forgets the policy of the origin of `url`.
    pub fn clear_origin(&mut self, url: &Url)
        requires
            old(self).wf(),
        ensures
            final(self).wf(),
            final(self).notify_peers() == old(self).notify_peers(),
            forall|o: Option<Seq<char>>| status_of(final(self).policy(), o) == if o is Some && o
                == url_origin(url@) {
                OriginStatus::Unknown
            } else {
                status_of(old(self).policy(), o)
            },
    {
        let origin = url.origin();
        match origin.ascii_key() {
            Some(key) => self.without_origin(&key),
            None => {},
        }
    }

    /// The status of the origin of `url`.
    pub fn status(&self, url: &Url) -> (r: OriginStatus)
        ensures
            r == status_of(self.policy(), url_origin(url@)),
    {
        let origin = url.origin();
        match origin.ascii_key() {
            None => OriginStatus::Unknown,
            Some(key) => {
                let mut i: usize = self.policy.len();
                assert(self.policy().subrange(0, i as int) =~= self.policy());
                while i > 0
                    invariant
                        i <= self.policy@.len(),
                        lookup(self.policy(), key@) == lookup(self.policy().subrange(0, i as int), key@),
                        url_origin(url@) == Some(key@),
                    decreases i,
                {
                    let ghost sub = self.policy().subrange(0, i as int);
                    assert(sub.last() == (self.policy@[i - 1].0@, self.policy@[i - 1].1));
                    assert(lookup(sub, key@) == if sub.last().0 == key@ {
                        sub.last().1
                    } else {
                        lookup(sub.drop_last(), key@)
                    });
                    if self.policy[i - 1].0.eq(&key) {
                        return self.policy[i - 1].1;
                    }
                    assert(sub.drop_last() =~= self.policy().subrange(0, i - 1));
                    i = i - 1;
                }
                OriginStatus::Unknown
            },
        }
    }

    /// Whether a notification that names `url` is accepted: never when its
    /// origin is denied, always when `allow_all` is set, else only when its origin is allowed.
    pub fn is_trusted(&self, url: &Url, allow_all: bool) -> (r: bool)
        ensures
            r == trusted(status_of(self.policy(), url_origin(url@)), allow_all),
    {
        let st = self.status(url);
        match st {
            OriginStatus::Deny => false,
            OriginStatus::Allow => true,
            OriginStatus::Unknown => allow_all,
        }
    }
}

/// A denied origin is never trusted, whatever `allow_all` says.
pub proof fn lemma_deny_overrides_allow_all(
    policy: Seq<(Seq<char>, OriginStatus)>,
    origin: Option<Seq<char>>,
    allow_all: bool,
)
    requires
        status_of(policy, origin) == OriginStatus::Deny,
    ensures
        !trusted(status_of(policy, origin), allow_all),
{
}

} // verus!
