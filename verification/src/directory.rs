use vstd::prelude::*;
use crate::types::Address;

verus! {

/// What inserting one address does to a directory's membership: nothing at
/// all when the address is the node's own, otherwise set insertion.
pub open spec fn insert_spec(s: Set<Address>, me: Address, a: Address) -> Set<Address> {
    if a == me {
        s
    } else {
        s.insert(a)
    }
}

/// What merging a sequence of addresses does: each inserted in turn, the
/// node's own address always excluded.
pub open spec fn merge_spec(s: Set<Address>, me: Address, addrs: Seq<Address>) -> Set<Address>
    decreases addrs.len(),
{
    if addrs.len() == 0 {
        s
    } else {
        merge_spec(insert_spec(s, me, addrs[0]), me, addrs.subrange(1, addrs.len() as int))
    }
}

/// Membership after a merge: everything already present, plus every merged
/// address other than the node's own.
pub proof fn lemma_merge_spec_membership(s: Set<Address>, me: Address, addrs: Seq<Address>)
    ensures
        forall|x: Address|
            merge_spec(s, me, addrs).contains(x) <==> (s.contains(x) || (addrs.contains(x) && x
                != me)),
    decreases addrs.len(),
{
    if addrs.len() == 0 {
        assert(forall|x: Address| !addrs.contains(x));
    } else {
        let tail = addrs.subrange(1, addrs.len() as int);
        lemma_merge_spec_membership(insert_spec(s, me, addrs[0]), me, tail);
        assert forall|x: Address|
            merge_spec(s, me, addrs).contains(x) <==> (s.contains(x) || (addrs.contains(x) && x
                != me)) by {
            if addrs.contains(x) {
                let i = choose|i: int| 0 <= i < addrs.len() && addrs[i] == x;
                if i > 0 {
                    assert(tail[i - 1] == x);
                    assert(tail.contains(x));
                }
            }
            if tail.contains(x) {
                let i = choose|i: int| 0 <= i < tail.len() && tail[i] == x;
                assert(addrs[i + 1] == x);
                assert(addrs.contains(x));
            }
            if addrs[0] == x {
                assert(addrs.contains(x));
            }
        }
    }
}

/// The peer directory: the set of addresses this node currently believes
/// are live peers. The node's own address is never a member; every
/// insertion path filters it out here, so the invariant is enforced in one
/// place.
pub struct Directory {
    self_addr: Address,
    peers: Vec<Address>,
}

impl Directory {
    /// The directory's membership, as a set.
    pub closed spec fn view(&self) -> Set<Address> {
        Set::new(|x: Address| self.peers@.contains(x))
    }

    /// The address this directory will never admit.
    pub closed spec fn self_addr_spec(&self) -> Address {
        self.self_addr
    }

    /// Well-formed: no duplicate entries, and never the node's own address.
    pub closed spec fn wf(&self) -> bool {
        &&& forall|i: int, j: int|
            0 <= i < j < self.peers@.len() ==> self.peers@[i] != self.peers@[j]
        &&& forall|i: int| 0 <= i < self.peers@.len() ==> self.peers@[i] != self.self_addr
    }

    pub proof fn lemma_self_not_member(&self)
        requires
            self.wf(),
        ensures
            !self@.contains(self.self_addr_spec()),
    {
        if self@.contains(self.self_addr) {
            let i = choose|i: int|
                0 <= i < self.peers@.len() && self.peers@[i] == self.self_addr;
        }
    }

    /// An empty directory for the node at `me`.
    pub fn new(me: Address) -> (r: Directory)
        ensures
            r.wf(),
            r@ == Set::<Address>::empty(),
            r.self_addr_spec() == me,
    {
        let r = Directory { self_addr: me, peers: Vec::new() };
        proof {
            assert(r@ =~= Set::<Address>::empty());
        }
        r
    }

    /// Whether `a` is currently a member.
    pub fn contains(&self, a: &Address) -> (r: bool)
        ensures
            r == self@.contains(*a),
    {
        let n = self.peers.len();
        let mut k: usize = 0;
        while k < n
            invariant
                k <= n,
                n == self.peers@.len(),
                forall|t: int| 0 <= t < k ==> self.peers@[t] != *a,
            decreases n - k,
        {
            if self.peers[k] == *a {
                return true;
            }
            k = k + 1;
        }
        proof {
            if self.peers@.contains(*a) {
                let i = choose|i: int| 0 <= i < self.peers@.len() && self.peers@[i] == *a;
            }
        }
        false
    }

    /// Add `a`, unless it is the node's own address; idempotent.
    pub fn insert(&mut self, a: Address)
        requires
            old(self).wf(),
        ensures
            final(self).wf(),
            final(self).self_addr_spec() == old(self).self_addr_spec(),
            final(self)@ == insert_spec(old(self)@, old(self).self_addr_spec(), a),
    {
        if a == self.self_addr {
            return;
        }
        if self.contains(&a) {
            proof {
                assert(final(self)@ =~= insert_spec(old(self)@, old(self).self_addr_spec(), a));
            }
            return;
        }
        let ghost pre = self.peers@;
        proof {
            assert forall|t: int| 0 <= t < pre.len() implies pre[t] != a by {
                if pre[t] == a {
                    assert(pre.contains(a));
                }
            }
        }
        self.peers.push(a);
        proof {
            assert forall|x: Address| self.peers@.contains(x) <==> (pre.contains(x) || x
                == a) by {
                if self.peers@.contains(x) {
                    let i = choose|i: int|
                        0 <= i < self.peers@.len() && self.peers@[i] == x;
                    if i < pre.len() {
                        assert(pre[i] == x);
                    }
                }
                if pre.contains(x) {
                    let i = choose|i: int| 0 <= i < pre.len() && pre[i] == x;
                    assert(self.peers@[i] == x);
                }
                assert(self.peers@[pre.len() as int] == a);
            }
            assert(self@ =~= insert_spec(old(self)@, old(self).self_addr_spec(), a));
            assert forall|i: int, j: int|
                0 <= i < j < self.peers@.len() implies self.peers@[i] != self.peers@[j] by {
                if j < pre.len() {
                    assert(self.peers@[i] == pre[i] && self.peers@[j] == pre[j]);
                } else {
                    assert(self.peers@[j] == a && self.peers@[i] == pre[i]);
                }
            }
        }
    }

    /// Remove `a` if present; idempotent.
    pub fn remove(&mut self, a: &Address)
        requires
            old(self).wf(),
        ensures
            final(self).wf(),
            final(self).self_addr_spec() == old(self).self_addr_spec(),
            final(self)@ == old(self)@.remove(*a),
    {
        let n = self.peers.len();
        let mut k: usize = 0;
        while k < n
            invariant
                k <= n,
                n == self.peers@.len(),
                *self == *old(self),
                self.wf(),
                forall|t: int| 0 <= t < k ==> self.peers@[t] != *a,
            decreases n - k,
        {
            if self.peers[k] == *a {
                let ghost pre = self.peers@;
                self.peers.remove(k);
                proof {
                    pre.remove_ensures(k as int);
                    let post = pre.remove(k as int);
                    assert(self.peers@ == post);
                    assert(pre[k as int] == *a);
                    assert(pre == old(self).peers@);
                    assert forall|x: Address| post.contains(x) <==> (pre.contains(x) && x
                        != *a) by {
                        if post.contains(x) {
                            let i = choose|i: int| 0 <= i < post.len() && post[i] == x;
                            if i < k {
                                assert(post[i] == pre[i]);
                                assert(pre.contains(x));
                                assert(pre[i] != *a);
                            } else {
                                assert(post[i] == pre[i + 1]);
                                assert(pre.contains(x));
                                assert(pre[i + 1] != pre[k as int]);
                            }
                        }
                        if pre.contains(x) && x != *a {
                            let i = choose|i: int| 0 <= i < pre.len() && pre[i] == x;
                            if i < k {
                                assert(post[i] == pre[i]);
                                assert(post.contains(x));
                            } else {
                                assert(i != k);
                                assert(post[i - 1] == pre[i]);
                                assert(post.contains(x));
                            }
                        }
                    }
                    assert(self@ =~= old(self)@.remove(*a));
                    assert forall|i: int, j: int|
                        0 <= i < j < post.len() implies post[i] != post[j] by {
                        if j < k {
                            assert(post[i] == pre[i] && post[j] == pre[j]);
                        } else if i < k {
                            assert(post[i] == pre[i] && post[j] == pre[j + 1]);
                        } else {
                            assert(post[i] == pre[i + 1] && post[j] == pre[j + 1]);
                        }
                    }
                    assert forall|i: int| 0 <= i < post.len() implies post[i]
                        != self.self_addr by {
                        if i < k {
                            assert(post[i] == pre[i]);
                        } else {
                            assert(post[i] == pre[i + 1]);
                        }
                    }
                }
                return;
            }
            k = k + 1;
        }
        proof {
            if self.peers@.contains(*a) {
                let i = choose|i: int| 0 <= i < self.peers@.len() && self.peers@[i] == *a;
            }
            assert(self@ =~= old(self)@.remove(*a));
        }
    }

    /// Insert every address in `addrs`, the node's own excluded.
    pub fn merge(&mut self, addrs: &Vec<Address>)
        requires
            old(self).wf(),
        ensures
            final(self).wf(),
            final(self).self_addr_spec() == old(self).self_addr_spec(),
            final(self)@ == merge_spec(old(self)@, old(self).self_addr_spec(), addrs@),
    {
        let ghost me = self.self_addr;
        let n = addrs.len();
        let mut k: usize = 0;
        proof {
            assert(addrs@.subrange(0, n as int) =~= addrs@);
        }
        while k < n
            invariant
                k <= n,
                n == addrs@.len(),
                self.wf(),
                self.self_addr_spec() == me,
                merge_spec(self@, me, addrs@.subrange(k as int, n as int)) == merge_spec(
                    old(self)@,
                    me,
                    addrs@,
                ),
            decreases n - k,
        {
            let ghost pre = self@;
            let ghost rest = addrs@.subrange(k as int, n as int);
            self.insert(addrs[k]);
            proof {
                assert(rest[0] == addrs@[k as int]);
                assert(rest.subrange(1, rest.len() as int) =~= addrs@.subrange(
                    k + 1,
                    n as int,
                ));
                assert(merge_spec(pre, me, rest) == merge_spec(
                    insert_spec(pre, me, addrs@[k as int]),
                    me,
                    addrs@.subrange(k + 1, n as int),
                ));
            }
            k = k + 1;
        }
        proof {
            assert(addrs@.subrange(n as int, n as int).len() == 0);
        }
    }

    /// A point-in-time copy of the membership, for iteration outside the
    /// directory. Holds exactly the members, each once.
    pub fn snapshot(&self) -> (r: Vec<Address>)
        requires
            self.wf(),
        ensures
            forall|x: Address| r@.contains(x) <==> self@.contains(x),
            forall|i: int, j: int| 0 <= i < j < r@.len() ==> r@[i] != r@[j],
            r@.len() == self.count(),
    {
        let n = self.peers.len();
        let mut r: Vec<Address> = Vec::new();
        let mut k: usize = 0;
        while k < n
            invariant
                k <= n,
                n == self.peers@.len(),
                r@ == self.peers@.subrange(0, k as int),
            decreases n - k,
        {
            r.push(self.peers[k]);
            proof {
                assert(r@ =~= self.peers@.subrange(0, k + 1));
            }
            k = k + 1;
        }
        proof {
            assert(r@ =~= self.peers@);
        }
        r
    }

    /// How many peers are currently known.
    pub closed spec fn count(&self) -> nat {
        self.peers@.len()
    }

    /// How many peers are currently known.
    pub fn len(&self) -> (r: usize)
        ensures
            r == self.count(),
    {
        self.peers.len()
    }
}

} // verus!
