use vstd::prelude::*;
use crate::types::{Address, Message};
use crate::utils::{fresh_at, is_recent_at};

verus! {

/// Whether the filter surfaces a message: it is not the node's own echo,
/// it is still fresh, and its (content, timestamp) pair has not been
/// surfaced before.
pub open spec fn should_surface(
    me: Address,
    seen: Set<(Seq<char>, u64)>,
    content: Seq<char>,
    from: Address,
    timestamp: u64,
    now: u64,
) -> bool {
    from != me && fresh_at(now, timestamp) && !seen.contains((content, timestamp))
}

/// A (content, timestamp) pair is surfaced at most once per node: once the
/// pair stands in the seen set, no later delivery of it is surfaced,
/// whichever link delivers it and whenever it arrives.
pub proof fn lemma_surfaced_at_most_once(
    me: Address,
    seen: Set<(Seq<char>, u64)>,
    content: Seq<char>,
    timestamp: u64,
    from2: Address,
    now2: u64,
)
    ensures
        !should_surface(me, seen.insert((content, timestamp)), content, from2, timestamp, now2),
{
}

/// The deduplication and recency filter: consumes the relay stream and
/// decides which messages become visible output. Its seen set only grows
/// for the life of the process.
pub struct DedupFilter {
    self_addr: Address,
    seen: Vec<(String, u64)>,
}

impl DedupFilter {
    spec fn seen_model(&self) -> Seq<(Seq<char>, u64)> {
        self.seen@.map_values(|e: (String, u64)| (e.0@, e.1))
    }

    /// The set of (content, timestamp) pairs surfaced so far.
    pub closed spec fn view(&self) -> Set<(Seq<char>, u64)> {
        Set::new(|p: (Seq<char>, u64)| self.seen_model().contains(p))
    }

    /// The local address, whose own messages are never surfaced.
    pub closed spec fn self_addr_spec(&self) -> Address {
        self.self_addr
    }

    /// A fresh filter for the node at `me`, with nothing seen yet.
    pub fn new(me: Address) -> (r: DedupFilter)
        ensures
            r@ == Set::<(Seq<char>, u64)>::empty(),
            r.self_addr_spec() == me,
    {
        let r = DedupFilter { self_addr: me, seen: Vec::new() };
        proof {
            assert(r.seen_model().len() == 0);
            assert forall|p: (Seq<char>, u64)| !r@.contains(p) by {
                if r.seen_model().contains(p) {
                    let i = choose|i: int|
                        0 <= i < r.seen_model().len() && r.seen_model()[i] == p;
                }
            }
            assert(r@ =~= Set::<(Seq<char>, u64)>::empty());
        }
        r
    }

    fn seen_contains(&self, content: &String, ts: u64) -> (r: bool)
        ensures
            r == self@.contains((content@, ts)),
    {
        let n = self.seen.len();
        let mut k: usize = 0;
        while k < n
            invariant
                k <= n,
                n == self.seen@.len(),
                forall|t: int| 0 <= t < k ==> #[trigger] self.seen_model()[t] != (content@, ts),
            decreases n - k,
        {
            let e = &self.seen[k];
            if e.1 == ts && e.0 == *content {
                proof {
                    assert(self.seen_model()[k as int] == (content@, ts));
                }
                return true;
            }
            proof {
                assert(self.seen_model()[k as int] == (self.seen@[k as int].0@, self.seen@[k as int].1));
            }
            k = k + 1;
        }
        proof {
            if self.seen_model().contains((content@, ts)) {
                let i = choose|i: int|
                    0 <= i < self.seen_model().len() && self.seen_model()[i] == (content@, ts);
            }
        }
        false
    }

    /// Process one inbound message at time `now`; the result says whether
    /// it becomes visible output. A message is surfaced exactly when it is
    /// not the node's own echo, is still fresh, and its (content,
    /// timestamp) pair is new; a surfaced pair is recorded so that further
    /// deliveries of it stay silent.
    pub fn observe(&mut self, m: &Message, now: u64) -> (surfaced: bool)
        ensures
            surfaced == should_surface(
                old(self).self_addr_spec(),
                old(self)@,
                m.content@,
                m.from,
                m.timestamp,
                now,
            ),
            final(self).self_addr_spec() == old(self).self_addr_spec(),
            final(self)@ == (if surfaced {
                old(self)@.insert((m.content@, m.timestamp))
            } else {
                old(self)@
            }),
            m.from == old(self).self_addr_spec() ==> !surfaced,
            now > m.timestamp + crate::utils::RECENCY_WINDOW_SECS ==> !surfaced,
    {
        if m.from == self.self_addr {
            return false;
        }
        if !is_recent_at(now, m.timestamp) {
            return false;
        }
        if self.seen_contains(&m.content, m.timestamp) {
            return false;
        }
        let ghost pre = self.seen_model();
        self.seen.push((m.content.clone(), m.timestamp));
        proof {
            let post = self.seen_model();
            assert(post.len() == pre.len() + 1);
            assert forall|t: int| 0 <= t < pre.len() implies post[t] == pre[t] by {
                assert(self.seen@[t] == old(self).seen@[t]);
            }
            assert(post[pre.len() as int] == (m.content@, m.timestamp));
            assert forall|p: (Seq<char>, u64)| post.contains(p) <==> (pre.contains(p) || p == (
                m.content@,
                m.timestamp,
            )) by {
                if post.contains(p) {
                    let i = choose|i: int| 0 <= i < post.len() && post[i] == p;
                    if i < pre.len() {
                        assert(pre[i] == p);
                    }
                }
                if pre.contains(p) {
                    let i = choose|i: int| 0 <= i < pre.len() && pre[i] == p;
                    assert(post[i] == p);
                }
            }
            assert(self@ =~= old(self)@.insert((m.content@, m.timestamp)));
        }
        true
    }
}

} // verus!
