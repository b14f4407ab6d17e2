use vstd::prelude::*;

verus! {

/// The recency order over slot positions, kept as a doubly linked chain.
///
/// For a slot `p`, `next[p]` is the slot touched just after it and
/// `prev[p]` the one touched just before it. `tail` is the least and
/// `head` the most recently used slot. Every slot position below the
/// chain's length stands in it exactly once.
pub(crate) struct Chain {
    pub(crate) prev: Vec<Option<usize>>,
    pub(crate) next: Vec<Option<usize>>,
    pub(crate) head: Option<usize>,
    pub(crate) tail: Option<usize>,
    /// Slot positions from least to most recently used.
    pub(crate) order: Ghost<Seq<usize>>,
    /// For each slot position, the place where it stands in `order`.
    pub(crate) rank: Ghost<Seq<int>>,
}

/// The links that a chain with order `o` must hold: each slot's `next` is
/// the slot after it in `o` and its `prev` the one before it.
pub(crate) open spec fn links_match(o: Seq<usize>, next: Seq<Option<usize>>, prev: Seq<Option<usize>>) -> bool {
    let n = o.len();
    &&& next.len() == n
    &&& prev.len() == n
    &&& forall|i: int|
        0 <= i < n ==> #[trigger] next[o[i] as int] == if i + 1 < n {
            Some(o[i + 1])
        } else {
            None::<usize>
        }
    &&& forall|i: int|
        0 <= i < n ==> #[trigger] prev[o[i] as int] == if i > 0 {
            Some(o[i - 1])
        } else {
            None::<usize>
        }
}

/// `rk` is the inverse of `o`, and `o` is a permutation of `0..o.len()`.
pub(crate) open spec fn ranks_match(o: Seq<usize>, rk: Seq<int>) -> bool {
    let n = o.len();
    &&& rk.len() == n
    &&& forall|i: int| 0 <= i < n ==> (#[trigger] o[i]) < n && rk[o[i] as int] == i
    &&& forall|p: int| 0 <= p < n ==> 0 <= #[trigger] rk[p] < n && o[rk[p]] == p
}

/// Removing the slot at place `r` and putting it last keeps `ranks_match`,
/// with the places after `r` moved down by one.
proof fn lemma_promote_ranks(o: Seq<usize>, rk: Seq<int>, r: int) -> (rk2: Seq<int>)
    requires
        ranks_match(o, rk),
        0 <= r < o.len(),
    ensures
        ranks_match(o.remove(r).push(o[r]), rk2),
        rk2[o[r] as int] == o.len() - 1,
{
    let n = o.len() as int;
    let p = o[r];
    let o2 = o.remove(r).push(p);
    let rk2 = Seq::new(
        n as nat,
        |q: int|
            if q == p {
                n - 1
            } else if rk[q] > r {
                rk[q] - 1
            } else {
                rk[q]
            },
    );
    assert forall|i: int| 0 <= i < n implies (#[trigger] o2[i]) < n && rk2[o2[i] as int] == i by {
        if i < r {
            assert(o2[i] == o[i]);
        } else if i < n - 1 {
            assert(o2[i] == o[i + 1]);
            assert(o[i + 1] < n && rk[o[i + 1] as int] == i + 1);
        }
    }
    assert forall|q: int| 0 <= q < n implies 0 <= #[trigger] rk2[q] < n && o2[rk2[q]] == q by {
        assert(o[rk[q]] == q);
        if q != p && rk[q] > r {
            assert(o2[rk[q] - 1] == o[rk[q]]);
        }
    }
    rk2
}

/// The links after a promotion of the slot at place `r`: the neighbours of
/// the slot are joined, and it is linked after the former last slot.
proof fn lemma_promote_links(
    o: Seq<usize>,
    rk: Seq<int>,
    next: Seq<Option<usize>>,
    prev: Seq<Option<usize>>,
    next2: Seq<Option<usize>>,
    prev2: Seq<Option<usize>>,
    r: int,
)
    requires
        ranks_match(o, rk),
        links_match(o, next, prev),
        0 <= r < o.len() - 1,
        next2.len() == o.len(),
        prev2.len() == o.len(),
        r > 0 ==> next2[o[r - 1] as int] == Some(o[r + 1]),
        next2[o[o.len() - 1] as int] == Some(o[r]),
        next2[o[r] as int] == None::<usize>,
        forall|q: int|
            0 <= q < o.len() && q != o[o.len() - 1] && q != o[r] && (r == 0 || q != o[r - 1])
                ==> next2[q] == next[q],
        prev2[o[r + 1] as int] == if r > 0 {
            Some(o[r - 1])
        } else {
            None::<usize>
        },
        prev2[o[r] as int] == Some(o[o.len() - 1]),
        forall|q: int| 0 <= q < o.len() && q != o[r + 1] && q != o[r] ==> prev2[q] == prev[q],
    ensures
        links_match(o.remove(r).push(o[r]), next2, prev2),
{
    let n = o.len() as int;
    let p = o[r];
    let o2 = o.remove(r).push(p);
    assert forall|i: int| 0 <= i < n implies #[trigger] next2[o2[i] as int] == if i + 1 < n {
        Some(o2[i + 1])
    } else {
        None::<usize>
    } by {
        if i < r {
            assert(o2[i] == o[i]);
            assert(o[i] < n && rk[o[i] as int] == i);
            assert(next[o[i] as int] == Some(o[i + 1]));
            if i + 1 < r {
                assert(o2[i + 1] == o[i + 1]);
            } else {
                assert(o2[i + 1] == o[i + 2]);
            }
        } else if i < n - 2 {
            assert(o2[i] == o[i + 1]);
            assert(o[i + 1] < n && rk[o[i + 1] as int] == i + 1);
            assert(next[o[i + 1] as int] == Some(o[i + 2]));
            assert(o2[i + 1] == o[i + 2]);
        } else if i == n - 2 {
            assert(o2[i] == o[n - 1]);
            assert(o2[i + 1] == p);
        } else {
            assert(o2[i] == p);
        }
    }
    assert forall|i: int| 0 <= i < n implies #[trigger] prev2[o2[i] as int] == if i > 0 {
        Some(o2[i - 1])
    } else {
        None::<usize>
    } by {
        if i < r {
            assert(o2[i] == o[i]);
            assert(o[i] < n && rk[o[i] as int] == i);
            assert(prev[o[i] as int] == if i > 0 {
                Some(o[i - 1])
            } else {
                None::<usize>
            });
            if i > 0 {
                assert(o2[i - 1] == o[i - 1]);
            }
        } else if i == r {
            assert(o2[i] == o[r + 1]);
            if i > 0 {
                assert(o2[i - 1] == o[r - 1]);
            }
        } else if i < n - 1 {
            assert(o2[i] == o[i + 1]);
            assert(o[i + 1] < n && rk[o[i + 1] as int] == i + 1);
            assert(prev[o[i + 1] as int] == Some(o[i]));
            assert(o2[i - 1] == o[i]);
        } else {
            assert(o2[i] == p);
            assert(o2[i - 1] == o[n - 1]);
        }
    }
}

impl Chain {
    pub(crate) open spec fn wf(&self) -> bool {
        let n = self.order@.len();
        &&& ranks_match(self.order@, self.rank@)
        &&& links_match(self.order@, self.next@, self.prev@)
        &&& self.head == if n == 0 {
            None::<usize>
        } else {
            Some(self.order@[n - 1])
        }
        &&& self.tail == if n == 0 {
            None::<usize>
        } else {
            Some(self.order@[0])
        }
    }

    /// An empty chain.
    pub(crate) fn new() -> (r: Chain)
        ensures
            r.wf(),
            r.order@ == Seq::<usize>::empty(),
    {
        Chain {
            prev: Vec::new(),
            next: Vec::new(),
            head: None,
            tail: None,
            order: Ghost(Seq::empty()),
            rank: Ghost(Seq::empty()),
        }
    }

    /// The least recently used slot, if any.
    pub(crate) fn tail(&self) -> (r: Option<usize>)
        requires
            self.wf(),
        ensures
            r == if self.order@.len() == 0 {
                None::<usize>
            } else {
                Some(self.order@[0])
            },
    {
        self.tail
    }

    /// Links a new slot, whose position is the chain's length, in as the
    /// most recently used one.
    pub(crate) fn push_head(&mut self)
        requires
            old(self).wf(),
            old(self).order@.len() < usize::MAX,
        ensures
            final(self).wf(),
            final(self).order@ == old(self).order@.push(old(self).order@.len() as usize),
    {
        let p = self.next.len();
        let ghost n = self.order@.len() as int;
        let ghost o = self.order@;
        let ghost next0 = self.next@;
        let ghost prev0 = self.prev@;
        self.next.push(None);
        self.prev.push(self.head);
        match self.head {
            Some(h) => {
                self.next[h] = Some(p);
            },
            None => {
                self.tail = Some(p);
            },
        }
        self.head = Some(p);
        proof {
            let o2 = o.push(p);
            let rk2 = self.rank@.push(n);
            assert forall|i: int| 0 <= i < n + 1 implies (#[trigger] o2[i]) < n + 1 && rk2[o2[i] as int]
                == i by {
                if i < n {
                    assert(o[i] < n);
                }
            }
            assert forall|i: int| 0 <= i < n + 1 implies #[trigger] self.next@[o2[i] as int] == if i + 1
                < n + 1 {
                Some(o2[i + 1])
            } else {
                None::<usize>
            } by {
                if i < n {
                    assert(o2[i] == o[i] && o[i] < n);
                    assert(next0[o[i] as int] == if i + 1 < n {
                        Some(o[i + 1])
                    } else {
                        None::<usize>
                    });
                }
            }
            assert forall|i: int| 0 <= i < n + 1 implies #[trigger] self.prev@[o2[i] as int] == if i
                > 0 {
                Some(o2[i - 1])
            } else {
                None::<usize>
            } by {
                if i < n {
                    assert(o2[i] == o[i] && o[i] < n);
                    assert(prev0[o[i] as int] == if i > 0 {
                        Some(o[i - 1])
                    } else {
                        None::<usize>
                    });
                }
            }
            self.order@ = o2;
            self.rank@ = rk2;
        }
    }

    /// Moves slot `p` to the most recently used end, keeping the order of
    /// all other slots.
    pub(crate) fn promote(&mut self, p: usize)
        requires
            old(self).wf(),
            p < old(self).order@.len(),
        ensures
            final(self).wf(),
            final(self).order@ == old(self).order@.remove(old(self).rank@[p as int]).push(p),
            final(self).rank@[p as int] == final(self).order@.len() - 1,
    {
        let ghost n = self.order@.len() as int;
        let ghost r = self.rank@[p as int];
        let ghost o = self.order@;
        let ghost rk = self.rank@;
        let ghost next0 = self.next@;
        let ghost prev0 = self.prev@;
        assert(o[r] == p);
        if self.head == Some(p) {
            assert(r == n - 1) by {
                assert(rk[o[n - 1] as int] == n - 1);
            }
            assert(o.remove(r).push(p) =~= o);
            return;
        }
        assert(r < n - 1) by {
            assert(rk[o[n - 1] as int] == n - 1);
        }
        assert(self.next@[p as int] == Some(o[r + 1]));
        let nx = self.next[p].unwrap();
        let pr = self.prev[p];
        match pr {
            Some(a) => {
                self.next[a] = Some(nx);
            },
            None => {
                self.tail = Some(nx);
            },
        }
        self.prev[nx] = pr;
        let h = self.head.unwrap();
        self.next[h] = Some(p);
        self.prev[p] = Some(h);
        self.next[p] = None;
        self.head = Some(p);
        proof {
            assert(o[r + 1] < n && o[n - 1] < n);
            if r > 0 {
                assert(o[r - 1] < n);
            }
            lemma_promote_links(o, rk, next0, prev0, self.next@, self.prev@, r);
            let rk2 = lemma_promote_ranks(o, rk, r);
            let o2 = o.remove(r).push(p);
            if r == 0 {
                assert(o2[0] == o[1]);
            } else {
                assert(o2[0] == o[0]);
            }
            self.order@ = o2;
            self.rank@ = rk2;
        }
    }
}

} // verus!
