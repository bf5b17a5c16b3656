//! The layered index itself.

use vstd::prelude::*;

use crate::promotion::draw_height;

verus! {

/// Number of layers: layer 0 holds every value, the others are fast lanes.
pub const LAYER_COUNT: usize = 3;

/// One arena slot: a value, the handle of the next node of the same layer,
/// and, above layer 0, the handle of the node of the same value one layer down.
#[derive(Clone, Copy)]
struct Node {
    value: i64,
    next: Option<usize>,
    down: Option<usize>,
}

/// A sorted set of `i64` values kept as `LAYER_COUNT` linked layers. Layer 0
/// holds every value once, in increasing order; each layer above holds a
/// subset of the one below, and each of its nodes links down to the node of
/// the same value. Nodes live in one append-only arena per layer and link by
/// index, so no node is ever moved or freed.
pub struct SkipList {
    layers: Vec<Vec<Node>>,
    head: Vec<Option<usize>>,
    /// For each layer, the handles of its nodes in chain order.
    order: Ghost<Seq<Seq<usize>>>,
    /// For each layer, the rank in the chain of the node at each handle.
    rank: Ghost<Seq<Seq<int>>>,
}

/// A sequence whose elements strictly increase from left to right.
pub open spec fn strictly_increasing(s: Seq<i64>) -> bool {
    forall|i: int, j: int| 0 <= i < j < s.len() ==> s[i] < s[j]
}

/// How many layers a new value joins when drawn `height` on a structure
/// holding `base_len` values: all of them for the first value.
pub open spec fn tower_height(base_len: int, height: int) -> int {
    if base_len == 0 {
        LAYER_COUNT as int
    } else {
        height
    }
}

/// What inserting `v` into `pre` leaves in `post`: a well-formed structure
/// holding the old values and `v`; nothing changed when `v` was already
/// stored; `v` alone on every layer when it is the first value; and each
/// layer either unchanged or with `v` added.
pub open spec fn insert_outcome(pre: SkipList, post: SkipList, v: i64) -> bool {
    &&& post.wf()
    &&& post@.to_set() == pre@.to_set().insert(v)
    &&& forall|w: i64| #[trigger] post@.contains(w) <==> pre@.contains(w) || w == v
    &&& pre@.contains(v) ==> post == pre
    &&& pre@.len() == 0 ==> forall|k: int|
        0 <= k < LAYER_COUNT ==> #[trigger] post.layer_view(k) == seq![v]
    &&& forall|k: int|
        0 <= k < LAYER_COUNT ==> #[trigger] post.layer_view(k).to_set() == pre.layer_view(k).to_set()
            || post.layer_view(k).to_set() == pre.layer_view(k).to_set().insert(v)
}

/// Putting `v` into `s` at `i` gives the values of `s` and `v`.
proof fn lemma_insert_to_set(s: Seq<i64>, i: int, v: i64)
    requires
        0 <= i <= s.len(),
    ensures
        s.insert(i, v).to_set() == s.to_set().insert(v),
{
    let t = s.insert(i, v);
    assert forall|x: i64| t.contains(x) <==> s.contains(x) || x == v by {
        if t.contains(x) {
            let j = choose|j: int| 0 <= j < t.len() && t[j] == x;
            if j < i {
                assert(s[j] == x);
            } else if j > i {
                assert(s[j - 1] == x);
            }
        }
        if s.contains(x) {
            let j = choose|j: int| 0 <= j < s.len() && s[j] == x;
            if j < i {
                assert(t[j] == x);
            } else {
                assert(t[j + 1] == x);
            }
        }
        if x == v {
            assert(t[i] == v);
        }
    }
    assert(t.to_set() =~= s.to_set().insert(v));
}

impl SkipList {
    spec fn len_of(&self, k: int) -> int {
        self.layers@[k]@.len() as int
    }

    spec fn node(&self, k: int, h: int) -> Node {
        self.layers@[k]@[h]
    }

    spec fn handle_at(&self, k: int, i: int) -> int {
        self.order@[k][i] as int
    }

    spec fn rank_of(&self, k: int, h: int) -> int {
        self.rank@[k][h]
    }

    /// Layer `k` is the same in `self` and `other`, ghost state included.
    spec fn same_layer(&self, other: SkipList, k: int) -> bool {
        &&& self.layers@[k] == other.layers@[k]
        &&& self.head@[k] == other.head@[k]
        &&& self.order@[k] == other.order@[k]
        &&& self.rank@[k] == other.rank@[k]
    }

    spec fn value_at_rank(&self, k: int, i: int) -> i64 {
        self.node(k, self.handle_at(k, i)).value
    }

    /// The values of layer `k`, in chain order from its head.
    pub closed spec fn layer_view(&self, k: int) -> Seq<i64> {
        Seq::new(self.order@[k].len(), |i: int| self.value_at_rank(k, i))
    }

    /// Layer `k` is one chain through all of its arena: `order` and `rank`
    /// are inverse bijections, `head` and `next` follow `order`, and the
    /// values along it strictly increase.
    spec fn chain_ok(&self, k: int) -> bool {
        let n = self.len_of(k);
        &&& self.order@[k].len() == n
        &&& self.rank@[k].len() == n
        &&& forall|i: int|
            0 <= i < n ==> 0 <= #[trigger] self.handle_at(k, i) < n && self.rank_of(
                k,
                self.handle_at(k, i),
            ) == i
        &&& forall|h: int|
            0 <= h < n ==> 0 <= #[trigger] self.rank_of(k, h) < n && self.handle_at(
                k,
                self.rank_of(k, h),
            ) == h
        &&& self.head@[k] == if n == 0 {
            None
        } else {
            Some(self.order@[k][0])
        }
        &&& forall|i: int|
            0 <= i < n ==> (#[trigger] self.node(k, self.handle_at(k, i))).next == if i + 1 < n {
                Some(self.order@[k][i + 1])
            } else {
                None
            }
        &&& strictly_increasing(self.layer_view(k))
    }

    /// The down links of layer `k`: none on layer 0; above it, each node
    /// points at a node of the same value one layer below.
    spec fn down_ok(&self, k: int) -> bool {
        if k == 0 {
            forall|h: int| 0 <= h < self.len_of(k) ==> (#[trigger] self.node(k, h)).down is None
        } else {
            forall|h: int|
                0 <= h < self.len_of(k) ==> {
                    let d = (#[trigger] self.node(k, h)).down;
                    &&& d is Some
                    &&& d.unwrap() < self.len_of(k - 1)
                    &&& self.node(k - 1, d.unwrap() as int).value == self.node(k, h).value
                }
        }
    }

    /// The structure's invariant.
    pub closed spec fn wf(&self) -> bool {
        &&& self.layers@.len() == LAYER_COUNT
        &&& self.head@.len() == LAYER_COUNT
        &&& self.order@.len() == LAYER_COUNT
        &&& self.rank@.len() == LAYER_COUNT
        &&& forall|k: int| 0 <= k < LAYER_COUNT ==> #[trigger] self.chain_ok(k)
        &&& forall|k: int| 0 <= k < LAYER_COUNT ==> #[trigger] self.down_ok(k)
    }

    /// No value of layer `k` equals `v` when the value at rank `r` is below
    /// `v` (or `r` is -1) and the value at rank `r + 1`, if any, is above it.
    proof fn lemma_absent(&self, k: int, r: int, v: i64)
        requires
            self.wf(),
            0 <= k < LAYER_COUNT,
            -1 <= r < self.len_of(k),
            r >= 0 ==> self.value_at_rank(k, r) < v,
            r + 1 < self.len_of(k) ==> self.value_at_rank(k, r + 1) > v,
        ensures
            !self.layer_view(k).contains(v),
    {
        assert(self.chain_ok(k));
        let s = self.layer_view(k);
        assert forall|i: int| 0 <= i < s.len() implies s[i] != v by {
            if i <= r {
                if i < r {
                    assert(s[i] < s[r]);
                }
            } else {
                if i > r + 1 {
                    assert(s[r + 1] < s[i]);
                }
            }
        }
    }

    /// A value of any layer is a value of layer 0.
    proof fn lemma_in_base(&self, k: int, i: int)
        requires
            self.wf(),
            0 <= k < LAYER_COUNT,
            0 <= i < self.len_of(k),
        ensures
            self@.contains(self.value_at_rank(k, i)),
        decreases k,
    {
        assert(self.chain_ok(k));
        let x = self.value_at_rank(k, i);
        if k == 0 {
            assert(self.layer_view(0)[i] == x);
        } else {
            assert(self.down_ok(k));
            let h = self.handle_at(k, i);
            assert(self.node(k, h).value == x);
            let d = self.node(k, h).down.unwrap() as int;
            assert(self.chain_ok(k - 1));
            let j = self.rank_of(k - 1, d);
            assert(self.handle_at(k - 1, j) == d);
            self.lemma_in_base(k - 1, j);
        }
    }

    /// Walks layer `k` from the node at `from` to the last node whose value is
    /// at most `v`.
    fn walk(&self, k: usize, from: usize, v: i64) -> (r: usize)
        requires
            self.wf(),
            k < LAYER_COUNT,
            from < self.len_of(k as int),
            self.node(k as int, from as int).value <= v,
        ensures
            r < self.len_of(k as int),
            self.rank_of(k as int, r as int) >= self.rank_of(k as int, from as int),
            self.node(k as int, r as int).value <= v,
            self.rank_of(k as int, r as int) + 1 < self.len_of(k as int) ==> self.value_at_rank(
                k as int,
                self.rank_of(k as int, r as int) + 1,
            ) > v,
    {
        let ghost kk = k as int;
        assert(self.chain_ok(kk));
        let mut cur = from;
        let mut done = false;
        while !done
            invariant
                self.wf(),
                k < LAYER_COUNT,
                kk == k,
                cur < self.len_of(kk),
                self.rank_of(kk, cur as int) >= self.rank_of(kk, from as int),
                self.node(kk, cur as int).value <= v,
                done ==> (self.rank_of(kk, cur as int) + 1 < self.len_of(kk) ==> self.value_at_rank(
                    kk,
                    self.rank_of(kk, cur as int) + 1,
                ) > v),
            decreases self.len_of(kk) - self.rank_of(kk, cur as int) + if done {
                0int
            } else {
                1int
            },
        {
            assert(self.chain_ok(kk));
            let ghost i = self.rank_of(kk, cur as int);
            assert(self.handle_at(kk, i) == cur);
            assert(self.node(kk, self.handle_at(kk, i)).next == if i + 1 < self.len_of(kk) {
                Some(self.order@[kk][i + 1])
            } else {
                None
            });
            match self.layers[k][cur].next {
                None => {
                    done = true;
                },
                Some(nx) => {
                    assert(self.handle_at(kk, i + 1) == nx);
                    assert(self.rank_of(kk, nx as int) == i + 1);
                    if v < self.layers[k][nx].value {
                        done = true;
                    } else {
                        cur = nx;
                    }
                },
            }
        }
        cur
    }

    /// An empty structure: every layer empty, every head unset.
    pub fn new() -> (r: Self)
        ensures
            r.wf(),
            r@ == Seq::<i64>::empty(),
            forall|k: int| 0 <= k < LAYER_COUNT ==> #[trigger] r.layer_view(k) == Seq::<i64>::empty(),
    {
        let mut layers: Vec<Vec<Node>> = Vec::new();
        let mut head: Vec<Option<usize>> = Vec::new();
        let mut i: usize = 0;
        while i < LAYER_COUNT
            invariant
                i <= LAYER_COUNT,
                layers@.len() == i,
                head@.len() == i,
                forall|j: int| 0 <= j < i ==> (#[trigger] layers@[j])@.len() == 0 && head@[j] is None,
            decreases LAYER_COUNT - i,
        {
            layers.push(Vec::new());
            head.push(None);
            i = i + 1;
        }
        let r = SkipList {
            layers,
            head,
            order: Ghost(Seq::new(LAYER_COUNT as nat, |k: int| Seq::<usize>::empty())),
            rank: Ghost(Seq::new(LAYER_COUNT as nat, |k: int| Seq::<int>::empty())),
        };
        proof {
            assert forall|k: int| 0 <= k < LAYER_COUNT implies #[trigger] r.chain_ok(k) && r.down_ok(k)
                && r.layer_view(k) == Seq::<i64>::empty() by {
                assert(r.layers@[k]@.len() == 0);
                assert(r.layer_view(k) =~= Seq::<i64>::empty());
            }
        }
        r
    }

    /// The rank after which `pred` asks a new node to go in layer `k`: that of
    /// `pred`, or -1 for the front.
    spec fn splice_rank(&self, k: int, pred: Option<usize>) -> int {
        match pred {
            Some(p) => self.rank_of(k, p as int),
            None => -1,
        }
    }

    /// `pred` is where `v` goes in layer `k`: the node of the greatest value
    /// below `v`, or `None` when every value of the layer is above `v`.
    spec fn splice_ok(&self, k: int, pred: Option<usize>, v: i64) -> bool {
        match pred {
            Some(p) => {
                &&& p < self.len_of(k)
                &&& self.node(k, p as int).value < v
                &&& self.rank_of(k, p as int) + 1 < self.len_of(k) ==> self.value_at_rank(
                    k,
                    self.rank_of(k, p as int) + 1,
                ) > v
            },
            None => self.len_of(k) == 0 || self.value_at_rank(k, 0) > v,
        }
    }

    /// A layer equal to a well-linked one is well linked, with the same values.
    proof fn lemma_same_chain(&self, other: SkipList, k: int)
        requires
            self.same_layer(other, k),
            other.chain_ok(k),
        ensures
            self.chain_ok(k),
            self.layer_view(k) == other.layer_view(k),
    {
        assert forall|h: int| #[trigger] self.node(k, h) == other.node(k, h) by {}
        assert forall|i: int| #[trigger] self.handle_at(k, i) == other.handle_at(k, i) by {}
        assert forall|h: int| #[trigger] self.rank_of(k, h) == other.rank_of(k, h) by {}
        assert(self.layer_view(k) =~= other.layer_view(k));
    }

    /// Down links of layer `k` stay right when layers `k` and `k - 1` are unchanged.
    proof fn lemma_same_down(&self, other: SkipList, k: int)
        requires
            0 <= k,
            self.same_layer(other, k),
            k > 0 ==> self.same_layer(other, k - 1),
            other.down_ok(k),
        ensures
            self.down_ok(k),
    {
        assert forall|h: int| #[trigger] self.node(k, h) == other.node(k, h) by {}
        assert(self.len_of(k) == other.len_of(k));
        if k > 0 {
            assert(self.len_of(k - 1) == other.len_of(k - 1));
            assert forall|h: int| 0 <= h < self.len_of(k) implies {
                let d = (#[trigger] self.node(k, h)).down;
                &&& d is Some
                &&& d.unwrap() < self.len_of(k - 1)
                &&& self.node(k - 1, d.unwrap() as int).value == self.node(k, h).value
            } by {
                let d = other.node(k, h).down.unwrap() as int;
                assert(self.node(k - 1, d) == other.node(k - 1, d));
            }
        }
    }

    /// The rank that `splice_ok` gives lies in the layer, between a value
    /// below `v` and one above it.
    proof fn lemma_splice_rank(&self, k: int, pred: Option<usize>, v: i64)
        requires
            self.wf(),
            0 <= k < LAYER_COUNT,
            self.splice_ok(k, pred, v),
        ensures
            -1 <= self.splice_rank(k, pred) < self.len_of(k),
            self.splice_rank(k, pred) >= 0 ==> self.value_at_rank(k, self.splice_rank(k, pred)) < v,
            self.splice_rank(k, pred) + 1 < self.len_of(k) ==> self.value_at_rank(
                k,
                self.splice_rank(k, pred) + 1,
            ) > v,
    {
        assert(self.chain_ok(k));
        match pred {
            Some(p) => {
                assert(0 <= self.rank_of(k, p as int) < self.len_of(k));
                assert(self.handle_at(k, self.rank_of(k, p as int)) == p);
            },
            None => {},
        }
    }

    /// Links a new node of value `v` into layer `k` right after `pred` (at
    /// the front when `pred` is `None`), with `below` as its down link, and
    /// returns its handle.
    fn splice(&mut self, k: usize, pred: Option<usize>, below: Option<usize>, v: i64) -> (h: usize)
        requires
            old(self).layers@.len() == LAYER_COUNT,
            old(self).head@.len() == LAYER_COUNT,
            old(self).order@.len() == LAYER_COUNT,
            old(self).rank@.len() == LAYER_COUNT,
            k < LAYER_COUNT,
            old(self).chain_ok(k as int),
            old(self).splice_ok(k as int, pred, v),
        ensures
            final(self).layers@.len() == LAYER_COUNT,
            final(self).head@.len() == LAYER_COUNT,
            final(self).order@.len() == LAYER_COUNT,
            final(self).rank@.len() == LAYER_COUNT,
            h == old(self).len_of(k as int),
            final(self).len_of(k as int) == h + 1,
            final(self).node(k as int, h as int).value == v,
            final(self).node(k as int, h as int).down == below,
            final(self).chain_ok(k as int),
            final(self).layer_view(k as int) == old(self).layer_view(k as int).insert(
                old(self).splice_rank(k as int, pred) + 1,
                v,
            ),
            forall|x: int|
                0 <= x < h ==> (#[trigger] final(self).node(k as int, x)).value == old(self).node(
                    k as int,
                    x,
                ).value && final(self).node(k as int, x).down == old(self).node(k as int, x).down,
            forall|j: int|
                0 <= j < LAYER_COUNT && j != k ==> #[trigger] final(self).same_layer(*old(self), j),
    {
        let ghost pre = *self;
        let ghost kk = k as int;
        let ghost r = self.splice_rank(kk, pred);
        let ghost n = self.len_of(kk);
        proof {
            if n > 0 {
                assert(0 <= pre.handle_at(kk, 0) < n);
            }
            if r + 1 < n {
                assert(0 <= pre.handle_at(kk, r + 1) < n);
            }
            match pred {
                Some(p) => {
                    assert(pre.handle_at(kk, r) == p);
                    assert(pre.node(kk, pre.handle_at(kk, r)).next == if r + 1 < n {
                        Some(pre.order@[kk][r + 1])
                    } else {
                        None
                    });
                },
                None => {},
            }
        }
        let succ = match pred {
            Some(p) => self.layers[k][p].next,
            None => self.head[k],
        };
        let h = self.layers[k].len();
        self.layers[k].push(Node { value: v, next: succ, down: below });
        match pred {
            Some(p) => {
                self.layers[k][p].next = Some(h);
            },
            None => {
                self.head[k] = Some(h);
            },
        }
        self.order = Ghost(self.order@.update(kk, pre.order@[kk].insert(r + 1, h)));
        self.rank = Ghost(
            self.rank@.update(
                kk,
                Seq::new(
                    (n + 1) as nat,
                    |x: int|
                        if x == n {
                            r + 1
                        } else if pre.rank_of(kk, x) > r {
                            pre.rank_of(kk, x) + 1
                        } else {
                            pre.rank_of(kk, x)
                        },
                ),
            ),
        );
        proof {
            assert(pre.chain_ok(kk));
            assert forall|x: int| 0 <= x < n implies (#[trigger] self.node(kk, x)).value == pre.node(
                kk,
                x,
            ).value && self.node(kk, x).down == pre.node(kk, x).down && ((pred is None || x != pred.unwrap())
                ==> self.node(kk, x) == pre.node(kk, x)) by {}
            assert forall|i: int| 0 <= i < n + 1 implies 0 <= #[trigger] self.handle_at(kk, i) < n + 1
                && self.rank_of(kk, self.handle_at(kk, i)) == i by {
                if i < r + 1 {
                    assert(self.handle_at(kk, i) == pre.handle_at(kk, i));
                } else if i > r + 1 {
                    assert(self.handle_at(kk, i) == pre.handle_at(kk, i - 1));
                }
            }
            assert forall|x: int| 0 <= x < n + 1 implies 0 <= #[trigger] self.rank_of(kk, x) < n + 1
                && self.handle_at(kk, self.rank_of(kk, x)) == x by {
                if x < n {
                    assert(0 <= pre.rank_of(kk, x) < n);
                    assert(pre.handle_at(kk, pre.rank_of(kk, x)) == x);
                }
            }
            assert forall|i: int| 0 <= i < n + 1 implies (#[trigger] self.node(
                kk,
                self.handle_at(kk, i),
            )).next == if i + 1 < n + 1 {
                Some(self.order@[kk][i + 1])
            } else {
                None
            } by {
                if i < r {
                    assert(pre.node(kk, pre.handle_at(kk, i)).next == Some(pre.order@[kk][i + 1]));
                    assert(pre.handle_at(kk, i) != pre.handle_at(kk, r));
                } else if i > r + 1 {
                    assert(pre.node(kk, pre.handle_at(kk, i - 1)).next == if i < n {
                        Some(pre.order@[kk][i])
                    } else {
                        None
                    });
                    if r >= 0 {
                        assert(pre.handle_at(kk, i - 1) != pre.handle_at(kk, r));
                    }
                }
            }
            assert(self.layer_view(kk) =~= pre.layer_view(kk).insert(r + 1, v));
            let s = self.layer_view(kk);
            let t = pre.layer_view(kk);
            assert forall|i: int, j: int| 0 <= i < j < s.len() implies s[i] < s[j] by {
                if r >= 0 {
                    assert(t[r] < v);
                }
                if r + 1 < n {
                    assert(t[r + 1] > v);
                }
                if i < r + 1 && r >= 0 && i < r {
                    assert(t[i] < t[r]);
                }
                if j > r + 1 && r + 1 < n && j - 1 > r + 1 {
                    assert(t[r + 1] < t[j - 1]);
                }
            }
        }
        h
    }

    /// With layer 0 empty, every layer is empty.
    proof fn lemma_empty_above(&self, k: int)
        requires
            self.wf(),
            0 <= k < LAYER_COUNT,
            self.len_of(0) == 0,
        ensures
            self.len_of(k) == 0,
        decreases k,
    {
        if k > 0 {
            self.lemma_empty_above(k - 1);
            assert(self.down_ok(k));
            if self.len_of(k) > 0 {
                assert(self.node(k, 0).down.unwrap() < self.len_of(k - 1));
            }
        }
    }

    /// Inserts `v` as a tower of `height` layers (of all layers when the
    /// structure is empty); does nothing when `v` is already stored.
    pub fn insert_with_height(&mut self, v: i64, height: usize)
        requires
            old(self).wf(),
            1 <= height <= LAYER_COUNT,
        ensures
            insert_outcome(*old(self), *final(self), v),
            !old(self)@.contains(v) ==> forall|k: int|
                0 <= k < LAYER_COUNT ==> #[trigger] final(self).layer_view(k).to_set() == if k
                    < tower_height(old(self)@.len() as int, height as int) {
                    old(self).layer_view(k).to_set().insert(v)
                } else {
                    old(self).layer_view(k).to_set()
                },
    {
        let ghost pre = *self;
        let mut preds: Vec<Option<usize>> = Vec::new();
        let mut i: usize = 0;
        while i < LAYER_COUNT
            invariant
                i <= LAYER_COUNT,
                preds@.len() == i,
            decreases LAYER_COUNT - i,
        {
            preds.push(None);
            i = i + 1;
        }
        // Locate the splice point on each layer, from the sparsest down.
        let mut start: Option<usize> = None;
        let mut rl: usize = 0;
        while rl < LAYER_COUNT
            invariant
                *self == pre,
                pre.wf(),
                rl <= LAYER_COUNT,
                preds@.len() == LAYER_COUNT,
                match start {
                    Some(h) => rl < LAYER_COUNT && h < pre.len_of(LAYER_COUNT - 1 - rl)
                        && pre.node(LAYER_COUNT - 1 - rl, h as int).value < v,
                    None => true,
                },
                forall|k: int|
                    LAYER_COUNT - rl <= k < LAYER_COUNT ==> #[trigger] pre.splice_ok(k, preds@[k], v),
            decreases LAYER_COUNT - rl,
        {
            let layer = LAYER_COUNT - 1 - rl;
            let ghost k = layer as int;
            assert(pre.chain_ok(k));
            assert(pre.down_ok(k));
            proof {
                if pre.len_of(k) > 0 {
                    assert(0 <= pre.handle_at(k, 0) < pre.len_of(k));
                }
            }
            let cand = match start {
                Some(h) => Some(h),
                None => self.head[layer],
            };
            match cand {
                None => {
                    preds[layer] = None;
                },
                Some(h0) => {
                    if v < self.layers[layer][h0].value {
                        assert(start is None && pre.handle_at(k, 0) == h0);
                        preds[layer] = None;
                        start = None;
                    } else {
                        let at = self.walk(layer, h0, v);
                        let ghost i = pre.rank_of(k, at as int);
                        assert(pre.handle_at(k, i) == at);
                        if self.layers[layer][at].value == v {
                            proof {
                                pre.lemma_in_base(k, i);
                                assert(pre@.to_set().insert(v) =~= pre@.to_set());
                            }
                            return;
                        }
                        preds[layer] = Some(at);
                        start = self.layers[layer][at].down;
                    }
                },
            }
            rl = rl + 1;
        }
        proof {
            assert(pre.chain_ok(0));
            pre.lemma_splice_rank(0, preds@[0], v);
            pre.lemma_absent(0, pre.splice_rank(0, preds@[0]), v);
            if pre.len_of(0) == 0 {
                assert forall|k: int| 0 <= k < LAYER_COUNT implies pre.len_of(k) == 0 by {
                    pre.lemma_empty_above(k);
                }
            }
        }
        // Link the new tower in, from layer 0 up.
        let hgt: usize = if self.head[0].is_none() {
            LAYER_COUNT
        } else {
            height
        };
        let mut below: Option<usize> = None;
        let mut j: usize = 0;
        while j < hgt
            invariant
                pre.wf(),
                j <= hgt <= LAYER_COUNT,
                hgt == tower_height(pre@.len() as int, height as int),
                preds@.len() == LAYER_COUNT,
                self.layers@.len() == LAYER_COUNT,
                self.head@.len() == LAYER_COUNT,
                self.order@.len() == LAYER_COUNT,
                self.rank@.len() == LAYER_COUNT,
                forall|k: int| 0 <= k < LAYER_COUNT ==> #[trigger] self.chain_ok(k),
                forall|k: int| 0 <= k < LAYER_COUNT ==> #[trigger] self.down_ok(k),
                forall|k: int|
                    0 <= k < j ==> #[trigger] self.layer_view(k) == pre.layer_view(k).insert(
                        pre.splice_rank(k, preds@[k]) + 1,
                        v,
                    ),
                forall|k: int| j <= k < LAYER_COUNT ==> #[trigger] self.same_layer(pre, k),
                forall|k: int| 0 <= k < LAYER_COUNT ==> #[trigger] pre.splice_ok(k, preds@[k], v),
                j == 0 ==> below is None,
                j > 0 ==> below is Some && below.unwrap() < self.len_of(j - 1) && self.node(
                    j - 1,
                    below.unwrap() as int,
                ).value == v,
            decreases hgt - j,
        {
            let ghost before = *self;
            let ghost jj = j as int;
            assert(self.same_layer(pre, jj));
            assert(self.splice_ok(jj, preds@[jj], v) == pre.splice_ok(jj, preds@[jj], v));
            let nh = self.splice(j, preds[j], below, v);
            proof {
                assert forall|k: int| jj < k < LAYER_COUNT implies #[trigger] self.same_layer(pre, k) by {
                    assert(self.same_layer(before, k));
                    assert(before.same_layer(pre, k));
                }
                assert forall|k: int| 0 <= k < LAYER_COUNT implies #[trigger] self.down_ok(k) by {
                    assert(before.down_ok(k));
                    if k == jj {
                        if k > 0 {
                            assert(self.same_layer(before, k - 1));
                            assert forall|h: int| 0 <= h < self.len_of(k) implies {
                                let d = (#[trigger] self.node(k, h)).down;
                                &&& d is Some
                                &&& d.unwrap() < self.len_of(k - 1)
                                &&& self.node(k - 1, d.unwrap() as int).value == self.node(k, h).value
                            } by {
                                if h < nh {
                                    assert(self.node(k, h).down == before.node(k, h).down);
                                    assert(self.node(k, h).value == before.node(k, h).value);
                                    assert(before.node(k, h).down.unwrap() < before.len_of(k - 1));
                                } else {
                                    assert(h == nh);
                                }
                            }
                        } else {
                            assert forall|h: int| 0 <= h < self.len_of(k) implies (
                            #[trigger] self.node(k, h)).down is None by {
                                if h < nh {
                                    assert(before.node(k, h).down is None);
                                }
                            }
                        }
                    } else if k == jj + 1 {
                        assert forall|h: int| 0 <= h < self.len_of(k) implies {
                            let d = (#[trigger] self.node(k, h)).down;
                            &&& d is Some
                            &&& d.unwrap() < self.len_of(k - 1)
                            &&& self.node(k - 1, d.unwrap() as int).value == self.node(k, h).value
                        } by {
                            assert(self.same_layer(before, k));
                            assert(self.node(k, h) == before.node(k, h));
                            let d = before.node(k, h).down.unwrap() as int;
                            assert(d < before.len_of(jj));
                            assert(self.node(jj, d).value == before.node(jj, d).value);
                        }
                    } else {
                        assert(self.same_layer(before, k));
                        if k > 0 {
                            assert(self.same_layer(before, k - 1));
                        }
                        self.lemma_same_down(before, k);
                    }
                }
                assert forall|k: int| 0 <= k < LAYER_COUNT implies #[trigger] self.chain_ok(k) by {
                    if k != jj {
                        assert(before.chain_ok(k));
                        assert(self.same_layer(before, k));
                        self.lemma_same_chain(before, k);
                    }
                }
                assert forall|k: int| 0 <= k < jj implies #[trigger] self.layer_view(k)
                    == before.layer_view(k) by {
                    assert(self.same_layer(before, k));
                    assert(before.chain_ok(k));
                    self.lemma_same_chain(before, k);
                }
                assert(before.layer_view(jj) =~= pre.layer_view(jj));
            }
            below = Some(nh);
            j = j + 1;
        }
        proof {
            assert forall|k: int| 0 <= k < LAYER_COUNT implies #[trigger] self.layer_view(k).to_set()
                == if k < hgt {
                pre.layer_view(k).to_set().insert(v)
            } else {
                pre.layer_view(k).to_set()
            } by {
                assert(pre.chain_ok(k));
                if k < hgt {
                    pre.lemma_splice_rank(k, preds@[k], v);
                    lemma_insert_to_set(pre.layer_view(k), pre.splice_rank(k, preds@[k]) + 1, v);
                } else {
                    assert(self.same_layer(pre, k));
                    assert(pre.chain_ok(k));
                    self.lemma_same_chain(pre, k);
                }
            }
            assert forall|w: i64| #[trigger] self@.contains(w) <==> pre@.contains(w) || w == v by {
                assert(self@.to_set().contains(w) == self@.contains(w));
                assert(pre@.to_set().contains(w) == pre@.contains(w));
            }
            if pre.len_of(0) == 0 {
                assert forall|k: int| 0 <= k < LAYER_COUNT implies #[trigger] self.layer_view(k)
                    == seq![v] by {
                    assert(pre.chain_ok(k));
                    pre.lemma_empty_above(k);
                    pre.lemma_splice_rank(k, preds@[k], v);
                    assert(pre.layer_view(k) =~= Seq::<i64>::empty());
                    assert(self.layer_view(k) =~= seq![v]);
                }
            }
        }
    }

    /// Inserts `v` on a randomly drawn number of layers; does nothing when
    /// `v` is already stored.
    pub fn insert(&mut self, v: i64)
        requires
            old(self).wf(),
        ensures
            insert_outcome(*old(self), *final(self), v),
    {
        let height = draw_height(LAYER_COUNT);
        self.insert_with_height(v, height);
    }

    /// Whether `v` is stored: a descent from the sparsest layer, which stops
    /// as soon as some layer holds `v`.
    pub fn contains(&self, v: i64) -> (r: bool)
        requires
            self.wf(),
        ensures
            r == self@.contains(v),
    {
        let mut start: Option<usize> = None;
        let mut rl: usize = 0;
        while rl < LAYER_COUNT
            invariant
                self.wf(),
                rl <= LAYER_COUNT,
                match start {
                    Some(h) => rl < LAYER_COUNT && h < self.len_of(LAYER_COUNT - 1 - rl)
                        && self.node(LAYER_COUNT - 1 - rl, h as int).value < v,
                    None => true,
                },
                rl > 0 ==> !self.layer_view(LAYER_COUNT - rl).contains(v),
            decreases LAYER_COUNT - rl,
        {
            let layer = LAYER_COUNT - 1 - rl;
            let ghost k = layer as int;
            assert(self.chain_ok(k));
            assert(self.down_ok(k));
            proof {
                if self.len_of(k) > 0 {
                    assert(0 <= self.handle_at(k, 0) < self.len_of(k));
                }
            }
            let cand = match start {
                Some(h) => Some(h),
                None => self.head[layer],
            };
            match cand {
                None => {
                    proof {
                        self.lemma_absent(k, -1, v);
                    }
                },
                Some(h0) => {
                    if v < self.layers[layer][h0].value {
                        assert(start is None && self.handle_at(k, 0) == h0);
                        proof {
                            self.lemma_absent(k, -1, v);
                        }
                        start = None;
                    } else {
                        let at = self.walk(layer, h0, v);
                        let ghost i = self.rank_of(k, at as int);
                        assert(self.handle_at(k, i) == at);
                        if self.layers[layer][at].value == v {
                            proof {
                                self.lemma_in_base(k, i);
                            }
                            return true;
                        }
                        proof {
                            self.lemma_absent(k, i, v);
                        }
                        start = self.layers[layer][at].down;
                    }
                },
            }
            rl = rl + 1;
        }
        false
    }
}

impl SkipList {
    /// The values of layer `layer`, read along its chain from the head.
    pub fn layer_values(&self, layer: usize) -> (r: Vec<i64>)
        requires
            self.wf(),
            layer < LAYER_COUNT,
        ensures
            r@ == self.layer_view(layer as int),
    {
        let ghost k = layer as int;
        assert(self.chain_ok(k));
        let ghost n = self.len_of(k);
        proof {
            if n > 0 {
                assert(0 <= self.handle_at(k, 0) < n);
            }
        }
        let mut out: Vec<i64> = Vec::new();
        let mut cur = self.head[layer];
        while cur.is_some()
            invariant
                self.wf(),
                k == layer,
                layer < LAYER_COUNT,
                n == self.len_of(k),
                out@.len() <= n,
                out@ == self.layer_view(k).take(out@.len() as int),
                cur == if out@.len() < n {
                    Some(self.order@[k][out@.len() as int])
                } else {
                    None::<usize>
                },
            decreases n - out@.len(),
        {
            let h = cur.unwrap();
            let ghost i = out@.len() as int;
            assert(self.chain_ok(k));
            assert(0 <= self.handle_at(k, i) < n);
            assert(self.node(k, self.handle_at(k, i)).next == if i + 1 < n {
                Some(self.order@[k][i + 1])
            } else {
                None
            });
            out.push(self.layers[layer][h].value);
            cur = self.layers[layer][h].next;
            assert(out@ =~= self.layer_view(k).take(i + 1));
        }
        assert(out@ =~= self.layer_view(k));
        out
    }

    /// The stored values in increasing order.
    pub fn values(&self) -> (r: Vec<i64>)
        requires
            self.wf(),
        ensures
            r@ == self@,
    {
        self.layer_values(0)
    }

    /// For each stored value in increasing order, whether layer `layer` also
    /// holds it: the outline of one fast lane against the full sequence.
    pub fn layer_presence(&self, layer: usize) -> (r: Vec<bool>)
        requires
            self.wf(),
            layer < LAYER_COUNT,
        ensures
            r@.len() == self@.len(),
            forall|i: int|
                0 <= i < r@.len() ==> #[trigger] r@[i] == self.layer_view(layer as int).contains(
                    self@[i],
                ),
    {
        let base = self.values();
        let lane = self.layer_values(layer);
        proof {
            lemma_layer_sorted(*self);
            lemma_layers_nested(*self, layer as int);
        }
        let ghost b = base@;
        let ghost l = lane@;
        let mut out: Vec<bool> = Vec::new();
        let mut i: usize = 0;
        let mut r: usize = 0;
        while i < base.len()
            invariant
                b == base@,
                l == lane@,
                b == self@,
                l == self.layer_view(layer as int),
                strictly_increasing(b),
                strictly_increasing(l),
                forall|q: int| 0 <= q < l.len() ==> b.contains(#[trigger] l[q]),
                i <= b.len(),
                r <= l.len(),
                out@.len() == i,
                forall|j: int| 0 <= j < i ==> #[trigger] out@[j] == l.contains(b[j]),
                i < b.len() ==> forall|q: int| 0 <= q < r ==> #[trigger] l[q] < b[i as int],
                i < b.len() && r < l.len() ==> l[r as int] >= b[i as int],
            decreases b.len() - i,
        {
            let ghost ii = i as int;
            let x = base[i];
            let hit = r < lane.len() && lane[r] == x;
            proof {
                if hit {
                    assert(l[r as int] == b[ii]);
                } else {
                    assert forall|q: int| 0 <= q < l.len() implies l[q] != b[ii] by {
                        if q > r {
                            assert(l[r as int] < l[q]);
                        }
                    }
                }
            }
            out.push(hit);
            if hit {
                r = r + 1;
            }
            i = i + 1;
            proof {
                if i < b.len() {
                    assert forall|q: int| 0 <= q < r implies #[trigger] l[q] < b[i as int] by {
                        assert(b[ii] < b[i as int]);
                        if q < r - 1 || !hit {
                            assert(l[q] < b[ii]);
                        }
                    }
                    if r < l.len() {
                        let y = l[r as int];
                        assert(b.contains(y));
                        let p = choose|p: int| 0 <= p < b.len() && b[p] == y;
                        if hit {
                            assert(l[r - 1] < y);
                        }
                        assert(y > b[ii]);
                        if p <= ii {
                            if p < ii {
                                assert(b[p] < b[ii]);
                            }
                        }
                        if p > i as int {
                            assert(b[i as int] < b[p]);
                        }
                    }
                }
            }
        }
        out
    }
}

/// Every layer is strictly increasing along its chain.
pub proof fn lemma_layer_sorted(s: SkipList)
    requires
        s.wf(),
    ensures
        strictly_increasing(s@),
        forall|k: int| 0 <= k < LAYER_COUNT ==> strictly_increasing(#[trigger] s.layer_view(k)),
{
    assert forall|k: int| 0 <= k < LAYER_COUNT implies strictly_increasing(
        #[trigger] s.layer_view(k),
    ) by {
        assert(s.chain_ok(k));
    }
    assert(s.chain_ok(0));
}

/// Every value of layer `k` is a stored value; above layer 0, it is also a
/// value of layer `k - 1`, so each fast lane is a subsequence of the one below.
pub proof fn lemma_layers_nested(s: SkipList, k: int)
    requires
        s.wf(),
        0 <= k < LAYER_COUNT,
    ensures
        forall|i: int| 0 <= i < s.layer_view(k).len() ==> s@.contains(#[trigger] s.layer_view(k)[i]),
        k > 0 ==> s.layer_view(k).to_set().subset_of(s.layer_view(k - 1).to_set()),
{
    assert(s.chain_ok(k));
    assert forall|i: int| 0 <= i < s.layer_view(k).len() implies s@.contains(
        #[trigger] s.layer_view(k)[i],
    ) by {
        s.lemma_in_base(k, i);
    }
    if k > 0 {
        assert(s.down_ok(k));
        assert(s.chain_ok(k - 1));
        assert forall|x: i64| s.layer_view(k).to_set().contains(x) implies s.layer_view(
            k - 1,
        ).to_set().contains(x) by {
            let i = choose|i: int| 0 <= i < s.layer_view(k).len() && s.layer_view(k)[i] == x;
            let h = s.handle_at(k, i);
            let d = s.node(k, h).down.unwrap() as int;
            let j = s.rank_of(k - 1, d);
            assert(s.handle_at(k - 1, j) == d);
            assert(s.layer_view(k - 1)[j] == x);
        }
    }
}

/// Membership after a run of inserts into a fresh structure: a value is
/// stored exactly when it was inserted at least once.
pub proof fn lemma_membership_after_inserts(states: Seq<SkipList>, vs: Seq<i64>, w: i64)
    requires
        states.len() == vs.len() + 1,
        states[0]@ == Seq::<i64>::empty(),
        forall|i: int|
            0 <= i < vs.len() ==> insert_outcome(#[trigger] states[i], states[i + 1], vs[i]),
    ensures
        states.last()@.contains(w) <==> vs.contains(w),
    decreases vs.len(),
{
    if vs.len() > 0 {
        let n = vs.len() - 1;
        let front = states.drop_last();
        let vfront = vs.drop_last();
        assert forall|i: int| 0 <= i < vfront.len() implies insert_outcome(
            #[trigger] front[i],
            front[i + 1],
            vfront[i],
        ) by {
            assert(insert_outcome(states[i], states[i + 1], vs[i]));
        }
        lemma_membership_after_inserts(front, vfront, w);
        assert(insert_outcome(states[n], states[n + 1], vs[n]));
        assert(states[n]@.contains(w) == front.last()@.contains(w));
        assert(states.last()@.contains(w) <==> states[n]@.contains(w) || w == vs[n]);
        if vfront.contains(w) {
            let j = choose|j: int| 0 <= j < vfront.len() && vfront[j] == w;
            assert(vs[j] == w);
        }
        if vs.contains(w) && w != vs[n] {
            let j = choose|j: int| 0 <= j < vs.len() && vs[j] == w;
            assert(vfront[j] == w);
        }
        if w == vs[n] {
            assert(vs.contains(w));
        }
    }
}

/// Inserting the same value twice: the second insert changes nothing.
pub proof fn lemma_insert_twice(s0: SkipList, s1: SkipList, s2: SkipList, v: i64)
    requires
        insert_outcome(s0, s1, v),
        insert_outcome(s1, s2, v),
    ensures
        s2 == s1,
        s2@ == s1@,
        forall|w: i64| s2@.contains(w) == s1@.contains(w),
{
    assert(s1@.to_set().contains(v));
}

/// A fresh structure stores nothing.
pub proof fn lemma_new_is_empty(s: SkipList, w: i64)
    requires
        s.wf(),
        s@ == Seq::<i64>::empty(),
    ensures
        !s@.contains(w),
{
}

impl Default for SkipList {
    fn default() -> (r: Self)
        ensures
            r.wf(),
            r@ == Seq::<i64>::empty(),
            forall|k: int| 0 <= k < LAYER_COUNT ==> #[trigger] r.layer_view(k) == Seq::<i64>::empty(),
    {
        SkipList::new()
    }
}

impl View for SkipList {
    type V = Seq<i64>;

    /// The stored values in increasing order: layer 0's chain.
    closed spec fn view(&self) -> Seq<i64> {
        self.layer_view(0)
    }
}

} // verus!
