use vstd::prelude::*;

verus! {

// A skip list is a probabilistic structure for fast search within an ordered
// sequence. The bottom level is a sorted list holding every element; each
// higher level is a sparser express lane over the ones below, and the chance
// that an element reaches a level shrinks geometrically with the level.
//
// Nodes live in an arena (one growable table); every link is the arena index
// of the successor, so a node shared by several levels is shared by index
// rather than by pointer. Index zero is the head sentinel, which spans every
// level and is never reported as an element.

/// One element of the skip list: an optional key, an optional value, and one
/// forward slot per level the node participates in. A slot holds the arena
/// index of the successor at that level, or nothing at the end of a level.
#[derive(Debug)]
pub struct SkipNode {
    pub key: Option<String>,
    pub value: Option<u64>,
    pub next: Vec<Option<usize>>,
}

impl SkipNode {
    pub fn new(key: String, value: u64, levels: usize) -> (r: SkipNode)
        requires
            levels >= 1,
        ensures
            r.key == Some(key),
            r.value == Some(value),
            r.next@.len() == levels,
            forall|i: int| 0 <= i < levels ==> #[trigger] r.next@[i] is None,
    {
        SkipNode { key: Some(key), value: Some(value), next: Self::empty_level(levels) }
    }

    fn empty_level(levels: usize) -> (r: Vec<Option<usize>>)
        ensures
            r@.len() == levels,
            forall|i: int| 0 <= i < levels ==> #[trigger] r@[i] is None,
    {
        let mut next: Vec<Option<usize>> = Vec::new();
        let mut k: usize = 0;
        while k < levels
            invariant
                k <= levels,
                next@.len() == k,
                forall|i: int| 0 <= i < k ==> #[trigger] next@[i] is None,
            decreases levels - k,
        {
            next.push(None);
            k = k + 1;
        }
        next
    }

    /// A head node: the same shape as an ordinary node; the list treats it
    /// specially only by never reporting it as a found element.
    pub fn sentinel(levels: usize, key: String, value: u64) -> (r: SkipNode)
        ensures
            r.key == Some(key),
            r.value == Some(value),
            r.next@.len() == levels,
            forall|i: int| 0 <= i < levels ==> #[trigger] r.next@[i] is None,
    {
        SkipNode { key: Some(key), value: Some(value), next: Self::empty_level(levels) }
    }
}

/// The chance of promotion from a level, as a threshold on a uniformly drawn
/// sixty-four-bit coin: the whole range at the bottom level, halving with
/// each level above it.
pub closed spec fn level_threshold(i: nat) -> u64
    decreases i,
{
    if i == 0 {
        u64::MAX
    } else {
        level_threshold((i - 1) as nat) / 2
    }
}

/// Splicing an element into a sequence makes it a member and keeps the rest.
proof fn lemma_insert_contains<A>(s: Seq<A>, q: int, x: A, y: A)
    requires
        0 <= q <= s.len(),
    ensures
        s.insert(q, x).contains(y) <==> (s.contains(y) || y == x),
{
    let t = s.insert(q, x);
    s.insert_ensures(q, x);
    if s.contains(y) {
        let j = choose|j: int| 0 <= j < s.len() && s[j] == y;
        if j < q {
            assert(t[j] == y);
        } else {
            assert(t[j + 1] == y);
        }
    }
    assert(t[q] == x);
    if t.contains(y) {
        let j = choose|j: int| 0 <= j < t.len() && t[j] == y;
        if j < q {
            assert(s[j] == y);
        } else if j > q {
            assert(s[j - 1] == y);
        }
    }
}

/// Dropping one element of a duplicate-free sequence removes exactly it.
proof fn lemma_remove_contains<A>(s: Seq<A>, q: int, y: A)
    requires
        0 <= q < s.len(),
        forall|j: int| 0 <= j < s.len() && j != q ==> s[j] != s[q],
    ensures
        s.remove(q).contains(y) <==> (s.contains(y) && y != s[q]),
{
    let t = s.remove(q);
    s.remove_ensures(q);
    if t.contains(y) {
        let j = choose|j: int| 0 <= j < t.len() && t[j] == y;
        if j < q {
            assert(s[j] == y);
        } else {
            assert(s[j + 1] == y);
        }
    }
    if s.contains(y) && y != s[q] {
        let j = choose|j: int| 0 <= j < s.len() && s[j] == y;
        if j < q {
            assert(t[j] == y);
        } else {
            assert(t[j - 1] == y);
        }
    }
}

/// An ordered map over values, with decorative keys: multi-level forward
/// links over an arena of nodes, the head sentinel at index zero.
pub struct SkipList {
    nodes: Vec<SkipNode>,
    max_level: usize,
    probability_by_level: Vec<u64>,
    chains: Ghost<Seq<Seq<usize>>>,
}

impl SkipList {
    pub closed spec fn spec_max_level(&self) -> usize {
        self.max_level
    }

    /// How many slots the arena holds, the head sentinel included.
    pub closed spec fn node_count(&self) -> int {
        self.nodes@.len() as int
    }

    /// What the arena stores for a node, if the index is in range.
    pub closed spec fn spec_node_value(&self, i: int) -> Option<u64> {
        self.nodes@[i].value
    }

    /// The indices that form the linked chain at a level, head excluded,
    /// front to back.
    pub closed spec fn chain(&self, lvl: int) -> Seq<usize> {
        self.chains@[lvl]
    }

    /// Whether node i is linked into the chain at the given level.
    pub closed spec fn in_chain(&self, lvl: int, i: int) -> bool {
        exists|k: int| 0 <= k < self.chain(lvl).len() && #[trigger] self.chain(lvl)[k] == i
    }

    spec fn val_of(&self, i: int) -> u64 {
        self.nodes@[i].value.unwrap()
    }

    spec fn levels_of(&self, i: int) -> int {
        self.nodes@[i].next@.len() as int
    }

    spec fn fwd(&self, i: int, lvl: int) -> Option<usize> {
        self.nodes@[i].next@[lvl]
    }

    /// A node that holds an element: not the head, and not yet deleted.
    pub closed spec fn live(&self, i: int) -> bool {
        1 <= i < self.node_count() && self.nodes@[i].value is Some
    }

    /// The values along one level's chain, front to back.
    pub closed spec fn level_seq(&self, lvl: int) -> Seq<u64> {
        self.chain(lvl).map_values(|i: usize| self.nodes@[i as int].value.unwrap())
    }

    /// The values the list holds: the values along the bottom level.
    pub open spec fn value_seq(&self) -> Seq<u64> {
        self.level_seq(0)
    }

    pub open spec fn contains_value(&self, v: u64) -> bool {
        self.value_seq().contains(v)
    }

    pub open spec fn level_contains(&self, lvl: int, v: u64) -> bool {
        self.level_seq(lvl).contains(v)
    }

    /// The chain at one level is sound: every entry is a live node that
    /// spans the level, the links thread the entries in order, and the
    /// values strictly increase.
    spec fn wf_chain(&self, lvl: int) -> bool {
        let ch = self.chain(lvl);
        &&& forall|k: int|
            0 <= k < ch.len() ==> 1 <= #[trigger] ch[k] < self.node_count()
                && self.levels_of(ch[k] as int) > lvl && self.nodes@[ch[k] as int].value is Some
        &&& self.fwd(0, lvl) == if ch.len() == 0 {
            None::<usize>
        } else {
            Some(ch[0])
        }
        &&& forall|k: int|
            0 <= k < ch.len() - 1 ==> self.fwd(#[trigger] ch[k] as int, lvl) == Some(ch[k + 1])
        &&& (ch.len() > 0 ==> self.fwd(ch.last() as int, lvl) is None)
        &&& forall|k1: int, k2: int|
            0 <= k1 < k2 < ch.len() ==> self.val_of(#[trigger] ch[k1] as int) < self.val_of(
                #[trigger] ch[k2] as int,
            )
    }

    /// The whole structure is sound: the head spans every level, each level's
    /// chain is sound, and a live node is linked into exactly the levels it
    /// spans, which start at the bottom.
    pub closed spec fn wf(&self) -> bool {
        &&& 1 <= self.max_level
        &&& self.nodes@.len() >= 1
        &&& self.levels_of(0) == self.max_level
        &&& self.nodes@[0].value is Some
        &&& self.chains@.len() == self.max_level
        &&& self.probability_by_level@.len() == self.max_level
        &&& forall|i: int|
            0 <= i < self.max_level ==> #[trigger] self.probability_by_level@[i]
                == level_threshold(i as nat)
        &&& forall|lvl: int| 0 <= lvl < self.max_level ==> #[trigger] self.wf_chain(lvl)
        &&& forall|i: int|
            1 <= i < self.node_count() ==> 1 <= #[trigger] self.levels_of(i) <= self.max_level
        &&& forall|lvl: int, i: int|
            0 <= lvl < self.max_level && 1 <= i < self.node_count() ==> (#[trigger] self.in_chain(
                lvl,
                i,
            ) <==> (self.nodes@[i].value is Some && self.levels_of(i) > lvl))
    }

    /// The tail value is accepted for symmetry with the head but no tail
    /// sentinel is kept: a level simply ends at its last node.
    #[allow(unused_variables)]
    pub fn new(max_level: usize, head_value: u64, tail_value: u64) -> (r: SkipList)
        requires
            1 <= max_level,
        ensures
            r.wf(),
            r.spec_max_level() == max_level,
            forall|lvl: int| 0 <= lvl < max_level ==> #[trigger] r.level_seq(lvl)
                == Seq::<u64>::empty(),
            r.value_seq() == Seq::<u64>::empty(),
    {
        let mut probability_by_level: Vec<u64> = Vec::new();
        let mut t: u64 = u64::MAX;
        let mut i: usize = 0;
        while i < max_level
            invariant
                i <= max_level,
                probability_by_level@.len() == i,
                t == level_threshold(i as nat),
                forall|k: int|
                    0 <= k < i ==> #[trigger] probability_by_level@[k] == level_threshold(k as nat),
            decreases max_level - i,
        {
            probability_by_level.push(t);
            t = t / 2;
            i = i + 1;
        }
        let head = SkipNode::sentinel(max_level, String::new(), head_value);
        let mut nodes: Vec<SkipNode> = Vec::new();
        nodes.push(head);
        let r = SkipList {
            nodes,
            max_level,
            probability_by_level,
            chains: Ghost(Seq::new(max_level as nat, |lvl: int| Seq::<usize>::empty())),
        };
        proof {
            assert forall|lvl: int| 0 <= lvl < max_level implies #[trigger] r.wf_chain(lvl) by {
                assert(r.chain(lvl).len() == 0);
            }
            assert forall|lvl: int| 0 <= lvl < max_level implies #[trigger] r.level_seq(lvl)
                == Seq::<u64>::empty() by {
                assert(r.level_seq(lvl) =~= Seq::<u64>::empty());
            }
        }
        r
    }

    /// Reads the successor index of a node at one of its levels.
    fn get_forward(&self, i: usize, level: usize) -> (r: Option<usize>)
        requires
            i < self.nodes@.len(),
            level < self.nodes@[i as int].next@.len(),
        ensures
            r == self.fwd(i as int, level as int),
    {
        self.nodes[i].next[level]
    }

    /// Points a node's forward slot at one of its levels to a new successor.
    fn set_forward(&mut self, i: usize, level: usize, target: Option<usize>)
        requires
            i < old(self).nodes@.len(),
            level < old(self).nodes@[i as int].next@.len(),
        ensures
            final(self).nodes@.len() == old(self).nodes@.len(),
            forall|j: int|
                0 <= j < old(self).nodes@.len() && j != i ==> final(self).nodes@[j] == old(
                    self,
                ).nodes@[j],
            final(self).nodes@[i as int].key == old(self).nodes@[i as int].key,
            final(self).nodes@[i as int].value == old(self).nodes@[i as int].value,
            final(self).nodes@[i as int].next@ == old(self).nodes@[i as int].next@.update(
                level as int,
                target,
            ),
            final(self).max_level == old(self).max_level,
            final(self).probability_by_level == old(self).probability_by_level,
            final(self).chains == old(self).chains,
    {
        self.nodes[i].next[level] = target;
    }

    /// Swaps a node's stored value for another, handing back the old one.
    fn replace_value(&mut self, i: usize, v: Option<u64>) -> (r: Option<u64>)
        requires
            i < old(self).nodes@.len(),
        ensures
            r == old(self).nodes@[i as int].value,
            final(self).nodes@.len() == old(self).nodes@.len(),
            forall|j: int|
                0 <= j < old(self).nodes@.len() && j != i ==> final(self).nodes@[j] == old(
                    self,
                ).nodes@[j],
            final(self).nodes@[i as int].key == old(self).nodes@[i as int].key,
            final(self).nodes@[i as int].value == v,
            final(self).nodes@[i as int].next == old(self).nodes@[i as int].next,
            final(self).max_level == old(self).max_level,
            final(self).probability_by_level == old(self).probability_by_level,
            final(self).chains == old(self).chains,
    {
        let r: Option<u64> = self.nodes[i].value;
        self.nodes[i].value = v;
        r
    }

    /// Compares a node's value against a sought value.
    fn node_value_less(&self, i: usize, value: &u64) -> (r: bool)
        requires
            i < self.nodes@.len(),
            self.nodes@[i as int].value is Some,
        ensures
            r == (self.val_of(i as int) < *value),
    {
        let held: Option<u64> = self.nodes[i].value;
        held.unwrap() < *value
    }

    /// Tests a node's value for equality with a sought value.
    fn node_value_equals(&self, i: usize, value: &u64) -> (r: bool)
        requires
            i < self.nodes@.len(),
            self.nodes@[i as int].value is Some,
        ensures
            r == (self.val_of(i as int) == *value),
    {
        let held: Option<u64> = self.nodes[i].value;
        held.unwrap() == *value
    }

    pub fn max_level(&self) -> (r: usize)
        ensures
            r == self.spec_max_level(),
    {
        self.max_level
    }

    /// Reads the value stored at an arena slot; nothing for an index that
    /// was never handed out.
    pub fn node_value(&self, idx: usize) -> (r: Option<u64>)
        ensures
            r == if 0 <= idx < self.node_count() {
                self.spec_node_value(idx as int)
            } else {
                None::<u64>
            },
    {
        if idx < self.nodes.len() {
            self.nodes[idx].value
        } else {
            None
        }
    }

    /// p is a stopping point at a level for a sought value: the head or a
    /// chain entry below the value, whose successor (if any) is not below it.
    spec fn is_pred_at(&self, lvl: int, p: usize, target: u64) -> bool {
        let ch = self.chain(lvl);
        if p == 0 {
            ch.len() > 0 ==> self.val_of(ch[0] as int) >= target
        } else {
            exists|k: int|
                0 <= k < ch.len() && #[trigger] ch[k] == p && self.val_of(p as int) < target && (k
                    + 1 < ch.len() ==> self.val_of(ch[k + 1] as int) >= target)
        }
    }

    /// The chain position of a stopping point; minus one stands for the head.
    spec fn pred_cut(&self, lvl: int, p: usize) -> int {
        if p == 0 {
            -1
        } else {
            choose|k: int| 0 <= k < self.chain(lvl).len() && #[trigger] self.chain(lvl)[k] == p
        }
    }

    /// Everything up to a stopping point is below the sought value,
    /// everything after it is not, and the successor alone decides whether
    /// the level holds the value.
    proof fn lemma_pred_facts(&self, lvl: int, p: usize, target: u64)
        requires
            0 <= lvl < self.chains@.len(),
            self.wf_chain(lvl),
            p == 0 || self.in_chain(lvl, p as int),
            self.is_pred_at(lvl, p, target),
        ensures
            ({
                let ch = self.chain(lvl);
                let k = self.pred_cut(lvl, p);
                &&& -1 <= k < ch.len()
                &&& (k == -1 <==> p == 0)
                &&& (k >= 0 ==> ch[k] == p && self.val_of(p as int) < target)
                &&& forall|j: int| 0 <= j <= k ==> self.val_of(#[trigger] ch[j] as int) < target
                &&& forall|j: int|
                    k < j < ch.len() ==> self.val_of(#[trigger] ch[j] as int) >= target
                &&& self.fwd(p as int, lvl) == (if k + 1 < ch.len() {
                    Some(ch[k + 1])
                } else {
                    None::<usize>
                })
                &&& (self.level_contains(lvl, target) <==> (k + 1 < ch.len() && self.val_of(
                    ch[k + 1] as int,
                ) == target))
            }),
    {
        let ch = self.chain(lvl);
        let k = self.pred_cut(lvl, p);
        if p == 0 {
            assert forall|j: int| 0 <= j < ch.len() implies self.val_of(
                #[trigger] ch[j] as int,
            ) >= target by {
                if j > 0 {
                    assert(self.val_of(ch[0] as int) < self.val_of(ch[j] as int));
                }
            }
        } else {
            let kw = choose|k0: int|
                0 <= k0 < ch.len() && #[trigger] ch[k0] == p && self.val_of(p as int) < target && (
                k0 + 1 < ch.len() ==> self.val_of(ch[k0 + 1] as int) >= target);
            assert(0 <= k < ch.len() && ch[k] == p);
            assert(k == kw) by {
                if k < kw {
                    assert(self.val_of(ch[k] as int) < self.val_of(ch[kw] as int));
                } else if kw < k {
                    assert(self.val_of(ch[kw] as int) < self.val_of(ch[k] as int));
                }
            }
            assert forall|j: int| 0 <= j <= k implies self.val_of(
                #[trigger] ch[j] as int,
            ) < target by {
                if j < k {
                    assert(self.val_of(ch[j] as int) < self.val_of(ch[k] as int));
                }
            }
            assert forall|j: int| k < j < ch.len() implies self.val_of(
                #[trigger] ch[j] as int,
            ) >= target by {
                if j > k + 1 {
                    assert(self.val_of(ch[k + 1] as int) < self.val_of(ch[j] as int));
                }
            }
            if k + 1 < ch.len() {
                assert(self.fwd(ch[k] as int, lvl) == Some(ch[k + 1]));
            } else {
                assert(ch.last() == ch[k]);
            }
        }
        if k + 1 < ch.len() && self.val_of(ch[k + 1] as int) == target {
            assert(self.level_seq(lvl)[k + 1] == target);
            assert(self.level_seq(lvl).contains(target));
        }
        if self.level_contains(lvl, target) {
            let j = choose|j: int|
                0 <= j < self.level_seq(lvl).len() && self.level_seq(lvl)[j] == target;
            assert(self.val_of(ch[j] as int) == target);
            assert(j > k);
            assert(j == k + 1) by {
                if j > k + 1 {
                    assert(self.val_of(ch[k + 1] as int) < self.val_of(ch[j] as int));
                    assert(self.val_of(ch[k + 1] as int) >= target);
                }
            }
        }
    }

    /// One traversal from the top level down: at each level, advance while
    /// the successor's value is below the sought one, and record for every
    /// level where the descent left it.
    fn find_update(&self, value: u64) -> (update: Vec<usize>)
        requires
            self.wf(),
        ensures
            update@.len() == self.spec_max_level(),
            forall|lvl: int|
                0 <= lvl < self.spec_max_level() ==> (#[trigger] update@[lvl] == 0 || self.in_chain(
                    lvl,
                    update@[lvl] as int,
                )),
            forall|lvl: int|
                0 <= lvl < self.spec_max_level() ==> self.is_pred_at(
                    lvl,
                    #[trigger] update@[lvl],
                    value,
                ),
            forall|lvl: int|
                0 <= lvl < self.spec_max_level() ==> #[trigger] update@[lvl] < self.node_count(),
    {
        let max: usize = self.max_level;
        let mut update: Vec<usize> = Vec::new();
        let mut z: usize = 0;
        while z < max
            invariant
                update@.len() == z,
                z <= max,
                forall|L: int| 0 <= L < z ==> #[trigger] update@[L] == 0,
            decreases max - z,
        {
            update.push(0);
            z = z + 1;
        }
        let mut current: usize = 0;
        let mut lvl_hi: usize = max;
        while lvl_hi > 0
            invariant
                self.wf(),
                max == self.spec_max_level(),
                update@.len() == max,
                lvl_hi <= max,
                current < self.nodes@.len(),
                current == 0 || (self.live(current as int) && self.levels_of(current as int)
                    >= lvl_hi && self.val_of(current as int) < value),
                forall|L: int|
                    lvl_hi <= L < max ==> (#[trigger] update@[L] == 0 || self.in_chain(
                        L,
                        update@[L] as int,
                    )),
                forall|L: int|
                    lvl_hi <= L < max ==> self.is_pred_at(L, #[trigger] update@[L], value),
                forall|L: int| lvl_hi <= L < max ==> #[trigger] update@[L] < self.node_count(),
            decreases lvl_hi,
        {
            let level: usize = lvl_hi - 1;
            let ghost mut pos: int = -1;
            proof {
                if current != 0 {
                    assert(self.in_chain(level as int, current as int));
                    pos = choose|k: int|
                        0 <= k < self.chain(level as int).len() && #[trigger] self.chain(
                            level as int,
                        )[k] == current;
                }
            }
            loop
                invariant
                    self.wf(),
                    level < max,
                    max == self.spec_max_level(),
                    current < self.nodes@.len(),
                    current == 0 || (self.live(current as int) && self.levels_of(current as int)
                        > level),
                    (current == 0 && pos == -1) || (0 <= pos < self.chain(level as int).len()
                        && self.chain(level as int)[pos] == current && self.val_of(current as int)
                        < value),
                ensures
                    current < self.nodes@.len(),
                    current == 0 || (self.live(current as int) && self.levels_of(current as int)
                        > level && self.in_chain(level as int, current as int) && self.val_of(
                        current as int,
                    ) < value),
                    self.is_pred_at(level as int, current, value),
                decreases self.chain(level as int).len() - pos,
            {
                let next = self.get_forward(current, level);
                match next {
                    Some(n) => {
                        proof {
                            assert(self.wf_chain(level as int));
                            let ch = self.chain(level as int);
                            if current == 0 {
                                assert(ch.len() > 0 && n == ch[0]);
                            } else {
                                assert(pos < ch.len() - 1 && n == ch[pos + 1]) by {
                                    if pos == ch.len() - 1 {
                                        assert(ch.last() == ch[pos]);
                                    }
                                }
                            }
                            assert(1 <= ch[pos + 1] < self.node_count());
                        }
                        if self.node_value_less(n, &value) {
                            current = n;
                            proof {
                                pos = pos + 1;
                                assert(self.in_chain(level as int, current as int));
                            }
                        } else {
                            proof {
                                let ch = self.chain(level as int);
                                if current != 0 {
                                    assert(ch[pos] == current);
                                    assert(self.is_pred_at(level as int, current, value));
                                }
                            }
                            break ;
                        }
                    },
                    None => {
                        proof {
                            assert(self.wf_chain(level as int));
                            let ch = self.chain(level as int);
                            if current == 0 {
                                assert(ch.len() == 0);
                            } else {
                                assert(pos == ch.len() - 1) by {
                                    if pos < ch.len() - 1 {
                                        assert(self.fwd(ch[pos] as int, level as int) == Some(
                                            ch[pos + 1],
                                        ));
                                    }
                                }
                                assert(ch[pos] == current);
                                assert(self.is_pred_at(level as int, current, value));
                            }
                        }
                        break ;
                    },
                }
            }
            update[level] = current;
            lvl_hi = level;
        }
        update
    }

    /// Nodes that a chain threads, and the head's link into it: the sound
    /// chain stays sound in a state that keeps all of them unchanged.
    proof fn lemma_chain_frame(a: &SkipList, b: &SkipList, lvl: int)
        requires
            a.wf_chain(lvl),
            b.chain(lvl) == a.chain(lvl),
            b.nodes@.len() >= a.nodes@.len(),
            b.fwd(0, lvl) == a.fwd(0, lvl),
            forall|k: int|
                0 <= k < a.chain(lvl).len() ==> {
                    let i = #[trigger] a.chain(lvl)[k] as int;
                    &&& b.nodes@[i].value == a.nodes@[i].value
                    &&& b.levels_of(i) == a.levels_of(i)
                    &&& b.fwd(i, lvl) == a.fwd(i, lvl)
                },
        ensures
            b.wf_chain(lvl),
    {
        let ch = a.chain(lvl);
        assert forall|k1: int, k2: int| 0 <= k1 < k2 < ch.len() implies b.val_of(
            #[trigger] ch[k1] as int,
        ) < b.val_of(#[trigger] ch[k2] as int) by {
            assert(a.val_of(ch[k1] as int) < a.val_of(ch[k2] as int));
        }
    }

    /// A level's value sequence depends only on its chain and on the values
    /// of the nodes the chain threads.
    proof fn lemma_level_seq_frame(a: &SkipList, b: &SkipList, lvl: int)
        requires
            b.chain(lvl) == a.chain(lvl),
            forall|k: int|
                0 <= k < a.chain(lvl).len() ==> b.nodes@[#[trigger] a.chain(lvl)[k] as int].value
                    == a.nodes@[a.chain(lvl)[k] as int].value,
        ensures
            b.level_seq(lvl) == a.level_seq(lvl),
    {
        assert(b.level_seq(lvl) =~= a.level_seq(lvl));
    }

    /// Chain membership depends only on the chain itself.
    proof fn lemma_in_chain_same(a: &SkipList, b: &SkipList, lvl: int, i: int)
        requires
            b.chain(lvl) == a.chain(lvl),
        ensures
            b.in_chain(lvl, i) == a.in_chain(lvl, i),
    {
        if a.in_chain(lvl, i) {
            let k = choose|k: int|
                0 <= k < a.chain(lvl).len() && #[trigger] a.chain(lvl)[k] == i;
            assert(b.chain(lvl)[k] == i);
        }
        if b.in_chain(lvl, i) {
            let k = choose|k: int|
                0 <= k < b.chain(lvl).len() && #[trigger] b.chain(lvl)[k] == i;
            assert(a.chain(lvl)[k] == i);
        }
    }

    /// Being a stopping point depends only on the chain and on the values of
    /// the nodes it threads.
    proof fn lemma_is_pred_frame(a: &SkipList, b: &SkipList, lvl: int, p: usize, target: u64)
        requires
            a.is_pred_at(lvl, p, target),
            b.chain(lvl) == a.chain(lvl),
            forall|k: int|
                0 <= k < a.chain(lvl).len() ==> b.nodes@[#[trigger] a.chain(lvl)[k] as int].value
                    == a.nodes@[a.chain(lvl)[k] as int].value,
        ensures
            b.is_pred_at(lvl, p, target),
    {
        let ch = a.chain(lvl);
        if p == 0 {
            if ch.len() > 0 {
                assert(b.val_of(ch[0] as int) == a.val_of(ch[0] as int));
            }
        } else {
            let k = choose|k: int|
                0 <= k < ch.len() && #[trigger] ch[k] == p && a.val_of(p as int) < target && (k + 1
                    < ch.len() ==> a.val_of(ch[k + 1] as int) >= target);
            assert(b.chain(lvl)[k] == p);
            assert(b.val_of(p as int) == a.val_of(p as int));
            if k + 1 < ch.len() {
                assert(b.val_of(ch[k + 1] as int) == a.val_of(ch[k + 1] as int));
            }
        }
    }

    /// A value found at any level is a value of the list: the node holding
    /// it spans the bottom level too.
    pub proof fn lemma_level_value_in_list(&self, lvl: int, w: u64)
        requires
            self.wf(),
            0 <= lvl < self.spec_max_level(),
            self.level_contains(lvl, w),
        ensures
            self.contains_value(w),
    {
        assert(self.wf_chain(lvl));
        assert(self.wf_chain(0));
        let j = choose|j: int|
            0 <= j < self.level_seq(lvl).len() && self.level_seq(lvl)[j] == w;
        let i = self.chain(lvl)[j];
        assert(self.in_chain(lvl, i as int));
        assert(self.in_chain(0, i as int));
        let k = choose|k: int| 0 <= k < self.chain(0).len() && #[trigger] self.chain(0)[k] == i;
        assert(self.level_seq(0)[k] == w);
    }

    /// Splicing one entry into a chain adds exactly that index to it.
    proof fn lemma_in_chain_insert(a: &SkipList, b: &SkipList, lvl: int, q: int, x: usize, i: int)
        requires
            0 <= q <= a.chain(lvl).len(),
            b.chain(lvl) == a.chain(lvl).insert(q, x),
        ensures
            b.in_chain(lvl, i) <==> (a.in_chain(lvl, i) || i == x),
    {
        let ch = a.chain(lvl);
        ch.insert_ensures(q, x);
        if a.in_chain(lvl, i) {
            let k = choose|k: int| 0 <= k < ch.len() && #[trigger] ch[k] == i;
            if k < q {
                assert(b.chain(lvl)[k] == i);
            } else {
                assert(b.chain(lvl)[k + 1] == i);
            }
        }
        assert(b.chain(lvl)[q] == x);
        if b.in_chain(lvl, i) {
            let k = choose|k: int| 0 <= k < b.chain(lvl).len() && #[trigger] b.chain(lvl)[k] == i;
            if k < q {
                assert(ch[k] == i);
            } else if k > q {
                assert(ch[k - 1] == i);
            }
        }
    }

    /// Unlinking one entry of a duplicate-free chain removes exactly that
    /// index from it.
    proof fn lemma_in_chain_remove(a: &SkipList, b: &SkipList, lvl: int, q: int, i: int)
        requires
            0 <= q < a.chain(lvl).len(),
            forall|j: int|
                0 <= j < a.chain(lvl).len() && j != q ==> #[trigger] a.chain(lvl)[j] != a.chain(
                    lvl,
                )[q],
            b.chain(lvl) == a.chain(lvl).remove(q),
        ensures
            b.in_chain(lvl, i) <==> (a.in_chain(lvl, i) && i != a.chain(lvl)[q]),
    {
        let ch = a.chain(lvl);
        ch.remove_ensures(q);
        if b.in_chain(lvl, i) {
            let k = choose|k: int| 0 <= k < b.chain(lvl).len() && #[trigger] b.chain(lvl)[k] == i;
            if k < q {
                assert(ch[k] == i);
            } else {
                assert(ch[k + 1] == i);
            }
        }
        if a.in_chain(lvl, i) && i != ch[q] {
            let k = choose|k: int| 0 <= k < ch.len() && #[trigger] ch[k] == i;
            if k < q {
                assert(b.chain(lvl)[k] == i);
            } else {
                assert(b.chain(lvl)[k - 1] == i);
            }
        }
    }

    /// Finds the arena index of the node holding a value: present exactly
    /// when some node in the list holds it. The structure is never mutated.
    pub fn search(&self, value: &u64) -> (r: Option<usize>)
        requires
            self.wf(),
        ensures
            match r {
                Some(i) => self.contains_value(*value) && self.live(i as int)
                    && self.spec_node_value(i as int) == Some(*value) && self.in_chain(0, i as int),
                None => !self.contains_value(*value),
            },
    {
        let update = self.find_update(*value);
        let p = update[0];
        proof {
            assert(self.wf_chain(0));
            self.lemma_pred_facts(0, p, *value);
        }
        let candidate = self.get_forward(p, 0);
        match candidate {
            Some(c) => {
                proof {
                    let ch = self.chain(0);
                    let k = self.pred_cut(0, p);
                    assert(c == ch[k + 1]);
                    assert(self.in_chain(0, c as int));
                }
                if self.node_value_equals(c, value) {
                    Some(c)
                } else {
                    None
                }
            },
            None => None,
        }
    }

    /// The state of a fresh insert after the new node was pushed and the
    /// bottommost `level` levels were spliced: the untouched levels still
    /// carry their old chains and stopping points, the spliced ones carry
    /// the new value, and every chain is sound.
    spec fn splice_inv(
        old0: &SkipList,
        cur: &SkipList,
        update: Seq<usize>,
        value: u64,
        level_forced: usize,
        level: usize,
        new_idx: usize,
    ) -> bool {
        &&& old0.wf()
        &&& 1 <= level_forced <= old0.spec_max_level()
        &&& level <= level_forced
        &&& update.len() == old0.spec_max_level()
        &&& !old0.contains_value(value)
        &&& new_idx == old0.node_count()
        &&& cur.max_level == old0.max_level
        &&& cur.probability_by_level@ == old0.probability_by_level@
        &&& cur.chains@.len() == old0.spec_max_level()
        &&& cur.nodes@.len() == old0.node_count() + 1
        &&& forall|i: int|
            0 <= i < old0.node_count() ==> #[trigger] cur.nodes@[i].value == old0.nodes@[i].value
        &&& forall|i: int|
            0 <= i < old0.node_count() ==> #[trigger] cur.nodes@[i].next@.len()
                == old0.nodes@[i].next@.len()
        &&& cur.nodes@[new_idx as int].value == Some(value)
        &&& cur.nodes@[new_idx as int].next@.len() == level_forced
        &&& forall|L: int|
            level <= L < old0.spec_max_level() ==> #[trigger] cur.chain(L) == old0.chain(L)
        &&& forall|L: int| 0 <= L < old0.spec_max_level() ==> #[trigger] cur.wf_chain(L)
        &&& forall|L: int, i: int|
            0 <= L < old0.spec_max_level() && 1 <= i < old0.node_count() ==> (#[trigger]
            cur.in_chain(L, i) <==> (cur.nodes@[i].value is Some && cur.levels_of(i) > L))
        &&& forall|L: int|
            0 <= L < old0.spec_max_level() ==> (#[trigger] cur.in_chain(L, new_idx as int) <==> L
                < level)
        &&& forall|L: int|
            level <= L < old0.spec_max_level() ==> cur.is_pred_at(L, #[trigger] update[L], value)
        &&& forall|L: int|
            level <= L < old0.spec_max_level() ==> (#[trigger] update[L] == 0 || cur.in_chain(
                L,
                update[L] as int,
            ))
        &&& forall|L: int|
            level <= L < old0.spec_max_level() ==> #[trigger] update[L] < old0.node_count()
        &&& forall|L: int, w: u64|
            0 <= L < old0.spec_max_level() ==> (#[trigger] cur.level_contains(L, w) <==> (
            old0.level_contains(L, w) || (w == value && L < level)))
        &&& cur.value_seq().len() == old0.value_seq().len() + (if level > 0 {
            1int
        } else {
            0int
        })
    }

    /// Pushing the fresh node onto the arena disturbs no chain: the splice
    /// state holds with no level done yet.
    proof fn lemma_push_step(
        old0: &SkipList,
        cur: &SkipList,
        update: Seq<usize>,
        value: u64,
        level_forced: usize,
        new_idx: usize,
    )
        requires
            old0.wf(),
            1 <= level_forced <= old0.spec_max_level(),
            update.len() == old0.spec_max_level(),
            !old0.contains_value(value),
            new_idx == old0.node_count(),
            forall|L: int|
                0 <= L < old0.spec_max_level() ==> old0.is_pred_at(L, #[trigger] update[L], value),
            forall|L: int|
                0 <= L < old0.spec_max_level() ==> (#[trigger] update[L] == 0 || old0.in_chain(
                    L,
                    update[L] as int,
                )),
            forall|L: int|
                0 <= L < old0.spec_max_level() ==> #[trigger] update[L] < old0.node_count(),
            cur.max_level == old0.max_level,
            cur.probability_by_level@ == old0.probability_by_level@,
            cur.chains@ == old0.chains@,
            cur.nodes@.len() == old0.node_count() + 1,
            forall|i: int| 0 <= i < old0.node_count() ==> #[trigger] cur.nodes@[i]
                == old0.nodes@[i],
            cur.nodes@[new_idx as int].value == Some(value),
            cur.nodes@[new_idx as int].next@.len() == level_forced,
        ensures
            Self::splice_inv(old0, cur, update, value, level_forced, 0, new_idx),
    {
        assert forall|L: int| 0 <= L < old0.spec_max_level() implies #[trigger] cur.wf_chain(
            L,
        ) by {
            assert(old0.wf_chain(L));
            Self::lemma_chain_frame(old0, cur, L);
        }
        assert forall|L: int, i: int|
            0 <= L < old0.spec_max_level() && 1 <= i < old0.node_count() implies (#[trigger]
        cur.in_chain(L, i) <==> (cur.nodes@[i].value is Some && cur.levels_of(i) > L)) by {
            Self::lemma_in_chain_same(old0, cur, L, i);
        }
        assert forall|L: int| 0 <= L < old0.spec_max_level() implies !(#[trigger] cur.in_chain(
            L,
            new_idx as int,
        )) by {
            Self::lemma_in_chain_same(old0, cur, L, new_idx as int);
            if old0.in_chain(L, new_idx as int) {
                assert(old0.wf_chain(L));
                let k = choose|k: int|
                    0 <= k < old0.chain(L).len() && #[trigger] old0.chain(L)[k] == new_idx;
            }
        }
        assert forall|L: int| 0 <= L < old0.spec_max_level() implies cur.is_pred_at(
            L,
            #[trigger] update[L],
            value,
        ) by {
            assert(old0.wf_chain(L));
            Self::lemma_is_pred_frame(old0, cur, L, update[L], value);
        }
        assert forall|L: int| 0 <= L < old0.spec_max_level() implies (#[trigger] update[L] == 0
            || cur.in_chain(L, update[L] as int)) by {
            Self::lemma_in_chain_same(old0, cur, L, update[L] as int);
        }
        assert forall|L: int, w: u64| 0 <= L < old0.spec_max_level() implies (#[trigger]
        cur.level_contains(L, w) <==> (old0.level_contains(L, w) || (w == value && L < 0))) by {
            assert(old0.wf_chain(L));
            Self::lemma_level_seq_frame(old0, cur, L);
        }
        assert(cur.value_seq().len() == old0.value_seq().len()) by {
            assert(old0.wf_chain(0));
            Self::lemma_level_seq_frame(old0, cur, 0);
        }
    }

    /// How one splice rewrites the state: the new node and the stopping
    /// point each get one forward slot rewritten, and the level's chain
    /// gains the new node right after the stopping point.
    spec fn splice_mutation(
        pre: &SkipList,
        post: &SkipList,
        level: usize,
        new_idx: usize,
        pred: usize,
        pred_next: Option<usize>,
    ) -> bool {
        &&& pred != new_idx
        &&& pred_next == pre.fwd(pred as int, level as int)
        &&& post.max_level == pre.max_level
        &&& post.probability_by_level@ == pre.probability_by_level@
        &&& post.nodes@.len() == pre.nodes@.len()
        &&& post.chains@ == pre.chains@.update(
            level as int,
            pre.chain(level as int).insert(pre.pred_cut(level as int, pred) + 1, new_idx),
        )
        &&& forall|i: int|
            0 <= i < pre.nodes@.len() && i != pred && i != new_idx ==> #[trigger] post.nodes@[i]
                == pre.nodes@[i]
        &&& post.nodes@[pred as int].value == pre.nodes@[pred as int].value
        &&& post.nodes@[pred as int].next@ == pre.nodes@[pred as int].next@.update(
            level as int,
            Some(new_idx),
        )
        &&& post.nodes@[new_idx as int].value == pre.nodes@[new_idx as int].value
        &&& post.nodes@[new_idx as int].next@ == pre.nodes@[new_idx as int].next@.update(
            level as int,
            pred_next,
        )
    }

    /// After a splice the rewritten level's chain is sound again, with the
    /// fresh node sitting right after the stopping point.
    #[verifier::rlimit(100)]
    proof fn lemma_splice_new_chain(
        old0: &SkipList,
        pre: &SkipList,
        post: &SkipList,
        update: Seq<usize>,
        value: u64,
        level_forced: usize,
        level: usize,
        new_idx: usize,
        pred: usize,
        pred_next: Option<usize>,
    )
        requires
            Self::splice_inv(old0, pre, update, value, level_forced, level, new_idx),
            level < level_forced,
            pred == update[level as int],
            Self::splice_mutation(pre, post, level, new_idx, pred, pred_next),
        ensures
            post.wf_chain(level as int),
            post.chain(level as int) == pre.chain(level as int).insert(
                pre.pred_cut(level as int, pred) + 1,
                new_idx,
            ),
            0 <= pre.pred_cut(level as int, pred) + 1 <= pre.chain(level as int).len(),
    {
        let l = level as int;
        let ch = pre.chain(l);
        assert(pre.wf_chain(l));
        pre.lemma_pred_facts(l, pred, value);
        let kq = pre.pred_cut(l, pred);
        let q = kq + 1;
        let newch = ch.insert(q, new_idx);
        ch.insert_ensures(q, new_idx);
        assert(!old0.level_contains(l, value)) by {
            if old0.level_contains(l, value) {
                old0.lemma_level_value_in_list(l, value);
            }
        }
        assert(!pre.level_contains(l, value));
        assert(post.chain(l) == newch);
        assert forall|i: int| 0 <= i < post.nodes@.len() implies #[trigger] post.nodes@[i].value
            == pre.nodes@[i].value && post.levels_of(i) == pre.levels_of(i) by {}
        assert(post.fwd(new_idx as int, l) == pred_next);
        assert(post.fwd(pred as int, l) == Some(new_idx));
        // the chain entries are pairwise distinct
        assert forall|j1: int, j2: int| 0 <= j1 < j2 < ch.len() implies #[trigger] ch[j1]
            != #[trigger] ch[j2] by {
            assert(pre.val_of(ch[j1] as int) < pre.val_of(ch[j2] as int));
        }
        // the sought value sits nowhere on this chain
        assert forall|j: int| 0 <= j < ch.len() implies pre.val_of(#[trigger] ch[j] as int)
            != value by {
            if pre.val_of(ch[j] as int) == value {
                assert(pre.level_seq(l)[j] == value);
            }
        }
        assert forall|k: int| 0 <= k < newch.len() implies 1 <= #[trigger] newch[k]
            < post.node_count() && post.levels_of(newch[k] as int) > l
            && post.nodes@[newch[k] as int].value is Some by {
            if k < q {
                assert(newch[k] == ch[k]);
            } else if k > q {
                assert(newch[k] == ch[k - 1]);
            }
        }
        assert(post.fwd(0, l) == if newch.len() == 0 {
            None::<usize>
        } else {
            Some(newch[0])
        }) by {
            if q == 0 {
                assert(pred == 0);
            } else {
                assert(newch[0] == ch[0]);
            }
        }
        assert forall|k: int| 0 <= k < newch.len() - 1 implies post.fwd(
            #[trigger] newch[k] as int,
            l,
        ) == Some(newch[k + 1]) by {
            if k < q - 1 {
                assert(newch[k] == ch[k] && newch[k + 1] == ch[k + 1]);
                assert(ch[k] != pred);
                assert(post.fwd(ch[k] as int, l) == pre.fwd(ch[k] as int, l));
            } else if k == q - 1 {
                assert(newch[k] == ch[kq] == pred && newch[k + 1] == new_idx);
            } else if k == q {
                assert(newch[k] == new_idx && newch[k + 1] == ch[q]);
                assert(q < ch.len());
            } else {
                assert(newch[k] == ch[k - 1] && newch[k + 1] == ch[k]);
                assert(ch[k - 1] != pred);
                assert(post.fwd(ch[k - 1] as int, l) == pre.fwd(ch[k - 1] as int, l));
            }
        }
        assert(newch.len() > 0 ==> post.fwd(newch.last() as int, l) is None) by {
            if q == newch.len() - 1 {
                assert(newch.last() == new_idx);
            } else {
                assert(newch.last() == ch[ch.len() - 1]);
                assert(ch[ch.len() - 1] != pred);
                assert(pre.fwd(ch.last() as int, l) is None);
            }
        }
        assert forall|k1: int, k2: int| 0 <= k1 < k2 < newch.len() implies post.val_of(
            #[trigger] newch[k1] as int,
        ) < post.val_of(#[trigger] newch[k2] as int) by {
            if k1 < q && k2 < q {
                assert(pre.val_of(ch[k1] as int) < pre.val_of(ch[k2] as int));
            } else if k1 < q && k2 == q {
                assert(pre.val_of(ch[k1] as int) < value);
            } else if k1 < q && k2 > q {
                assert(pre.val_of(ch[k1] as int) < value);
                assert(pre.val_of(ch[k2 - 1] as int) >= value);
            } else if k1 == q {
                assert(pre.val_of(ch[k2 - 1] as int) >= value);
            } else {
                assert(pre.val_of(ch[k1 - 1] as int) < pre.val_of(ch[k2 - 1] as int));
            }
        }
    }

    /// Splicing the fresh node in right after one level's stopping point
    /// carries the splice state up one level.
    #[verifier::rlimit(100)]
    proof fn lemma_splice_step(
        old0: &SkipList,
        pre: &SkipList,
        post: &SkipList,
        update: Seq<usize>,
        value: u64,
        level_forced: usize,
        level: usize,
        new_idx: usize,
        pred: usize,
        pred_next: Option<usize>,
    )
        requires
            Self::splice_inv(old0, pre, update, value, level_forced, level, new_idx),
            level < level_forced,
            pred == update[level as int],
            Self::splice_mutation(pre, post, level, new_idx, pred, pred_next),
        ensures
            Self::splice_inv(
                old0,
                post,
                update,
                value,
                level_forced,
                (level + 1) as usize,
                new_idx,
            ),
    {
        let l = level as int;
        let ch = pre.chain(l);
        assert(pre.wf_chain(l));
        pre.lemma_pred_facts(l, pred, value);
        let kq = pre.pred_cut(l, pred);
        let q = kq + 1;
        let newch = ch.insert(q, new_idx);
        ch.insert_ensures(q, new_idx);
        Self::lemma_splice_new_chain(
            old0,
            pre,
            post,
            update,
            value,
            level_forced,
            level,
            new_idx,
            pred,
            pred_next,
        );
        assert(post.chain(l) == newch);
        assert forall|L2: int| 0 <= L2 < old0.spec_max_level() && L2 != l implies #[trigger]
        post.chain(L2) == pre.chain(L2) by {}
        assert forall|i: int| 0 <= i < post.nodes@.len() implies #[trigger] post.nodes@[i].value
            == pre.nodes@[i].value && post.levels_of(i) == pre.levels_of(i) by {}
        assert forall|i: int, L2: int|
            0 <= i < post.nodes@.len() && 0 <= L2 < pre.levels_of(i) && L2 != l implies #[trigger]
        post.fwd(i, L2) == pre.fwd(i, L2) by {}
        // every other level is untouched
        assert forall|L2: int| 0 <= L2 < old0.spec_max_level() && L2 != l implies #[trigger]
        post.wf_chain(L2) by {
            assert(pre.wf_chain(L2));
            assert(post.fwd(0, L2) == pre.fwd(0, L2));
            assert forall|k: int| 0 <= k < pre.chain(L2).len() implies post.fwd(
                #[trigger] pre.chain(L2)[k] as int,
                L2,
            ) == pre.fwd(pre.chain(L2)[k] as int, L2) by {
                assert(pre.levels_of(pre.chain(L2)[k] as int) > L2);
            }
            Self::lemma_chain_frame(pre, post, L2);
        }
        assert forall|L2: int| 0 <= L2 < old0.spec_max_level() implies #[trigger] post.wf_chain(
            L2,
        ) by {}
        // membership after the splice
        assert forall|L2: int, i: int|
            0 <= L2 < old0.spec_max_level() && 1 <= i < old0.node_count() implies (#[trigger]
        post.in_chain(L2, i) <==> (post.nodes@[i].value is Some && post.levels_of(i) > L2)) by {
            if L2 == l {
                Self::lemma_in_chain_insert(pre, post, l, q, new_idx, i);
            } else {
                Self::lemma_in_chain_same(pre, post, L2, i);
            }
        }
        assert forall|L2: int| 0 <= L2 < old0.spec_max_level() implies (#[trigger] post.in_chain(
            L2,
            new_idx as int,
        ) <==> L2 < level + 1) by {
            if L2 == l {
                Self::lemma_in_chain_insert(pre, post, l, q, new_idx, new_idx as int);
            } else {
                Self::lemma_in_chain_same(pre, post, L2, new_idx as int);
            }
        }
        // pending stopping points are untouched
        assert forall|L2: int| level + 1 <= L2 < old0.spec_max_level() implies post.is_pred_at(
            L2,
            #[trigger] update[L2],
            value,
        ) && (update[L2] == 0 || post.in_chain(L2, update[L2] as int)) by {
            assert(pre.wf_chain(L2));
            assert(pre.is_pred_at(L2, update[L2], value));
            Self::lemma_is_pred_frame(pre, post, L2, update[L2], value);
            Self::lemma_in_chain_same(pre, post, L2, update[L2] as int);
        }
        // what each level now holds
        assert(post.level_seq(l) =~= pre.level_seq(l).insert(q, value)) by {
            pre.level_seq(l).insert_ensures(q, value);
        }
        assert forall|L2: int, w: u64| 0 <= L2 < old0.spec_max_level() implies (#[trigger]
        post.level_contains(L2, w) <==> (old0.level_contains(L2, w) || (w == value && L2 < level
            + 1))) by {
            if L2 == l {
                lemma_insert_contains(pre.level_seq(l), q, value, w);
                assert(pre.level_contains(L2, w) <==> (old0.level_contains(L2, w) || (w == value
                    && L2 < level)));
            } else {
                assert(pre.wf_chain(L2));
                Self::lemma_level_seq_frame(pre, post, L2);
                assert(pre.level_contains(L2, w) <==> (old0.level_contains(L2, w) || (w == value
                    && L2 < level)));
            }
        }
        assert(post.value_seq().len() == old0.value_seq().len() + 1) by {
            if l == 0 {
                assert(pre.value_seq().len() == old0.value_seq().len());
                assert(post.level_seq(0).len() == pre.level_seq(0).len() + 1);
            } else {
                assert(pre.wf_chain(0));
                Self::lemma_level_seq_frame(pre, post, 0);
                assert(level > 0);
            }
        }
    }

    /// With every level of the fresh node spliced, the whole structure is
    /// sound again.
    proof fn lemma_splice_finish(
        old0: &SkipList,
        cur: &SkipList,
        update: Seq<usize>,
        value: u64,
        level_forced: usize,
        new_idx: usize,
    )
        requires
            Self::splice_inv(old0, cur, update, value, level_forced, level_forced, new_idx),
        ensures
            cur.wf(),
            cur.spec_max_level() == old0.spec_max_level(),
            forall|lvl: int, w: u64|
                0 <= lvl < old0.spec_max_level() ==> (#[trigger] cur.level_contains(lvl, w) <==> (
                old0.level_contains(lvl, w) || (w == value && lvl < level_forced))),
            cur.value_seq().len() == old0.value_seq().len() + 1,
    {
        assert(cur.levels_of(0) == cur.max_level);
        assert(cur.nodes@[0].value is Some);
        assert forall|i: int| 0 <= i < cur.max_level implies #[trigger] cur.probability_by_level@[i]
            == level_threshold(i as nat) by {
            assert(old0.probability_by_level@[i] == level_threshold(i as nat));
        }
        assert forall|i: int| 1 <= i < cur.node_count() implies 1 <= #[trigger] cur.levels_of(i)
            <= cur.max_level by {
            if i < old0.node_count() {
                assert(1 <= old0.levels_of(i) <= old0.max_level);
            }
        }
        assert forall|lvl: int, i: int|
            0 <= lvl < cur.max_level && 1 <= i < cur.node_count() implies (#[trigger] cur.in_chain(
            lvl,
            i,
        ) <==> (cur.nodes@[i].value is Some && cur.levels_of(i) > lvl)) by {
            if i == new_idx as int {
                assert(cur.in_chain(lvl, i) <==> lvl < level_forced);
            }
        }
    }

    /// Inserts a value with a caller-chosen level count. An already-present
    /// value is treated as an update and the stored value is handed back; no
    /// link changes. Otherwise a fresh node is spliced in right after each
    /// level's stopping point, bottom level first.
    pub fn insert_force_level(&mut self, key: String, value: u64, level_forced: usize) -> (r:
        Option<u64>)
        requires
            old(self).wf(),
            1 <= level_forced <= old(self).spec_max_level(),
        ensures
            final(self).wf(),
            final(self).spec_max_level() == old(self).spec_max_level(),
            r == if old(self).contains_value(value) {
                Some(value)
            } else {
                None::<u64>
            },
            old(self).contains_value(value) ==> *final(self) == *old(self),
            forall|lvl: int, w: u64|
                0 <= lvl < old(self).spec_max_level() ==> (#[trigger] final(self).level_contains(
                    lvl,
                    w,
                ) <==> (old(self).level_contains(lvl, w) || (w == value && lvl < level_forced && !old(
                    self,
                ).contains_value(value)))),
            final(self).value_seq().len() == old(self).value_seq().len() + (if old(
                self,
            ).contains_value(value) {
                0int
            } else {
                1int
            }),
    {
        let update = self.find_update(value);
        let p0 = update[0];
        proof {
            assert(self.wf_chain(0));
            self.lemma_pred_facts(0, p0, value);
        }
        let candidate = self.get_forward(p0, 0);
        if let Some(c) = candidate {
            proof {
                let ch = self.chain(0);
                let k = self.pred_cut(0, p0);
                assert(c == ch[k + 1]);
            }
            if self.node_value_equals(c, &value) {
                // an update in place: the stored value equals the new one
                let prev = self.node_value(c);
                return prev;
            }
        }
        proof {
            assert(!self.contains_value(value));
        }
        let new_idx = self.nodes.len();
        let node = SkipNode::new(key, value, level_forced);
        self.nodes.push(node);
        proof {
            assert forall|i: int| 0 <= i < old(self).node_count() implies #[trigger] self.nodes@[i]
                == old(self).nodes@[i] by {}
            Self::lemma_push_step(old(self), self, update@, value, level_forced, new_idx);
        }
        let mut level: usize = 0;
        while level < level_forced
            invariant
                Self::splice_inv(old(self), self, update@, value, level_forced, level, new_idx),
                level_forced <= update@.len(),
            decreases level_forced - level,
        {
            let ghost pre = *self;
            let pred = update[level];
            proof {
                assert(pre.wf_chain(level as int));
                assert(pre.nodes@[0].next@.len() == old(self).nodes@[0].next@.len());
                if pred != 0 {
                    let kk = choose|k: int|
                        0 <= k < pre.chain(level as int).len() && #[trigger] pre.chain(
                            level as int,
                        )[k] == pred;
                    assert(pre.levels_of(pred as int) > level);
                }
            }
            let pred_next = self.get_forward(pred, level);
            self.set_forward(new_idx, level, pred_next);
            self.set_forward(pred, level, Some(new_idx));
            let ghost l = level as int;
            self.chains = Ghost(
                self.chains@.update(
                    l,
                    pre.chain(l).insert(pre.pred_cut(l, pred) + 1, new_idx),
                ),
            );
            proof {
                pre.lemma_pred_facts(l, pred, value);
                Self::lemma_splice_step(
                    old(self),
                    &pre,
                    self,
                    update@,
                    value,
                    level_forced,
                    level,
                    new_idx,
                    pred,
                    pred_next,
                );
            }
            level = level + 1;
        }
        proof {
            Self::lemma_splice_finish(old(self), self, update@, value, level_forced, new_idx);
        }
        None
    }

    /// Inserts a value under a freshly drawn level count. An already-present
    /// value is updated in place and the stored value handed back; otherwise
    /// a new node is created and the value is absent from the result.
    pub fn insert(&mut self, key: String, value: u64) -> (r: Option<u64>)
        requires
            old(self).wf(),
        ensures
            final(self).wf(),
            final(self).spec_max_level() == old(self).spec_max_level(),
            r == if old(self).contains_value(value) {
                Some(value)
            } else {
                None::<u64>
            },
            old(self).contains_value(value) ==> *final(self) == *old(self),
            forall|lvl: int, w: u64|
                0 <= lvl < old(self).spec_max_level() && w != value
                    ==> (#[trigger] final(self).level_contains(lvl, w) == old(self).level_contains(
                    lvl,
                    w,
                )),
            forall|w: u64|
                #[trigger] final(self).contains_value(w) <==> (old(self).contains_value(w) || w
                    == value),
            final(self).value_seq().len() == old(self).value_seq().len() + (if old(
                self,
            ).contains_value(value) {
                0int
            } else {
                1int
            }),
    {
        let new_level = self.pick_level();
        let r = self.insert_force_level(key, value, new_level);
        proof {
            assert forall|w: u64| #[trigger] self.contains_value(w) <==> (old(self).contains_value(
                w,
            ) || w == value) by {
                assert(self.level_contains(0, w) <==> (old(self).level_contains(0, w) || (w
                    == value && 0 < new_level && !old(self).contains_value(value))));
            }
        }
        r
    }

    /// The state of a deletion after the doomed node was unlinked from the
    /// bottommost `level` levels: the untouched levels still carry their old
    /// chains and stopping points, the rewritten ones no longer carry the
    /// value, and every chain is sound. The node's own value is still there.
    spec fn unsplice_inv(
        old0: &SkipList,
        cur: &SkipList,
        update: Seq<usize>,
        value: u64,
        c: usize,
        level: usize,
    ) -> bool {
        &&& old0.wf()
        &&& update.len() == old0.spec_max_level()
        &&& old0.live(c as int)
        &&& old0.nodes@[c as int].value == Some(value)
        &&& old0.in_chain(0, c as int)
        &&& level <= old0.levels_of(c as int)
        &&& cur.max_level == old0.max_level
        &&& cur.probability_by_level@ == old0.probability_by_level@
        &&& cur.chains@.len() == old0.spec_max_level()
        &&& cur.nodes@.len() == old0.node_count()
        &&& forall|i: int|
            0 <= i < old0.node_count() ==> #[trigger] cur.nodes@[i].value == old0.nodes@[i].value
        &&& forall|i: int|
            0 <= i < old0.node_count() ==> #[trigger] cur.nodes@[i].next@.len()
                == old0.nodes@[i].next@.len()
        &&& forall|L: int|
            level <= L < old0.spec_max_level() ==> #[trigger] cur.chain(L) == old0.chain(L)
        &&& forall|L: int| 0 <= L < old0.spec_max_level() ==> #[trigger] cur.wf_chain(L)
        &&& forall|L: int, i: int|
            0 <= L < old0.spec_max_level() && 1 <= i < old0.node_count() && i != c ==> (#[trigger]
            cur.in_chain(L, i) <==> (cur.nodes@[i].value is Some && cur.levels_of(i) > L))
        &&& forall|L: int|
            0 <= L < old0.spec_max_level() ==> (#[trigger] cur.in_chain(L, c as int) <==> (level
                <= L < old0.levels_of(c as int)))
        &&& forall|L: int|
            level <= L < old0.spec_max_level() ==> cur.is_pred_at(L, #[trigger] update[L], value)
        &&& forall|L: int|
            level <= L < old0.spec_max_level() ==> (#[trigger] update[L] == 0 || cur.in_chain(
                L,
                update[L] as int,
            ))
        &&& forall|L: int|
            level <= L < old0.spec_max_level() ==> #[trigger] update[L] < old0.node_count()
        &&& forall|L: int, w: u64|
            0 <= L < old0.spec_max_level() ==> (#[trigger] cur.level_contains(L, w) <==> (
            old0.level_contains(L, w) && !(w == value && L < level)))
        &&& cur.value_seq().len() == old0.value_seq().len() - (if level > 0 {
            1int
        } else {
            0int
        })
    }

    /// How one unlinking rewrites the state: the stopping point's forward
    /// slot skips over the doomed node, whose chain entry goes away.
    spec fn unsplice_mutation(
        pre: &SkipList,
        post: &SkipList,
        level: usize,
        c: usize,
        pred: usize,
        c_next: Option<usize>,
    ) -> bool {
        &&& pred != c
        &&& c_next == pre.fwd(c as int, level as int)
        &&& post.max_level == pre.max_level
        &&& post.probability_by_level@ == pre.probability_by_level@
        &&& post.nodes@.len() == pre.nodes@.len()
        &&& post.chains@ == pre.chains@.update(
            level as int,
            pre.chain(level as int).remove(pre.pred_cut(level as int, pred) + 1),
        )
        &&& forall|i: int|
            0 <= i < pre.nodes@.len() && i != pred ==> #[trigger] post.nodes@[i] == pre.nodes@[i]
        &&& post.nodes@[pred as int].value == pre.nodes@[pred as int].value
        &&& post.nodes@[pred as int].next@ == pre.nodes@[pred as int].next@.update(
            level as int,
            c_next,
        )
    }

    /// Unlinking the doomed node at one level carries the deletion state up
    /// one level.
    #[verifier::rlimit(100)]
    proof fn lemma_unsplice_step(
        old0: &SkipList,
        pre: &SkipList,
        post: &SkipList,
        update: Seq<usize>,
        value: u64,
        c: usize,
        level: usize,
        pred: usize,
        c_next: Option<usize>,
    )
        requires
            Self::unsplice_inv(old0, pre, update, value, c, level),
            level < old0.levels_of(c as int),
            level < old0.spec_max_level(),
            pred == update[level as int],
            Self::unsplice_mutation(pre, post, level, c, pred, c_next),
        ensures
            Self::unsplice_inv(old0, post, update, value, c, (level + 1) as usize),
    {
        let l = level as int;
        let ch = pre.chain(l);
        assert(pre.wf_chain(l));
        pre.lemma_pred_facts(l, pred, value);
        let kq = pre.pred_cut(l, pred);
        let q = kq + 1;
        // the doomed node is on this chain and the stopping point's
        // successor is exactly it
        assert(pre.in_chain(l, c as int));
        let kc = choose|k: int| 0 <= k < ch.len() && #[trigger] ch[k] == c;
        assert(pre.val_of(c as int) == value);
        assert(pre.level_seq(l)[kc] == value);
        assert(pre.level_contains(l, value));
        assert(q < ch.len() && pre.val_of(ch[q] as int) == value);
        assert(ch[q] == c) by {
            if kc < q {
                assert(pre.val_of(ch[kc] as int) < pre.val_of(ch[q] as int));
            } else if kc > q {
                assert(pre.val_of(ch[q] as int) < pre.val_of(ch[kc] as int));
            }
        }
        let newch = ch.remove(q);
        ch.remove_ensures(q);
        assert(post.chain(l) == newch);
        // the chain entries are pairwise distinct
        assert forall|j1: int, j2: int| 0 <= j1 < j2 < ch.len() implies #[trigger] ch[j1]
            != #[trigger] ch[j2] by {
            assert(pre.val_of(ch[j1] as int) < pre.val_of(ch[j2] as int));
        }
        assert forall|L2: int| 0 <= L2 < old0.spec_max_level() && L2 != l implies #[trigger]
        post.chain(L2) == pre.chain(L2) by {}
        assert forall|i: int| 0 <= i < post.nodes@.len() implies #[trigger] post.nodes@[i].value
            == pre.nodes@[i].value && post.levels_of(i) == pre.levels_of(i) by {}
        assert(post.fwd(pred as int, l) == c_next);
        assert forall|i: int, L2: int|
            0 <= i < post.nodes@.len() && 0 <= L2 < pre.levels_of(i) && L2 != l implies #[trigger]
        post.fwd(i, L2) == pre.fwd(i, L2) by {}
        // the rewritten chain is sound
        assert(post.wf_chain(l)) by {
            assert forall|k: int| 0 <= k < newch.len() implies 1 <= #[trigger] newch[k]
                < post.node_count() && post.levels_of(newch[k] as int) > l
                && post.nodes@[newch[k] as int].value is Some by {
                if k >= q {
                    assert(newch[k] == ch[k + 1]);
                }
            }
            assert(post.fwd(0, l) == if newch.len() == 0 {
                None::<usize>
            } else {
                Some(newch[0])
            }) by {
                if q == 0 {
                    assert(pred == 0);
                    if ch.len() > 1 {
                        assert(c_next == Some(ch[1]));
                        assert(newch[0] == ch[1]);
                    } else {
                        assert(ch.last() == ch[q]);
                        assert(c_next is None);
                    }
                } else {
                    assert(newch[0] == ch[0]);
                }
            }
            assert forall|k: int| 0 <= k < newch.len() - 1 implies post.fwd(
                #[trigger] newch[k] as int,
                l,
            ) == Some(newch[k + 1]) by {
                if k < q - 1 {
                    assert(newch[k] == ch[k] && newch[k + 1] == ch[k + 1]);
                    assert(ch[k] != pred);
                    assert(post.fwd(ch[k] as int, l) == pre.fwd(ch[k] as int, l));
                } else if k == q - 1 {
                    assert(newch[k] == ch[kq] == pred && newch[k + 1] == ch[q + 1]);
                    assert(q < ch.len() - 1);
                    assert(c_next == Some(ch[q + 1]));
                } else {
                    assert(newch[k] == ch[k + 1] && newch[k + 1] == ch[k + 2]);
                    assert(ch[k + 1] != pred);
                    assert(post.fwd(ch[k + 1] as int, l) == pre.fwd(ch[k + 1] as int, l));
                }
            }
            assert(newch.len() > 0 ==> post.fwd(newch.last() as int, l) is None) by {
                if newch.len() > 0 {
                    if q == ch.len() - 1 {
                        assert(ch.last() == ch[q]);
                        assert(c_next is None);
                        if q == 0 {
                        } else {
                            assert(newch.last() == newch[q - 1] == ch[kq]);
                        }
                    } else {
                        assert(newch.last() == ch[ch.len() - 1]);
                        assert(ch[ch.len() - 1] != pred);
                        assert(ch.last() == ch[ch.len() - 1]);
                        assert(pre.fwd(ch[ch.len() - 1] as int, l) is None);
                    }
                }
            }
            assert forall|k1: int, k2: int| 0 <= k1 < k2 < newch.len() implies post.val_of(
                #[trigger] newch[k1] as int,
            ) < post.val_of(#[trigger] newch[k2] as int) by {
                if k1 >= q {
                    assert(newch[k1] == ch[k1 + 1] && newch[k2] == ch[k2 + 1]);
                } else if k2 >= q {
                    assert(newch[k1] == ch[k1] && newch[k2] == ch[k2 + 1]);
                } else {
                    assert(newch[k1] == ch[k1] && newch[k2] == ch[k2]);
                }
            }
        }
        // every other level is untouched
        assert forall|L2: int| 0 <= L2 < old0.spec_max_level() && L2 != l implies #[trigger]
        post.wf_chain(L2) by {
            assert(pre.wf_chain(L2));
            assert(post.fwd(0, L2) == pre.fwd(0, L2));
            assert forall|k: int| 0 <= k < pre.chain(L2).len() implies post.fwd(
                #[trigger] pre.chain(L2)[k] as int,
                L2,
            ) == pre.fwd(pre.chain(L2)[k] as int, L2) by {
                assert(pre.levels_of(pre.chain(L2)[k] as int) > L2);
            }
            Self::lemma_chain_frame(pre, post, L2);
        }
        assert forall|L2: int| 0 <= L2 < old0.spec_max_level() implies #[trigger] post.wf_chain(
            L2,
        ) by {}
        // membership after the unlinking
        assert forall|L2: int, i: int|
            0 <= L2 < old0.spec_max_level() && 1 <= i < old0.node_count() && i != c implies (
        #[trigger] post.in_chain(L2, i) <==> (post.nodes@[i].value is Some && post.levels_of(i)
            > L2)) by {
            if L2 == l {
                Self::lemma_in_chain_remove(pre, post, l, q, i);
            } else {
                Self::lemma_in_chain_same(pre, post, L2, i);
            }
        }
        assert forall|L2: int| 0 <= L2 < old0.spec_max_level() implies (#[trigger] post.in_chain(
            L2,
            c as int,
        ) <==> (level + 1 <= L2 < old0.levels_of(c as int))) by {
            if L2 == l {
                Self::lemma_in_chain_remove(pre, post, l, q, c as int);
            } else {
                Self::lemma_in_chain_same(pre, post, L2, c as int);
            }
        }
        // pending stopping points are untouched
        assert forall|L2: int| level + 1 <= L2 < old0.spec_max_level() implies post.is_pred_at(
            L2,
            #[trigger] update[L2],
            value,
        ) && (update[L2] == 0 || post.in_chain(L2, update[L2] as int)) by {
            assert(pre.wf_chain(L2));
            assert(pre.is_pred_at(L2, update[L2], value));
            Self::lemma_is_pred_frame(pre, post, L2, update[L2], value);
            Self::lemma_in_chain_same(pre, post, L2, update[L2] as int);
        }
        // what each level now holds
        assert(post.level_seq(l) =~= pre.level_seq(l).remove(q)) by {
            pre.level_seq(l).remove_ensures(q);
        }
        assert(pre.level_seq(l)[q] == value);
        assert forall|j: int|
            0 <= j < pre.level_seq(l).len() && j != q implies pre.level_seq(l)[j] != pre.level_seq(
            l,
        )[q] by {
            if j < q {
                assert(pre.val_of(ch[j] as int) < pre.val_of(ch[q] as int));
            } else {
                assert(pre.val_of(ch[q] as int) < pre.val_of(ch[j] as int));
            }
        }
        assert forall|L2: int, w: u64| 0 <= L2 < old0.spec_max_level() implies (#[trigger]
        post.level_contains(L2, w) <==> (old0.level_contains(L2, w) && !(w == value && L2 < level
            + 1))) by {
            if L2 == l {
                lemma_remove_contains(pre.level_seq(l), q, w);
                assert(pre.level_contains(L2, w) <==> (old0.level_contains(L2, w) && !(w == value
                    && L2 < level)));
            } else {
                assert(pre.wf_chain(L2));
                Self::lemma_level_seq_frame(pre, post, L2);
                assert(pre.level_contains(L2, w) <==> (old0.level_contains(L2, w) && !(w == value
                    && L2 < level)));
            }
        }
        assert(post.value_seq().len() == old0.value_seq().len() - 1) by {
            if l == 0 {
                assert(pre.value_seq().len() == old0.value_seq().len());
                assert(post.level_seq(0).len() == pre.level_seq(0).len() - 1);
            } else {
                assert(pre.wf_chain(0));
                Self::lemma_level_seq_frame(pre, post, 0);
                assert(level > 0);
            }
        }
    }

    /// With the doomed node off every level it spanned, clearing its stored
    /// value makes the whole structure sound again.
    proof fn lemma_unsplice_finish(
        old0: &SkipList,
        pre: &SkipList,
        post: &SkipList,
        update: Seq<usize>,
        value: u64,
        c: usize,
    )
        requires
            Self::unsplice_inv(
                old0,
                pre,
                update,
                value,
                c,
                old0.levels_of(c as int) as usize,
            ),
            post.max_level == pre.max_level,
            post.probability_by_level@ == pre.probability_by_level@,
            post.chains@ == pre.chains@,
            post.nodes@.len() == pre.nodes@.len(),
            forall|i: int|
                0 <= i < pre.nodes@.len() && i != c ==> #[trigger] post.nodes@[i] == pre.nodes@[i],
            post.nodes@[c as int].value is None,
            post.nodes@[c as int].next == pre.nodes@[c as int].next,
        ensures
            post.wf(),
            post.spec_max_level() == old0.spec_max_level(),
            forall|lvl: int, w: u64|
                0 <= lvl < old0.spec_max_level() ==> (#[trigger] post.level_contains(lvl, w) <==> (
                old0.level_contains(lvl, w) && w != value)),
            post.value_seq().len() == old0.value_seq().len() - 1,
    {
        let tl = old0.levels_of(c as int);
        assert(1 <= tl <= old0.spec_max_level());
        assert(1 <= c < old0.node_count());
        // the doomed node is now on no chain at all, so every chain and
        // every level's values are untouched by clearing its value
        assert forall|L: int| 0 <= L < old0.spec_max_level() implies !(#[trigger] pre.in_chain(
            L,
            c as int,
        )) by {}
        assert forall|L: int| 0 <= L < old0.spec_max_level() implies #[trigger] post.wf_chain(
            L,
        ) by {
            assert(pre.wf_chain(L));
            assert forall|k: int| 0 <= k < pre.chain(L).len() implies #[trigger] pre.chain(L)[k]
                != c by {
                if pre.chain(L)[k] == c {
                    assert(pre.in_chain(L, c as int));
                }
            }
            Self::lemma_chain_frame(pre, post, L);
        }
        assert forall|L: int| 0 <= L < old0.spec_max_level() implies #[trigger] post.level_seq(L)
            == pre.level_seq(L) by {
            assert(pre.wf_chain(L));
            assert forall|k: int| 0 <= k < pre.chain(L).len() implies #[trigger] pre.chain(L)[k]
                != c by {
                if pre.chain(L)[k] == c {
                    assert(pre.in_chain(L, c as int));
                }
            }
            Self::lemma_level_seq_frame(pre, post, L);
        }
        // only the doomed node held the sought value, so a level held it
        // only if the node spanned that level
        assert forall|L: int|
            0 <= L < old0.spec_max_level() && old0.level_contains(L, value) implies L < tl by {
            assert(old0.wf_chain(L));
            assert(old0.wf_chain(0));
            let j = choose|j: int|
                0 <= j < old0.level_seq(L).len() && old0.level_seq(L)[j] == value;
            let i = old0.chain(L)[j];
            assert(old0.in_chain(L, i as int));
            assert(old0.in_chain(0, i as int));
            let ki = choose|k: int| 0 <= k < old0.chain(0).len() && #[trigger] old0.chain(0)[k]
                == i;
            let kc = choose|k: int| 0 <= k < old0.chain(0).len() && #[trigger] old0.chain(0)[k]
                == c;
            assert(i == c) by {
                if ki < kc {
                    assert(old0.val_of(old0.chain(0)[ki] as int) < old0.val_of(
                        old0.chain(0)[kc] as int,
                    ));
                } else if kc < ki {
                    assert(old0.val_of(old0.chain(0)[kc] as int) < old0.val_of(
                        old0.chain(0)[ki] as int,
                    ));
                }
            }
            assert(old0.in_chain(L, c as int));
        }
        assert forall|lvl: int, w: u64| 0 <= lvl < old0.spec_max_level() implies (#[trigger]
        post.level_contains(lvl, w) <==> (old0.level_contains(lvl, w) && w != value)) by {
            assert(post.level_seq(lvl) == pre.level_seq(lvl));
            assert(pre.level_contains(lvl, w) <==> (old0.level_contains(lvl, w) && !(w == value
                && lvl < tl)));
        }
        // the structure is sound as a whole
        assert forall|i: int| 0 <= i < old0.node_count() implies #[trigger] post.nodes@[i].next@.len()
            == old0.nodes@[i].next@.len() by {}
        assert forall|i: int|
            1 <= i < post.node_count() implies 1 <= #[trigger] post.levels_of(i)
                <= post.max_level by {
            assert(1 <= old0.levels_of(i) <= old0.max_level);
        }
        assert forall|i: int|
            0 <= i < post.max_level implies #[trigger] post.probability_by_level@[i]
                == level_threshold(i as nat) by {
            assert(old0.probability_by_level@[i] == level_threshold(i as nat));
        }
        assert forall|lvl: int, i: int|
            0 <= lvl < post.max_level && 1 <= i < post.node_count() implies (#[trigger]
        post.in_chain(lvl, i) <==> (post.nodes@[i].value is Some && post.levels_of(i) > lvl)) by {
            Self::lemma_in_chain_same(pre, post, lvl, i);
            if i == c as int {
                assert(!pre.in_chain(lvl, c as int));
            }
        }
    }

    /// Removes the node holding a value, if any, and hands the value back.
    /// The node is bypassed at every level it spans, bottom level first,
    /// and its stored value is taken out.
    pub fn delete(&mut self, value: u64) -> (r: Option<u64>)
        requires
            old(self).wf(),
        ensures
            final(self).wf(),
            final(self).spec_max_level() == old(self).spec_max_level(),
            r == if old(self).contains_value(value) {
                Some(value)
            } else {
                None::<u64>
            },
            !old(self).contains_value(value) ==> *final(self) == *old(self),
            forall|lvl: int, w: u64|
                0 <= lvl < old(self).spec_max_level() ==> (#[trigger] final(self).level_contains(
                    lvl,
                    w,
                ) <==> (old(self).level_contains(lvl, w) && w != value)),
            final(self).value_seq().len() == old(self).value_seq().len() - (if old(
                self,
            ).contains_value(value) {
                1int
            } else {
                0int
            }),
    {
        let update = self.find_update(value);
        let p0 = update[0];
        proof {
            assert(self.wf_chain(0));
            self.lemma_pred_facts(0, p0, value);
        }
        let candidate = self.get_forward(p0, 0);
        let target: usize = match candidate {
            Some(node) => {
                proof {
                    let ch = self.chain(0);
                    let k = self.pred_cut(0, p0);
                    assert(node == ch[k + 1]);
                    assert(self.in_chain(0, node as int));
                }
                if self.node_value_equals(node, &value) {
                    node
                } else {
                    proof {
                        assert forall|lvl: int| 0 <= lvl < self.spec_max_level() implies !(
                        #[trigger] self.level_contains(lvl, value)) by {
                            if self.level_contains(lvl, value) {
                                self.lemma_level_value_in_list(lvl, value);
                            }
                        }
                    }
                    return None;
                }
            },
            _ => {
                proof {
                    assert forall|lvl: int| 0 <= lvl < self.spec_max_level() implies !(#[trigger]
                    self.level_contains(lvl, value)) by {
                        if self.level_contains(lvl, value) {
                            self.lemma_level_value_in_list(lvl, value);
                        }
                    }
                }
                return None;
            },
        };
        proof {
            assert(self.contains_value(value));
            assert(self.nodes@[target as int].value == Some(value));
            assert(Self::unsplice_inv(old(self), self, update@, value, target, 0));
        }
        let mut level: usize = 0;
        while level < self.max_level
            invariant
                Self::unsplice_inv(old(self), self, update@, value, target, level),
                level <= old(self).levels_of(target as int),
            ensures
                Self::unsplice_inv(old(self), self, update@, value, target, level),
                level == old(self).levels_of(target as int),
            decreases old(self).spec_max_level() - level,
        {
            let ghost pre = *self;
            let pred = update[level];
            proof {
                assert(pre.wf_chain(level as int));
                assert(pre.nodes@[0].next@.len() == old(self).nodes@[0].next@.len());
                if pred != 0 {
                    let kk = choose|k: int|
                        0 <= k < pre.chain(level as int).len() && #[trigger] pre.chain(
                            level as int,
                        )[k] == pred;
                    assert(pre.levels_of(pred as int) > level);
                }
                pre.lemma_pred_facts(level as int, pred, value);
            }
            let fwd_opt = self.get_forward(pred, level);
            let hit = match fwd_opt {
                Some(f) => f == target,
                None => false,
            };
            if !hit {
                proof {
                    let l = level as int;
                    if level < old(self).levels_of(target as int) {
                        assert(pre.in_chain(l, target as int));
                        let kc = choose|k: int|
                            0 <= k < pre.chain(l).len() && #[trigger] pre.chain(l)[k] == target;
                        assert(pre.level_seq(l)[kc] == value);
                        assert(pre.level_contains(l, value));
                        let q = pre.pred_cut(l, pred) + 1;
                        let ch = pre.chain(l);
                        assert(q < ch.len() && pre.val_of(ch[q] as int) == value);
                        assert(ch[q] == target) by {
                            if kc < q {
                                assert(pre.val_of(ch[kc] as int) < pre.val_of(ch[q] as int));
                            } else if kc > q {
                                assert(pre.val_of(ch[q] as int) < pre.val_of(ch[kc] as int));
                            }
                        }
                        assert(false);
                    }
                }
                break ;
            }
            proof {
                let l = level as int;
                let ch = pre.chain(l);
                let q = pre.pred_cut(l, pred) + 1;
                assert(q < ch.len() && fwd_opt == Some(ch[q]));
                assert(pre.in_chain(l, target as int));
                assert(level < old(self).levels_of(target as int));
                assert(pre.levels_of(target as int) > level);
            }
            let target_next = self.get_forward(target, level);
            self.set_forward(pred, level, target_next);
            let ghost l = level as int;
            self.chains = Ghost(
                self.chains@.update(l, pre.chain(l).remove(pre.pred_cut(l, pred) + 1)),
            );
            proof {
                assert(target_next == pre.fwd(target as int, l));
                assert(pre.fwd(target as int, l) == pre.fwd(
                    pre.chain(l)[pre.pred_cut(l, pred) + 1] as int,
                    l,
                ));
                Self::lemma_unsplice_step(
                    old(self),
                    &pre,
                    self,
                    update@,
                    value,
                    target,
                    level,
                    pred,
                    target_next,
                );
            }
            level = level + 1;
        }
        let ghost pre_take = *self;
        let removed = self.replace_value(target, None);
        proof {
            Self::lemma_unsplice_finish(old(self), &pre_take, self, update@, value, target);
        }
        removed
    }

    /// The values along one level, head to tail: the runtime view of the
    /// chain that the contracts speak of.
    pub fn level_values(&self, level: usize) -> (r: Vec<u64>)
        requires
            self.wf(),
            level < self.spec_max_level(),
        ensures
            r@ == self.level_seq(level as int),
    {
        let mut r: Vec<u64> = Vec::new();
        let mut current: usize = 0;
        let ghost mut pos: int = -1;
        loop
            invariant
                self.wf(),
                level < self.spec_max_level(),
                current < self.nodes@.len(),
                (current == 0 && pos == -1) || (0 <= pos < self.chain(level as int).len()
                    && self.chain(level as int)[pos] == current),
                r@ =~= self.level_seq(level as int).subrange(0, pos + 1),
            ensures
                r@ == self.level_seq(level as int),
            decreases self.chain(level as int).len() - pos,
        {
            proof {
                assert(self.wf_chain(level as int));
            }
            let next = self.get_forward(current, level);
            match next {
                Some(n) => {
                    proof {
                        let ch = self.chain(level as int);
                        if current == 0 {
                            assert(ch.len() > 0 && n == ch[0]);
                        } else {
                            assert(pos < ch.len() - 1 && n == ch[pos + 1]) by {
                                if pos == ch.len() - 1 {
                                    assert(ch.last() == ch[pos]);
                                }
                            }
                        }
                        assert(1 <= ch[pos + 1] < self.node_count());
                    }
                    let held: Option<u64> = self.nodes[n].value;
                    r.push(held.unwrap());
                    current = n;
                    proof {
                        pos = pos + 1;
                        assert(self.level_seq(level as int)[pos] == self.val_of(
                            current as int,
                        ));
                        assert(r@ =~= self.level_seq(level as int).subrange(0, pos + 1));
                    }
                },
                None => {
                    proof {
                        let ch = self.chain(level as int);
                        if current == 0 {
                            assert(ch.len() == 0);
                        } else {
                            assert(pos == ch.len() - 1) by {
                                if pos < ch.len() - 1 {
                                    assert(self.fwd(ch[pos] as int, level as int) == Some(
                                        ch[pos + 1],
                                    ));
                                }
                            }
                        }
                        assert(r@ =~= self.level_seq(level as int));
                    }
                    break ;
                },
            }
        }
        r
    }

    /// Along any level the values strictly increase from head to tail.
    pub proof fn lemma_level_sorted(&self, lvl: int, p: int, q: int)
        requires
            self.wf(),
            0 <= lvl < self.spec_max_level(),
            0 <= p < q < self.level_seq(lvl).len(),
        ensures
            self.level_seq(lvl)[p] < self.level_seq(lvl)[q],
    {
        assert(self.wf_chain(lvl));
        assert(self.val_of(self.chain(lvl)[p] as int) < self.val_of(self.chain(lvl)[q] as int));
    }

    /// A node linked into one level is linked into every level below it.
    pub proof fn lemma_level_containment(&self, hi: int, lo: int, i: int)
        requires
            self.wf(),
            0 <= lo <= hi < self.spec_max_level(),
            self.in_chain(hi, i),
        ensures
            self.in_chain(lo, i),
    {
        assert(self.wf_chain(hi));
        let k = choose|k: int| 0 <= k < self.chain(hi).len() && #[trigger] self.chain(hi)[k] == i;
        assert(1 <= self.chain(hi)[k] < self.node_count());
        assert(self.levels_of(i) > hi);
    }

    /// A value found at one level is found at every level below it.
    pub proof fn lemma_level_value_containment(&self, hi: int, lo: int, w: u64)
        requires
            self.wf(),
            0 <= lo <= hi < self.spec_max_level(),
            self.level_contains(hi, w),
        ensures
            self.level_contains(lo, w),
    {
        assert(self.wf_chain(hi));
        assert(self.wf_chain(lo));
        let j = choose|j: int| 0 <= j < self.level_seq(hi).len() && self.level_seq(hi)[j] == w;
        let i = self.chain(hi)[j];
        assert(self.in_chain(hi, i as int));
        self.lemma_level_containment(hi, lo, i as int);
        let k = choose|k: int| 0 <= k < self.chain(lo).len() && #[trigger] self.chain(lo)[k] == i;
        assert(self.level_seq(lo)[k] == w);
    }

    /// No two nodes of the list hold the same value.
    pub proof fn lemma_value_unique(&self, i: int, j: int)
        requires
            self.wf(),
            self.in_chain(0, i),
            self.in_chain(0, j),
            self.spec_node_value(i) == self.spec_node_value(j),
        ensures
            i == j,
    {
        assert(self.wf_chain(0));
        let ki = choose|k: int| 0 <= k < self.chain(0).len() && #[trigger] self.chain(0)[k] == i;
        let kj = choose|k: int| 0 <= k < self.chain(0).len() && #[trigger] self.chain(0)[k] == j;
        if ki < kj {
            assert(self.val_of(self.chain(0)[ki] as int) < self.val_of(self.chain(0)[kj] as int));
        } else if kj < ki {
            assert(self.val_of(self.chain(0)[kj] as int) < self.val_of(self.chain(0)[ki] as int));
        }
    }

    /// Draws the number of levels for a fresh node: starting at the bottom,
    /// each flip of a shrinking coin promotes it one level further, stopping
    /// at the first failed flip or at the top.
    pub fn pick_level(&self) -> (r: usize)
        requires
            self.wf(),
        ensures
            1 <= r <= self.spec_max_level(),
    {
        let mut lvl: usize = 0;
        loop
            invariant
                self.wf(),
                lvl <= self.spec_max_level(),
            ensures
                1 <= lvl <= self.spec_max_level(),
            decreases self.spec_max_level() - lvl,
        {
            if lvl >= self.max_level {
                break ;
            }
            let coin = random_u64();
            if coin > self.probability_by_level[lvl] {
                proof {
                    assert(level_threshold(0) == u64::MAX);
                }
                break ;
            }
            lvl = lvl + 1;
        }
        lvl
    }
}

/// Relies on rand::random: a fresh draw from the thread-local generator.
/// Nothing is assumed of the value drawn.
#[verifier::external_body]
fn random_u64() -> u64 {
    rand::random::<u64>()
}

} // verus!
