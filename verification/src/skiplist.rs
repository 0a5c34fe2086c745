use vstd::prelude::*;

verus! {

// ---------------------------------------------------------------------------
// The mathematical model: sorted sequences of key/value pairs.
// ---------------------------------------------------------------------------

/// The keys of `s` are in non-decreasing order.
pub open spec fn sorted_by_key<V>(s: Seq<(i64, V)>) -> bool {
    forall|i: int, j: int| 0 <= i <= j < s.len() ==> (#[trigger] s[i]).0 <= (#[trigger] s[j]).0
}

/// Some entry of `s` carries the key `k`.
pub open spec fn has_key<V>(s: Seq<(i64, V)>, k: i64) -> bool {
    exists|i: int| 0 <= i < s.len() && (#[trigger] s[i]).0 == k
}

/// Length of the longest prefix of `s` whose keys are all at most `k`.
/// On a sorted sequence this is the number of entries with key at most `k`,
/// and the position at which a new entry with key `k` is spliced in.
pub open spec fn upper_bound<V>(s: Seq<(i64, V)>, k: i64) -> int
    decreases s.len(),
{
    if s.len() == 0 {
        0
    } else if s[0].0 <= k {
        1 + upper_bound(s.drop_first(), k)
    } else {
        0
    }
}

/// Length of the longest prefix of `s` whose keys are all strictly below `k`.
/// On a sorted sequence this is the position of the leftmost entry with key
/// `k`, whenever one exists.
pub open spec fn lower_bound<V>(s: Seq<(i64, V)>, k: i64) -> int
    decreases s.len(),
{
    if s.len() == 0 {
        0
    } else if s[0].0 < k {
        1 + lower_bound(s.drop_first(), k)
    } else {
        0
    }
}

/// What one insertion does to the enumeration: the new pair is spliced in
/// after every entry whose key is at most `k`, so equal keys keep their
/// insertion order.
pub open spec fn spec_insert<V>(s: Seq<(i64, V)>, k: i64, v: V) -> Seq<(i64, V)> {
    s.insert(upper_bound(s, k), (k, v))
}

/// What one deletion does to the enumeration: the leftmost entry carrying the
/// key is removed; without such an entry the enumeration is unchanged.
pub open spec fn spec_delete<V>(s: Seq<(i64, V)>, k: i64) -> Seq<(i64, V)> {
    if has_key(s, k) {
        s.remove(lower_bound(s, k))
    } else {
        s
    }
}

/// Bounds and boundary facts of `upper_bound`: the prefix below it is at
/// most `k`, the entry at it (if any) exceeds `k`, and on a sorted sequence
/// so does everything after it.
pub proof fn lemma_upper_bound<V>(s: Seq<(i64, V)>, k: i64)
    ensures
        0 <= upper_bound(s, k) <= s.len(),
        forall|i: int| 0 <= i < upper_bound(s, k) ==> (#[trigger] s[i]).0 <= k,
        upper_bound(s, k) < s.len() ==> s[upper_bound(s, k)].0 > k,
        sorted_by_key(s) ==> forall|i: int|
            upper_bound(s, k) <= i < s.len() ==> (#[trigger] s[i]).0 > k,
    decreases s.len(),
{
    if s.len() > 0 && s[0].0 <= k {
        lemma_upper_bound(s.drop_first(), k);
        assert forall|i: int| 0 <= i < upper_bound(s, k) implies (#[trigger] s[i]).0 <= k by {
            if i > 0 {
                assert(s.drop_first()[i - 1] == s[i]);
            }
        }
        if sorted_by_key(s) {
            assert forall|i: int| upper_bound(s, k) <= i < s.len() implies (#[trigger] s[i]).0
                > k by {
                assert(sorted_by_key(s.drop_first())) by {
                    assert(forall|x: int, y: int|
                        0 <= x <= y < s.drop_first().len() ==> (#[trigger] s.drop_first()[x]).0
                            <= (#[trigger] s.drop_first()[y]).0);
                }
                assert(s.drop_first()[i - 1] == s[i]);
            }
        }
    }
}

/// A position below which every key is at most `k` and at which the key (if
/// any) exceeds `k` is exactly `upper_bound`.
pub proof fn lemma_upper_bound_is<V>(s: Seq<(i64, V)>, k: i64, j: int)
    requires
        0 <= j <= s.len(),
        forall|i: int| 0 <= i < j ==> (#[trigger] s[i]).0 <= k,
        j < s.len() ==> s[j].0 > k,
    ensures
        upper_bound(s, k) == j,
{
    lemma_upper_bound(s, k);
    let ub = upper_bound(s, k);
    if j < ub {
        assert(s[j].0 <= k);
    } else if ub < j {
        assert(s[ub].0 <= k);
    }
}

/// Bounds and boundary facts of `lower_bound`: the prefix below it is
/// strictly below `k`, and on a sorted sequence it points at the leftmost
/// entry with key `k` exactly when the key is present.
pub proof fn lemma_lower_bound<V>(s: Seq<(i64, V)>, k: i64)
    ensures
        0 <= lower_bound(s, k) <= upper_bound(s, k) <= s.len(),
        forall|i: int| 0 <= i < lower_bound(s, k) ==> (#[trigger] s[i]).0 < k,
        lower_bound(s, k) < s.len() ==> s[lower_bound(s, k)].0 >= k,
        sorted_by_key(s) ==> (has_key(s, k) <==> (lower_bound(s, k) < s.len() && s[lower_bound(
            s,
            k,
        )].0 == k)),
    decreases s.len(),
{
    lemma_upper_bound(s, k);
    if s.len() > 0 && s[0].0 < k {
        lemma_lower_bound(s.drop_first(), k);
        assert forall|i: int| 0 <= i < lower_bound(s, k) implies (#[trigger] s[i]).0 < k by {
            if i > 0 {
                assert(s.drop_first()[i - 1] == s[i]);
            }
        }
    }
    let lb = lower_bound(s, k);
    if sorted_by_key(s) {
        if has_key(s, k) {
            let w = choose|i: int| 0 <= i < s.len() && (#[trigger] s[i]).0 == k;
            assert(!(w < lb));
            assert(s[lb].0 <= s[w].0);
        }
        if lb < s.len() && s[lb].0 == k {
            assert(has_key(s, k));
        }
    }
}

/// A position below which every key is strictly below `k` and at which the
/// key (if any) is at least `k` is exactly `lower_bound`.
pub proof fn lemma_lower_bound_is<V>(s: Seq<(i64, V)>, k: i64, j: int)
    requires
        0 <= j <= s.len(),
        forall|i: int| 0 <= i < j ==> (#[trigger] s[i]).0 < k,
        j < s.len() ==> s[j].0 >= k,
    ensures
        lower_bound(s, k) == j,
{
    lemma_lower_bound(s, k);
    let lb = lower_bound(s, k);
    if j < lb {
        assert(s[j].0 < k);
    } else if lb < j {
        assert(s[lb].0 < k);
    }
}

/// On a sorted sequence, the key is present exactly when the entry just below
/// the upper bound carries it; that entry is the rightmost one with the key.
pub proof fn lemma_upper_bound_found<V>(s: Seq<(i64, V)>, k: i64)
    requires
        sorted_by_key(s),
    ensures
        has_key(s, k) <==> (upper_bound(s, k) > 0 && s[upper_bound(s, k) - 1].0 == k),
{
    lemma_upper_bound(s, k);
    let ub = upper_bound(s, k);
    if has_key(s, k) {
        let w = choose|i: int| 0 <= i < s.len() && (#[trigger] s[i]).0 == k;
        assert(w < ub);
        assert(s[w].0 <= s[ub - 1].0);
    }
    if ub > 0 && s[ub - 1].0 == k {
        assert(has_key(s, k));
    }
}

// ---------------------------------------------------------------------------
// Node: one key/value slot.
// ---------------------------------------------------------------------------

/// One key/value slot: pure data plus an ordering comparison of its key.
pub struct Node<V> {
    pub key: i64,
    pub value: V,
}

impl<V> Node<V> {
    pub fn new(key: i64, value: V) -> (n: Node<V>)
        ensures
            n.key == key,
            n.value == value,
    {
        Node { key, value }
    }

    /// Compare this node's key against a candidate key.
    pub fn cmp(&self, key: &i64) -> (r: core::cmp::Ordering)
        ensures
            r == core::cmp::Ordering::Less <==> self.key < *key,
            r == core::cmp::Ordering::Equal <==> self.key == *key,
            r == core::cmp::Ordering::Greater <==> self.key > *key,
    {
        if self.key < *key {
            core::cmp::Ordering::Less
        } else if self.key == *key {
            core::cmp::Ordering::Equal
        } else {
            core::cmp::Ordering::Greater
        }
    }
}

// ---------------------------------------------------------------------------
// Level: one sorted linked chain.
// ---------------------------------------------------------------------------

/// One "floor" of the skip list: a sorted chain of nodes held in an arena of
/// stable slots. `rights`/`lefts` are the forward and backward links between
/// slots of this level; `downs`/`ups` are the vertical links into the
/// neighbouring levels, held here but wired by the container. A deleted node
/// is unlinked from the chain and its slot is left behind; slots are never
/// reused, so node ids stay stable.
pub struct Level<V> {
    keys: Vec<i64>,
    values: Vec<V>,
    rights: Vec<Option<usize>>,
    lefts: Vec<Option<usize>>,
    downs: Vec<Option<usize>>,
    ups: Vec<Option<usize>>,
    head: Option<usize>,
    size: usize,
    order: Ghost<Seq<usize>>,
}

impl<V> View for Level<V> {
    type V = Seq<(i64, V)>;

    /// The enumeration of the chain: key/value pairs in forward order.
    closed spec fn view(&self) -> Seq<(i64, V)> {
        Seq::new(
            self.order@.len(),
            |j: int| (self.keys@[self.order@[j] as int], self.values@[self.order@[j] as int]),
        )
    }
}

impl<V> Level<V> {
    /// Number of arena slots ever allocated (live nodes and tombstones).
    pub closed spec fn arena_size(self) -> int {
        self.keys@.len() as int
    }

    /// The node ids of the chain, in forward order from the head.
    pub closed spec fn chain(self) -> Seq<usize> {
        self.order@
    }

    pub open spec fn chain_len(self) -> int {
        self.chain().len() as int
    }

    pub open spec fn id_at(self, j: int) -> usize {
        self.chain()[j]
    }

    pub closed spec fn key_of(self, id: usize) -> i64 {
        self.keys@[id as int]
    }

    pub closed spec fn val_of(self, id: usize) -> V {
        self.values@[id as int]
    }

    pub closed spec fn down_of(self, id: usize) -> Option<usize> {
        self.downs@[id as int]
    }

    pub closed spec fn up_of(self, id: usize) -> Option<usize> {
        self.ups@[id as int]
    }

    pub closed spec fn right_of(self, id: usize) -> Option<usize> {
        self.rights@[id as int]
    }

    pub closed spec fn left_of(self, id: usize) -> Option<usize> {
        self.lefts@[id as int]
    }

    pub open spec fn key_at(self, j: int) -> i64 {
        self.key_of(self.id_at(j))
    }

    pub open spec fn on_chain(self, id: usize) -> bool {
        self.chain().contains(id)
    }

    /// The links of the `j`th chain node agree with the chain order.
    pub closed spec fn link_ok(self, j: int) -> bool {
        &&& (self.id_at(j) as int) < self.arena_size()
        &&& self.rights@[self.id_at(j) as int] == (if j + 1 < self.chain_len() {
            Some(self.id_at(j + 1))
        } else {
            None::<usize>
        })
        &&& self.lefts@[self.id_at(j) as int] == (if 0 < j {
            Some(self.id_at(j - 1))
        } else {
            None::<usize>
        })
    }

    /// Well-formedness: the parallel arenas agree in length, the chain visits
    /// distinct in-bounds slots, the head and the forward/backward links match
    /// the chain order, the size counter equals the chain length, and keys are
    /// non-decreasing along the chain.
    pub closed spec fn wf(self) -> bool {
        &&& self.values@.len() == self.keys@.len()
        &&& self.rights@.len() == self.keys@.len()
        &&& self.lefts@.len() == self.keys@.len()
        &&& self.downs@.len() == self.keys@.len()
        &&& self.ups@.len() == self.keys@.len()
        &&& self.chain_len() <= self.arena_size()
        &&& forall|j: int| 0 <= j < self.chain_len() ==> #[trigger] self.link_ok(j)
        &&& forall|j1: int, j2: int|
            0 <= j1 < j2 < self.chain_len() ==> #[trigger] self.id_at(j1) != #[trigger] self.id_at(
                j2,
            )
        &&& self.head == (if self.chain_len() == 0 {
            None::<usize>
        } else {
            Some(self.id_at(0))
        })
        &&& self.size == self.chain_len()
        &&& forall|j1: int, j2: int|
            0 <= j1 <= j2 < self.chain_len() ==> #[trigger] self.key_at(j1)
                <= #[trigger] self.key_at(j2)
    }

    pub fn new() -> (l: Level<V>)
        ensures
            l.wf(),
            l@ == Seq::<(i64, V)>::empty(),
            l.chain() == Seq::<usize>::empty(),
            l.arena_size() == 0,
    {
        let l = Level {
            keys: Vec::new(),
            values: Vec::new(),
            rights: Vec::new(),
            lefts: Vec::new(),
            downs: Vec::new(),
            ups: Vec::new(),
            head: None,
            size: 0,
            order: Ghost(Seq::empty()),
        };
        proof {
            assert(l@ =~= Seq::<(i64, V)>::empty());
        }
        l
    }

    /// How many nodes the chain holds.
    pub fn len(&self) -> (n: usize)
        requires
            self.wf(),
        ensures
            n == self@.len(),
    {
        self.size
    }

    /// The node ids of the chain, in forward order from the head.
    pub fn iter(&self) -> (ids: Vec<usize>)
        requires
            self.wf(),
        ensures
            ids@ == self.chain(),
    {
        let mut ids: Vec<usize> = Vec::new();
        let mut cur: Option<usize> = self.head;
        let ghost mut j: int = 0;
        loop
            invariant
                self.wf(),
                0 <= j <= self.chain_len(),
                ids@ == self.chain().subrange(0, j),
                cur == (if j < self.chain_len() {
                    Some(self.id_at(j))
                } else {
                    None::<usize>
                }),
            ensures
                ids@ == self.chain(),
            decreases self.chain_len() - j,
        {
            match cur {
                None => {
                    proof {
                        assert(ids@ =~= self.chain());
                    }
                    break ;
                },
                Some(c) => {
                    proof {
                        assert(self.link_ok(j));
                    }
                    ids.push(c);
                    cur = self.rights[c];
                    proof {
                        j = j + 1;
                        assert(ids@ =~= self.chain().subrange(0, j));
                    }
                },
            }
        }
        ids
    }

    /// Key held in an arena slot.
    pub fn key(&self, id: usize) -> (k: i64)
        requires
            self.wf(),
            id < self.arena_size(),
        ensures
            k == self.key_of(id),
    {
        self.keys[id]
    }

    /// Value held in an arena slot.
    pub fn value(&self, id: usize) -> (v: &V)
        requires
            self.wf(),
            id < self.arena_size(),
        ensures
            *v == self.val_of(id),
    {
        &self.values[id]
    }

    /// Forward neighbour of a slot.
    pub fn right(&self, id: usize) -> (r: Option<usize>)
        requires
            self.wf(),
            id < self.arena_size(),
        ensures
            r == self.right_of(id),
    {
        self.rights[id]
    }

    /// Backward neighbour of a slot.
    pub fn left(&self, id: usize) -> (r: Option<usize>)
        requires
            self.wf(),
            id < self.arena_size(),
        ensures
            r == self.left_of(id),
    {
        self.lefts[id]
    }

    /// Vertical link of a slot into the level below.
    pub fn down(&self, id: usize) -> (r: Option<usize>)
        requires
            self.wf(),
            id < self.arena_size(),
        ensures
            r == self.down_of(id),
    {
        self.downs[id]
    }

    /// Insert a pair into the chain, after every node whose key is at most
    /// the new key, so equal keys keep insertion order. Returns the id of the
    /// fresh node so that the container can wire its vertical links.
    #[verifier::rlimit(100)]
    pub fn insert(&mut self, key: i64, value: V) -> (id: usize)
        requires
            old(self).wf(),
            old(self).arena_size() < usize::MAX as int,
        ensures
            final(self).wf(),
            id as int == old(self).arena_size(),
            final(self).arena_size() == old(self).arena_size() + 1,
            final(self)@ == spec_insert(old(self)@, key, value),
            final(self).chain() == old(self).chain().insert(upper_bound(old(self)@, key), id),
            forall|x: usize|
                (x as int) < old(self).arena_size() ==> #[trigger] final(self).key_of(x) == old(
                    self,
                ).key_of(x),
            forall|x: usize|
                (x as int) < old(self).arena_size() ==> #[trigger] final(self).val_of(x) == old(
                    self,
                ).val_of(x),
            forall|x: usize|
                (x as int) < old(self).arena_size() ==> #[trigger] final(self).down_of(x) == old(
                    self,
                ).down_of(x),
            forall|x: usize|
                (x as int) < old(self).arena_size() ==> #[trigger] final(self).up_of(x) == old(
                    self,
                ).up_of(x),
            final(self).key_of(id) == key,
            final(self).val_of(id) == value,
            final(self).down_of(id) == None::<usize>,
            final(self).up_of(id) == None::<usize>,
    {
        let ghost s0 = self@;
        let ghost c0 = self.chain();
        // Forward scan: stop at the first node whose key exceeds the new key.
        let mut cur: Option<usize> = self.head;
        let mut prev: Option<usize> = None;
        let ghost mut j: int = 0;
        loop
            invariant
                self.wf(),
                self == old(self),
                0 <= j <= self.chain_len(),
                cur == (if j < self.chain_len() {
                    Some(self.id_at(j))
                } else {
                    None::<usize>
                }),
                prev == (if j == 0 {
                    None::<usize>
                } else {
                    Some(self.id_at(j - 1))
                }),
                forall|j2: int| 0 <= j2 < j ==> #[trigger] self.key_at(j2) <= key,
            ensures
                self == old(self),
                0 <= j <= self.chain_len(),
                prev == (if j == 0 {
                    None::<usize>
                } else {
                    Some(self.id_at(j - 1))
                }),
                forall|j2: int| 0 <= j2 < j ==> #[trigger] self.key_at(j2) <= key,
                j < self.chain_len() ==> self.key_at(j) > key,
            decreases self.chain_len() - j,
        {
            match cur {
                None => {
                    break ;
                },
                Some(c) => {
                    proof {
                        assert(self.link_ok(j));
                    }
                    if self.keys[c] <= key {
                        prev = Some(c);
                        cur = self.rights[c];
                        proof {
                            j = j + 1;
                        }
                    } else {
                        break ;
                    }
                },
            }
        }
        proof {
            assert forall|i: int| 0 <= i < j implies (#[trigger] s0[i]).0 <= key by {
                assert(self.key_at(i) <= key);
            }
            if j < self.chain_len() {
                assert(s0[j].0 > key);
            }
            lemma_upper_bound_is(s0, key, j);
        }
        let id = self.splice_at(prev, key, value, Ghost(j));
        id
    }

    /// Splice a fresh node in at chain position `j`, just after `prev`.
    /// The caller warrants that the position respects the sorted order.
    #[verifier::rlimit(100)]
    fn splice_at(
        &mut self,
        prev: Option<usize>,
        key: i64,
        value: V,
        Ghost(j): Ghost<int>,
    ) -> (id: usize)
        requires
            old(self).wf(),
            old(self).arena_size() < usize::MAX as int,
            0 <= j <= old(self).chain_len(),
            prev == (if j == 0 {
                None::<usize>
            } else {
                Some(old(self).id_at(j - 1))
            }),
            j > 0 ==> old(self).key_at(j - 1) <= key,
            j < old(self).chain_len() ==> key <= old(self).key_at(j),
        ensures
            final(self).wf(),
            id as int == old(self).arena_size(),
            final(self).arena_size() == old(self).arena_size() + 1,
            final(self)@ == old(self)@.insert(j, (key, value)),
            final(self).chain() == old(self).chain().insert(j, id),
            forall|x: usize|
                (x as int) < old(self).arena_size() ==> #[trigger] final(self).key_of(x) == old(
                    self,
                ).key_of(x),
            forall|x: usize|
                (x as int) < old(self).arena_size() ==> #[trigger] final(self).val_of(x) == old(
                    self,
                ).val_of(x),
            forall|x: usize|
                (x as int) < old(self).arena_size() ==> #[trigger] final(self).down_of(x) == old(
                    self,
                ).down_of(x),
            forall|x: usize|
                (x as int) < old(self).arena_size() ==> #[trigger] final(self).up_of(x) == old(
                    self,
                ).up_of(x),
            final(self).key_of(id) == key,
            final(self).val_of(id) == value,
            final(self).down_of(id) == None::<usize>,
            final(self).up_of(id) == None::<usize>,
    {
        let ghost s0 = self@;
        let ghost c0 = self.chain();
        let id = self.keys.len();
        self.keys.push(key);
        self.values.push(value);
        self.rights.push(None);
        self.lefts.push(None);
        self.downs.push(None);
        self.ups.push(None);
        match prev {
            None => {
                // New head.
                match self.head {
                    Some(h) => {
                        proof {
                            assert(old(self).link_ok(0));
                        }
                        self.rights.set(id, Some(h));
                        self.lefts.set(h, Some(id));
                    },
                    None => {},
                }
                self.head = Some(id);
            },
            Some(p) => {
                proof {
                    assert(old(self).link_ok(j - 1));
                    if j < c0.len() {
                        assert(old(self).link_ok(j));
                    }
                }
                let nx = self.rights[p];
                self.lefts.set(id, Some(p));
                self.rights.set(id, nx);
                self.rights.set(p, Some(id));
                match nx {
                    Some(n2) => {
                        self.lefts.set(n2, Some(id));
                    },
                    None => {},
                }
            },
        }
        self.size = self.size + 1;
        proof {
            self.order@ = c0.insert(j, id);
            c0.insert_ensures(j, id);
            let c2 = self.chain();
            assert forall|x: int| 0 <= x < c2.len() implies (c2[x] as int) < self.arena_size()
                && (if x < j {
                c2[x] == c0[x]
            } else if x == j {
                c2[x] == id
            } else {
                c2[x] == c0[x - 1]
            }) by {
                if x < j {
                    assert(old(self).link_ok(x));
                } else if x > j {
                    assert(c2[(x - 1) + 1] == c0[x - 1]);
                    assert(old(self).link_ok(x - 1));
                }
            }
            assert forall|j1: int, j2: int| 0 <= j1 < j2 < self.chain_len() implies self.id_at(j1)
                != self.id_at(j2) by {
                if j1 != j && j2 != j {
                    let o1: int = if j1 < j {
                        j1
                    } else {
                        j1 - 1
                    };
                    let o2: int = if j2 < j {
                        j2
                    } else {
                        j2 - 1
                    };
                    assert(old(self).id_at(o1) != old(self).id_at(o2));
                } else {
                    // the fresh id is outside the old arena, every old chain
                    // id is inside it
                    if j1 == j {
                        assert(old(self).link_ok(j2 - 1));
                    } else {
                        assert(old(self).link_ok(j1));
                    }
                }
            }
            assert forall|j2: int| 0 <= j2 < self.chain_len() implies #[trigger] self.link_ok(
                j2,
            ) by {
                if j2 < j - 1 || (j + 1 < j2) {
                    let o: int = if j2 < j {
                        j2
                    } else {
                        j2 - 1
                    };
                    assert(old(self).link_ok(o));
                    if 0 <= o - 1 {
                        assert(old(self).link_ok(o - 1));
                    }
                    if o + 1 < c0.len() {
                        assert(old(self).link_ok(o + 1));
                    }
                } else {
                    if 0 <= j2 - 1 && j2 - 1 < j {
                        assert(old(self).link_ok(j2 - 1));
                    }
                    if j - 1 >= 0 {
                        assert(old(self).link_ok(j - 1));
                    }
                    if j < c0.len() {
                        assert(old(self).link_ok(j));
                    }
                    if j + 1 < c0.len() {
                        assert(old(self).link_ok(j + 1));
                    }
                }
            }
            assert forall|j1: int, j2: int| 0 <= j1 <= j2 < self.chain_len() implies self.key_at(
                j1,
            ) <= self.key_at(j2) by {
                let o1: int = if j1 < j {
                    j1
                } else {
                    j1 - 1
                };
                let o2: int = if j2 < j {
                    j2
                } else {
                    j2 - 1
                };
                if j1 != j {
                    assert(old(self).link_ok(o1));
                    assert(self.key_at(j1) == old(self).key_at(o1));
                }
                if j2 != j {
                    assert(old(self).link_ok(o2));
                    assert(self.key_at(j2) == old(self).key_at(o2));
                }
                if j1 == j && j2 > j {
                    assert(old(self).key_at(j) <= old(self).key_at(o2));
                }
                if j2 == j && j1 < j {
                    assert(old(self).key_at(o1) <= old(self).key_at(j - 1));
                }
            }
            assert(self.wf());
            assert(self@ =~= s0.insert(j, (key, value))) by {
                s0.insert_ensures(j, (key, value));
                assert forall|x: int| 0 <= x < self@.len() implies self@[x] == s0.insert(
                    j,
                    (key, value),
                )[x] by {
                    if x < j {
                        assert(old(self).link_ok(x));
                        assert(self@[x] == s0[x]);
                    } else if x == j {
                    } else {
                        assert(old(self).link_ok(x - 1));
                        assert(s0.insert(j, (key, value))[(x - 1) + 1] == s0[x - 1]);
                        assert(self@[x] == s0[x - 1]);
                    }
                }
            }
        }
        id
    }

    /// Splice a new pair in immediately after the given node, without any
    /// ordering scan: the caller warrants that the spot respects the sorted
    /// order. Used when a bisection has already located the spot.
    pub fn insert_after(&mut self, key: i64, value: V, after: usize) -> (id: usize)
        requires
            old(self).wf(),
            old(self).arena_size() < usize::MAX as int,
            old(self).on_chain(after),
            old(self).key_of(after) <= key,
            old(self).pos_of(after) + 1 < old(self).chain_len() ==> key <= old(self).key_at(
                old(self).pos_of(after) + 1,
            ),
        ensures
            final(self).wf(),
            id as int == old(self).arena_size(),
            final(self).arena_size() == old(self).arena_size() + 1,
            final(self)@ == old(self)@.insert(old(self).pos_of(after) + 1, (key, value)),
            final(self).chain() == old(self).chain().insert(old(self).pos_of(after) + 1, id),
            final(self).key_of(id) == key,
            final(self).val_of(id) == value,
            final(self).down_of(id) == None::<usize>,
            final(self).up_of(id) == None::<usize>,
            forall|x: usize|
                (x as int) < old(self).arena_size() ==> #[trigger] final(self).key_of(x) == old(
                    self,
                ).key_of(x),
            forall|x: usize|
                (x as int) < old(self).arena_size() ==> #[trigger] final(self).val_of(x) == old(
                    self,
                ).val_of(x),
            forall|x: usize|
                (x as int) < old(self).arena_size() ==> #[trigger] final(self).down_of(x) == old(
                    self,
                ).down_of(x),
            forall|x: usize|
                (x as int) < old(self).arena_size() ==> #[trigger] final(self).up_of(x) == old(
                    self,
                ).up_of(x),
    {
        proof {
            self.lemma_pos_of(after);
        }
        let ghost j = self.pos_of(after) + 1;
        let id = self.splice_at(Some(after), key, value, Ghost(j));
        id
    }

    /// The chain position of a node that sits on the chain.
    pub open spec fn pos_of(self, id: usize) -> int {
        self.chain().index_of_first(id)->Some_0
    }

    /// On a well-formed level the chain position of a chain node is the one
    /// index of the chain that holds it.
    pub proof fn lemma_pos_of(self, id: usize)
        requires
            self.wf(),
            self.on_chain(id),
        ensures
            0 <= self.pos_of(id) < self.chain_len(),
            self.id_at(self.pos_of(id)) == id,
            self.chain().index_of_first(id) == Some(self.pos_of(id)),
            forall|x: int| 0 <= x < self.chain_len() && self.id_at(x) == id ==> x == self.pos_of(
                id,
            ),
    {
        self.chain().index_of_first_ensures(id);
        let p = self.pos_of(id);
        assert forall|x: int| 0 <= x < self.chain_len() && self.id_at(x) == id implies x == p by {
            if x < p {
                assert(self.chain()[x] != id);
            } else if p < x {
                assert(self.id_at(p) != self.id_at(x));
            }
        }
    }

    /// A chain node's id is an arena slot.
    pub proof fn lemma_on_chain_bound(self, id: usize)
        requires
            self.wf(),
            self.on_chain(id),
        ensures
            (id as int) < self.arena_size(),
    {
        self.lemma_pos_of(id);
        assert(self.link_ok(self.pos_of(id)));
    }

    /// The chain ids of a well-formed level are duplicate-free.
    pub proof fn lemma_chain_distinct(self)
        requires
            self.wf(),
        ensures
            distinct_seq(self.chain()),
    {
        assert forall|i: int, j: int| 0 <= i < j < self.chain().len() implies self.chain()[i]
            != self.chain()[j] by {
            assert(self.id_at(i) != self.id_at(j));
        }
    }

    /// The enumeration agrees with the chain: the `j`th entry holds the
    /// `j`th chain node's key and value, and that node's neighbour links
    /// follow the chain order. This ties the node-level getters to the
    /// enumeration for callers outside this module.
    pub proof fn lemma_chain_entries(self, j: int)
        requires
            self.wf(),
            0 <= j < self.chain_len(),
        ensures
            self@.len() == self.chain_len(),
            (self.id_at(j) as int) < self.arena_size(),
            self@[j] == (self.key_of(self.id_at(j)), self.val_of(self.id_at(j))),
            self.key_at(j) == self@[j].0,
            self.right_of(self.id_at(j)) == (if j + 1 < self.chain_len() {
                Some(self.id_at(j + 1))
            } else {
                None::<usize>
            }),
            self.left_of(self.id_at(j)) == (if 0 < j {
                Some(self.id_at(j - 1))
            } else {
                None::<usize>
            }),
    {
        assert(self.link_ok(j));
    }

    /// The rightmost node whose key is at most the probe key: the node after
    /// which a node with that key would be spliced in. Absent when every key
    /// on the chain exceeds the probe, in particular on an empty chain.
    pub fn bisect(&self, key: &i64) -> (r: Option<usize>)
        requires
            self.wf(),
        ensures
            r == (if upper_bound(self@, *key) == 0 {
                None::<usize>
            } else {
                Some(self.id_at(upper_bound(self@, *key) - 1))
            }),
    {
        let mut cur: Option<usize> = self.head;
        let mut r: Option<usize> = None;
        let ghost mut j: int = 0;
        loop
            invariant
                self.wf(),
                0 <= j <= self.chain_len(),
                cur == (if j < self.chain_len() {
                    Some(self.id_at(j))
                } else {
                    None::<usize>
                }),
                r == (if j == 0 {
                    None::<usize>
                } else {
                    Some(self.id_at(j - 1))
                }),
                forall|j2: int| 0 <= j2 < j ==> #[trigger] self.key_at(j2) <= *key,
            ensures
                0 <= j <= self.chain_len(),
                r == (if j == 0 {
                    None::<usize>
                } else {
                    Some(self.id_at(j - 1))
                }),
                forall|j2: int| 0 <= j2 < j ==> #[trigger] self.key_at(j2) <= *key,
                j < self.chain_len() ==> self.key_at(j) > *key,
            decreases self.chain_len() - j,
        {
            match cur {
                None => {
                    break ;
                },
                Some(c) => {
                    proof {
                        assert(self.link_ok(j));
                    }
                    if self.keys[c] <= *key {
                        r = Some(c);
                        cur = self.rights[c];
                        proof {
                            j = j + 1;
                        }
                    } else {
                        break ;
                    }
                },
            }
        }
        proof {
            assert forall|i: int| 0 <= i < j implies (#[trigger] self@[i]).0 <= *key by {
                assert(self.key_at(i) <= *key);
            }
            if j < self.chain_len() {
                assert(self@[j].0 > *key);
            }
            lemma_upper_bound_is(self@, *key, j);
        }
        r
    }

    /// Resume bisection from an anchor node that sits on the chain: absent
    /// when the anchor's key already exceeds the target, otherwise the
    /// rightmost node whose key is at most the target. The anchor lets a
    /// caller descend one level without rescanning it from its head.
    pub fn bisect_after(&self, node: usize, target: &i64) -> (r: Option<usize>)
        requires
            self.wf(),
            self.on_chain(node),
        ensures
            r == (if self.key_of(node) > *target {
                None::<usize>
            } else {
                Some(self.id_at(upper_bound(self@, *target) - 1))
            }),
            self.key_of(node) <= *target ==> upper_bound(self@, *target) > 0,
    {
        proof {
            self.lemma_pos_of(node);
        }
        let ghost jn = self.pos_of(node);
        proof {
            assert(self.link_ok(jn));
        }
        if self.keys[node] > *target {
            return None;
        }
        let mut cur: Option<usize> = Some(node);
        let mut r: Option<usize> = None;
        let ghost mut j: int = jn;
        loop
            invariant
                self.wf(),
                0 <= jn <= j <= self.chain_len(),
                jn < self.chain_len(),
                self.id_at(jn) == node,
                self.key_at(jn) <= *target,
                cur == (if j < self.chain_len() {
                    Some(self.id_at(j))
                } else {
                    None::<usize>
                }),
                r == (if j == jn {
                    None::<usize>
                } else {
                    Some(self.id_at(j - 1))
                }),
                forall|j2: int| jn <= j2 < j ==> #[trigger] self.key_at(j2) <= *target,
            ensures
                jn < j <= self.chain_len(),
                r == Some(self.id_at(j - 1)),
                forall|j2: int| jn <= j2 < j ==> #[trigger] self.key_at(j2) <= *target,
                j < self.chain_len() ==> self.key_at(j) > *target,
            decreases self.chain_len() - j,
        {
            match cur {
                None => {
                    break ;
                },
                Some(c) => {
                    proof {
                        assert(self.link_ok(j));
                    }
                    if self.keys[c] <= *target {
                        r = Some(c);
                        cur = self.rights[c];
                        proof {
                            j = j + 1;
                        }
                    } else {
                        break ;
                    }
                },
            }
        }
        proof {
            assert forall|i: int| 0 <= i < j implies (#[trigger] self@[i]).0 <= *target by {
                if i < jn {
                    assert(self.key_at(i) <= self.key_at(jn));
                } else {
                    assert(self.key_at(i) <= *target);
                }
            }
            if j < self.chain_len() {
                assert(self@[j].0 > *target);
            }
            lemma_upper_bound_is(self@, *target, j);
        }
        r
    }

    /// Remove the leftmost node carrying the key, if any, by splicing its
    /// neighbours together; without a match the chain is unchanged. The
    /// removed node's slot stays behind in the arena, unlinked, so the other
    /// ids stay stable.
    #[verifier::rlimit(100)]
    pub fn delete(&mut self, key: &i64)
        requires
            old(self).wf(),
        ensures
            final(self).wf(),
            final(self)@ == spec_delete(old(self)@, *key),
            final(self).chain() == (if has_key(old(self)@, *key) {
                old(self).chain().remove(lower_bound(old(self)@, *key))
            } else {
                old(self).chain()
            }),
            final(self).arena_size() == old(self).arena_size(),
            forall|x: usize|
                (x as int) < old(self).arena_size() ==> #[trigger] final(self).key_of(x) == old(
                    self,
                ).key_of(x),
            forall|x: usize|
                (x as int) < old(self).arena_size() ==> #[trigger] final(self).val_of(x) == old(
                    self,
                ).val_of(x),
            forall|x: usize|
                (x as int) < old(self).arena_size() ==> #[trigger] final(self).down_of(x) == old(
                    self,
                ).down_of(x),
            forall|x: usize|
                (x as int) < old(self).arena_size() ==> #[trigger] final(self).up_of(x) == old(
                    self,
                ).up_of(x),
    {
        let ghost s0 = self@;
        let ghost c0 = self.chain();
        // Forward scan for the leftmost node with an equal key.
        let mut cur: Option<usize> = self.head;
        let mut found: Option<usize> = None;
        let ghost mut j: int = 0;
        loop
            invariant_except_break
                found == None::<usize>,
            invariant
                self.wf(),
                self == old(self),
                0 <= j <= self.chain_len(),
                cur == (if j < self.chain_len() {
                    Some(self.id_at(j))
                } else {
                    None::<usize>
                }),
                forall|j2: int| 0 <= j2 < j ==> #[trigger] self.key_at(j2) != *key,
            ensures
                self == old(self),
                0 <= j <= self.chain_len(),
                forall|j2: int| 0 <= j2 < j ==> #[trigger] self.key_at(j2) != *key,
                found == (if j < self.chain_len() {
                    Some(self.id_at(j))
                } else {
                    None::<usize>
                }),
                j < self.chain_len() ==> self.key_at(j) == *key,
            decreases self.chain_len() - j,
        {
            match cur {
                None => {
                    break ;
                },
                Some(c) => {
                    proof {
                        assert(self.link_ok(j));
                    }
                    if self.keys[c] == *key {
                        found = Some(c);
                        break ;
                    } else {
                        cur = self.rights[c];
                        proof {
                            j = j + 1;
                        }
                    }
                },
            }
        }
        match found {
            None => {
                proof {
                    assert forall|i: int| 0 <= i < s0.len() implies (#[trigger] s0[i]).0
                        != *key by {
                        assert(self.key_at(i) != *key);
                    }
                    assert(!has_key(s0, *key));
                }
            },
            Some(c) => {
                proof {
                    assert forall|i: int| 0 <= i < j implies (#[trigger] s0[i]).0 < *key by {
                        assert(self.key_at(i) <= self.key_at(j));
                        assert(self.key_at(i) != *key);
                    }
                    assert(s0[j].0 == *key);
                    lemma_lower_bound_is(s0, *key, j);
                    assert(has_key(s0, *key));
                    assert(self.link_ok(j));
                    if j > 0 {
                        assert(self.link_ok(j - 1));
                    }
                    if j + 1 < self.chain_len() {
                        assert(self.link_ok(j + 1));
                    }
                }
                let p = self.lefts[c];
                let nx = self.rights[c];
                match p {
                    Some(pp) => {
                        self.rights.set(pp, nx);
                        match nx {
                            Some(nn) => {
                                self.lefts.set(nn, Some(pp));
                            },
                            None => {},
                        }
                    },
                    None => {
                        self.head = nx;
                        match nx {
                            Some(nn) => {
                                self.lefts.set(nn, None);
                            },
                            None => {},
                        }
                    },
                }
                self.rights.set(c, None);
                self.lefts.set(c, None);
                self.size = self.size - 1;
                proof {
                    self.order@ = c0.remove(j);
                    c0.remove_ensures(j);
                    s0.remove_ensures(j);
                    let c2 = self.chain();
                    assert forall|x: int| 0 <= x < c2.len() implies (c2[x] as int)
                        < self.arena_size() && (if x < j {
                        c2[x] == c0[x]
                    } else {
                        c2[x] == c0[x + 1]
                    }) by {
                        if x < j {
                            assert(old(self).link_ok(x));
                        } else {
                            assert(old(self).link_ok(x + 1));
                        }
                    }
                    assert forall|j1: int, j2: int| 0 <= j1 < j2 < self.chain_len() implies self
                        .id_at(j1) != self.id_at(j2) by {
                        let o1: int = if j1 < j {
                            j1
                        } else {
                            j1 + 1
                        };
                        let o2: int = if j2 < j {
                            j2
                        } else {
                            j2 + 1
                        };
                        assert(old(self).id_at(o1) != old(self).id_at(o2));
                    }
                    assert forall|j2: int| 0 <= j2 < self.chain_len() implies #[trigger] self
                        .link_ok(j2) by {
                        let o: int = if j2 < j {
                            j2
                        } else {
                            j2 + 1
                        };
                        assert(old(self).link_ok(o));
                        if o - 1 >= 0 {
                            assert(old(self).link_ok(o - 1));
                        }
                        if o + 1 < c0.len() {
                            assert(old(self).link_ok(o + 1));
                        }
                        if o - 2 >= 0 {
                            assert(old(self).link_ok(o - 2));
                        }
                        if o + 2 < c0.len() {
                            assert(old(self).link_ok(o + 2));
                        }
                    }
                    assert forall|j1: int, j2: int| 0 <= j1 <= j2 < self.chain_len() implies self
                        .key_at(j1) <= self.key_at(j2) by {
                        let o1: int = if j1 < j {
                            j1
                        } else {
                            j1 + 1
                        };
                        let o2: int = if j2 < j {
                            j2
                        } else {
                            j2 + 1
                        };
                        assert(old(self).link_ok(o1));
                        assert(old(self).link_ok(o2));
                        assert(old(self).key_at(o1) <= old(self).key_at(o2));
                    }
                    assert(self.wf());
                    assert(self@ =~= s0.remove(j)) by {
                        assert forall|x: int| 0 <= x < self@.len() implies self@[x] == s0.remove(
                            j,
                        )[x] by {
                            if x < j {
                                assert(old(self).link_ok(x));
                                assert(self@[x] == s0[x]);
                            } else {
                                assert(old(self).link_ok(x + 1));
                                assert(self@[x] == s0[x + 1]);
                            }
                        }
                    }
                }
            },
        }
    }

    /// Wire the vertical link of a slot into the level below. The chain and
    /// its enumeration are untouched.
    pub fn set_down(&mut self, id: usize, d: Option<usize>)
        requires
            old(self).wf(),
            (id as int) < old(self).arena_size(),
        ensures
            final(self).wf(),
            final(self)@ == old(self)@,
            final(self).chain() == old(self).chain(),
            final(self).arena_size() == old(self).arena_size(),
            final(self).down_of(id) == d,
            forall|x: usize|
                (x as int) < old(self).arena_size() && x != id ==> #[trigger] final(self).down_of(
                    x,
                ) == old(self).down_of(x),
            forall|x: usize|
                (x as int) < old(self).arena_size() ==> #[trigger] final(self).key_of(x) == old(
                    self,
                ).key_of(x),
            forall|x: usize|
                (x as int) < old(self).arena_size() ==> #[trigger] final(self).val_of(x) == old(
                    self,
                ).val_of(x),
            forall|x: usize|
                (x as int) < old(self).arena_size() ==> #[trigger] final(self).up_of(x) == old(
                    self,
                ).up_of(x),
    {
        self.downs.set(id, d);
        proof {
            assert forall|j2: int| 0 <= j2 < self.chain_len() implies #[trigger] self.link_ok(
                j2,
            ) by {
                assert(old(self).link_ok(j2));
            }
            assert forall|j1: int, j2: int| 0 <= j1 < j2 < self.chain_len() implies self.id_at(j1)
                != self.id_at(j2) by {
                assert(old(self).id_at(j1) != old(self).id_at(j2));
            }
            assert forall|j1: int, j2: int| 0 <= j1 <= j2 < self.chain_len() implies self.key_at(
                j1,
            ) <= self.key_at(j2) by {
                assert(old(self).key_at(j1) <= old(self).key_at(j2));
            }
            assert(self@ =~= old(self)@);
        }
    }

    /// Wire the vertical link of a slot into the level above. The chain and
    /// its enumeration are untouched.
    pub fn set_up(&mut self, id: usize, u: Option<usize>)
        requires
            old(self).wf(),
            (id as int) < old(self).arena_size(),
        ensures
            final(self).wf(),
            final(self)@ == old(self)@,
            final(self).chain() == old(self).chain(),
            final(self).arena_size() == old(self).arena_size(),
            final(self).up_of(id) == u,
            forall|x: usize|
                (x as int) < old(self).arena_size() && x != id ==> #[trigger] final(self).up_of(x)
                    == old(self).up_of(x),
            forall|x: usize|
                (x as int) < old(self).arena_size() ==> #[trigger] final(self).key_of(x) == old(
                    self,
                ).key_of(x),
            forall|x: usize|
                (x as int) < old(self).arena_size() ==> #[trigger] final(self).val_of(x) == old(
                    self,
                ).val_of(x),
            forall|x: usize|
                (x as int) < old(self).arena_size() ==> #[trigger] final(self).down_of(x) == old(
                    self,
                ).down_of(x),
    {
        self.ups.set(id, u);
        proof {
            assert forall|j2: int| 0 <= j2 < self.chain_len() implies #[trigger] self.link_ok(
                j2,
            ) by {
                assert(old(self).link_ok(j2));
            }
            assert forall|j1: int, j2: int| 0 <= j1 < j2 < self.chain_len() implies self.id_at(j1)
                != self.id_at(j2) by {
                assert(old(self).id_at(j1) != old(self).id_at(j2));
            }
            assert forall|j1: int, j2: int| 0 <= j1 <= j2 < self.chain_len() implies self.key_at(
                j1,
            ) <= self.key_at(j2) by {
                assert(old(self).key_at(j1) <= old(self).key_at(j2));
            }
            assert(self@ =~= old(self)@);
        }
    }
}

// ---------------------------------------------------------------------------
// Position bookkeeping for chains of distinct node ids.
// ---------------------------------------------------------------------------

/// No id occurs twice.
pub open spec fn distinct_seq(c: Seq<usize>) -> bool {
    forall|i: int, j: int| 0 <= i < j < c.len() ==> c[i] != c[j]
}

/// In a duplicate-free sequence the first occurrence of an element is its
/// only occurrence.
pub proof fn lemma_first_index_of_distinct(c: Seq<usize>, x: usize, i: int)
    requires
        distinct_seq(c),
        0 <= i < c.len(),
        c[i] == x,
    ensures
        c.index_of_first(x) == Some(i),
{
    c.index_of_first_ensures(x);
    assert(c.contains(x));
    let r = c.index_of_first(x)->Some_0;
    if r < i {
        assert(c[r] != c[i]);
    } else if i < r {
        assert(c[i] != x);
    }
}

/// Splicing a fresh id into a duplicate-free sequence keeps every other
/// element's position, shifted past the splice point, and puts the fresh id
/// at the splice point.
pub proof fn lemma_first_index_insert(c: Seq<usize>, p: int, y: usize)
    requires
        distinct_seq(c),
        0 <= p <= c.len(),
        !c.contains(y),
    ensures
        distinct_seq(c.insert(p, y)),
        c.insert(p, y).index_of_first(y) == Some(p),
        forall|x: usize|
            c.contains(x) ==> c.insert(p, y).index_of_first(x) == Some(
                ({
                    let q = c.index_of_first(x)->Some_0;
                    if q < p {
                        q
                    } else {
                        q + 1
                    }
                }),
            ),
{
    c.insert_ensures(p, y);
    let c2 = c.insert(p, y);
    assert forall|i: int, j: int| 0 <= i < j < c2.len() implies c2[i] != c2[j] by {
        if i != p && j != p {
            let o1: int = if i < p {
                i
            } else {
                i - 1
            };
            let o2: int = if j < p {
                j
            } else {
                j - 1
            };
            assert(c2[i] == c[o1] && c2[j] == c[o2]);
        } else if i == p {
            assert(c2[j] == c[j - 1] && c.contains(c[j - 1]));
        } else {
            assert(c2[i] == c[i] && c.contains(c[i]));
        }
    }
    lemma_first_index_of_distinct(c2, y, p);
    assert forall|x: usize| c.contains(x) implies c2.index_of_first(x) == Some(
        ({
            let q = c.index_of_first(x)->Some_0;
            if q < p {
                q
            } else {
                q + 1
            }
        }),
    ) by {
        c.index_of_first_ensures(x);
        let q = c.index_of_first(x)->Some_0;
        if q < p {
            assert(c2[q] == c[q]);
            lemma_first_index_of_distinct(c2, x, q);
        } else {
            assert(c2[q + 1] == c[q]);
            lemma_first_index_of_distinct(c2, x, q + 1);
        }
    }
}

/// Unlinking one id from a duplicate-free sequence keeps every other
/// element's position, shifted past the removal point.
pub proof fn lemma_first_index_remove(c: Seq<usize>, p: int)
    requires
        distinct_seq(c),
        0 <= p < c.len(),
    ensures
        distinct_seq(c.remove(p)),
        forall|x: usize|
            c.contains(x) && x != c[p] ==> c.remove(p).contains(x) && c.remove(p).index_of_first(x)
                == Some(
                ({
                    let q = c.index_of_first(x)->Some_0;
                    if q < p {
                        q
                    } else {
                        q - 1
                    }
                }),
            ),
{
    c.remove_ensures(p);
    let c2 = c.remove(p);
    assert forall|i: int, j: int| 0 <= i < j < c2.len() implies c2[i] != c2[j] by {
        let o1: int = if i < p {
            i
        } else {
            i + 1
        };
        let o2: int = if j < p {
            j
        } else {
            j + 1
        };
        assert(c2[i] == c[o1] && c2[j] == c[o2]);
    }
    assert forall|x: usize| c.contains(x) && x != c[p] implies c2.contains(x)
        && c2.index_of_first(x) == Some(
        ({
            let q = c.index_of_first(x)->Some_0;
            if q < p {
                q
            } else {
                q - 1
            }
        }),
    ) by {
        c.index_of_first_ensures(x);
        let q = c.index_of_first(x)->Some_0;
        if q < p {
            assert(c2[q] == c[q]);
            lemma_first_index_of_distinct(c2, x, q);
        } else {
            assert(q != p);
            assert(c2[q - 1] == c[q]);
            lemma_first_index_of_distinct(c2, x, q - 1);
        }
    }
}

/// `b` is `a` with at most the vertical up links rewired: same payloads in
/// the same slots, same chain, same down links.
pub open spec fn level_frame<V>(a: Level<V>, b: Level<V>) -> bool {
    &&& b.wf()
    &&& b@ == a@
    &&& b.chain() == a.chain()
    &&& b.arena_size() == a.arena_size()
    &&& forall|x: usize| (x as int) < a.arena_size() ==> #[trigger] b.key_of(x) == a.key_of(x)
    &&& forall|x: usize| (x as int) < a.arena_size() ==> #[trigger] b.val_of(x) == a.val_of(x)
    &&& forall|x: usize| (x as int) < a.arena_size() ==> #[trigger] b.down_of(x) == a.down_of(x)
}

/// Unlinking at one position and splicing back in at the same position is a
/// plain overwrite.
pub proof fn lemma_remove_insert_is_update<A>(s: Seq<A>, i: int, a: A)
    requires
        0 <= i < s.len(),
    ensures
        s.remove(i).insert(i, a) == s.update(i, a),
{
    s.remove_ensures(i);
    s.remove(i).insert_ensures(i, a);
    assert(s.remove(i).insert(i, a) =~= s.update(i, a));
}

// ---------------------------------------------------------------------------
// SkipList: the ordered container.
// ---------------------------------------------------------------------------

/// Cap on how far one insertion can promote a key. It bounds the promotion
/// loop; a fair coin reaches it with probability two to the minus
/// sixty-three, so in practice promotion always stops at the coin.
pub const MAX_HEIGHT: usize = 64;

/// The ordered container: a growable stack of levels. Level 0 holds every
/// entry; each higher level holds a probabilistic sample of the level below,
/// linked to it vertically, so that a search can descend from the sparse top
/// toward the dense base in expected logarithmic time.
pub struct SkipList<V> {
    size: usize,
    levels: Vec<Level<V>>,
}

impl<V> View for SkipList<V> {
    type V = Seq<(i64, V)>;

    /// The container's content: the enumeration of the base level.
    closed spec fn view(&self) -> Seq<(i64, V)> {
        self.levels@[0]@
    }
}

impl<V> SkipList<V> {
    pub closed spec fn num_levels(self) -> int {
        self.levels@.len() as int
    }

    pub closed spec fn level_at(self, lv: int) -> Level<V> {
        self.levels@[lv]
    }

    /// The vertical link of the `j`th chain node of level `lv` reaches a
    /// chain node of the level below carrying an equal key.
    pub open spec fn down_ok(self, lv: int, j: int) -> bool {
        &&& self.level_at(lv).down_of(self.level_at(lv).id_at(j)) matches Some(d)
        &&& self.level_at(lv - 1).on_chain(
            self.level_at(lv).down_of(self.level_at(lv).id_at(j))->Some_0,
        )
        &&& self.level_at(lv - 1).key_of(
            self.level_at(lv).down_of(self.level_at(lv).id_at(j))->Some_0,
        ) == self.level_at(lv).key_at(j)
    }

    /// Chain position, on the level below, of the vertical link of the `j`th
    /// chain node of level `lv`.
    pub open spec fn down_pos(self, lv: int, j: int) -> int {
        self.level_at(lv - 1).pos_of(
            self.level_at(lv).down_of(self.level_at(lv).id_at(j))->Some_0,
        )
    }

    /// Between neighbouring levels the vertical links preserve the chain
    /// order strictly: distinct nodes reach distinct targets, in order.
    pub open spec fn downs_ordered(self, lv: int) -> bool {
        forall|j1: int, j2: int|
            0 <= j1 < j2 < self.level_at(lv).chain_len() ==> #[trigger] self.down_pos(lv, j1)
                < #[trigger] self.down_pos(lv, j2)
    }

    /// The linked structure alone is well-formed: at least the base level
    /// exists, every level is a well-formed sorted chain, and every vertical
    /// link reaches the level below at an equal key, in chain order.
    pub closed spec fn links_wf(self) -> bool {
        &&& self.num_levels() >= 1
        &&& forall|lv: int| 0 <= lv < self.num_levels() ==> (#[trigger] self.level_at(lv)).wf()
        &&& forall|lv: int, j: int|
            1 <= lv < self.num_levels() && 0 <= j < self.level_at(lv).chain_len()
                ==> #[trigger] self.down_ok(lv, j)
        &&& forall|lv: int| 1 <= lv < self.num_levels() ==> #[trigger] self.downs_ordered(lv)
    }

    /// Well-formedness of the whole container: the linked structure is
    /// intact and the element count is the base level's.
    pub closed spec fn wf(self) -> bool {
        &&& self.links_wf()
        &&& self.size == self.level_at(0).chain_len()
    }

    /// The head key of every level agrees with the base level's smallest key
    /// downward, so a search from the top level can reach every present key.
    /// Insertions preserve this; deletions need not (a deletion removes the
    /// leftmost match on every level independently and never re-seeds a
    /// level's head), and after one a present key may become unreachable.
    pub open spec fn head_covered(self) -> bool {
        forall|lv: int|
            0 <= lv < self.num_levels() && self.level_at(0).chain_len() > 0 ==> (
            #[trigger] self.level_at(lv).chain_len() > 0 && self.level_at(lv).key_at(0)
                <= self.level_at(0).key_at(0))
    }

    /// Head promotion: whenever the base level is non-empty, every level is
    /// headed by the base level's head key, so the vertical head chain stays
    /// intact. Insertions preserve this; deletions need not.
    pub open spec fn heads_aligned(self) -> bool {
        forall|lv: int|
            0 <= lv < self.num_levels() && self.level_at(0).chain_len() > 0 ==> (
            #[trigger] self.level_at(lv).chain_len() > 0 && self.level_at(lv).key_at(0)
                == self.level_at(0).key_at(0))
    }

    /// A non-empty level forces a non-empty base level: its head's vertical
    /// links descend one level at a time.
    pub proof fn lemma_nonempty_reaches_base(self, lv: int)
        requires
            self.wf(),
            0 <= lv < self.num_levels(),
            self.level_at(lv).chain_len() > 0,
        ensures
            self.level_at(0).chain_len() > 0,
        decreases lv,
    {
        if lv > 0 {
            assert(self.down_ok(lv, 0));
            let d = self.level_at(lv).down_of(self.level_at(lv).id_at(0))->Some_0;
            assert(self.level_at(lv - 1).on_chain(d));
            let w = choose|i: int|
                0 <= i < self.level_at(lv - 1).chain().len() && #[trigger] self.level_at(
                    lv - 1,
                ).chain()[i] == d;
            assert(self.level_at(lv - 1).chain_len() > 0);
            self.lemma_nonempty_reaches_base(lv - 1);
        }
    }

    /// A search can reach the key: some key at the top level is at most it.
    pub open spec fn reachable(self, k: i64) -> bool {
        upper_bound(self.level_at(self.num_levels() - 1)@, k) > 0
    }

    /// Under head coverage every present key is reachable.
    pub proof fn lemma_covered_reachable(self, k: i64)
        requires
            self.wf(),
            self.head_covered(),
            has_key(self@, k),
        ensures
            self.reachable(k),
    {
        let s = self@;
        let w = choose|i: int| 0 <= i < s.len() && (#[trigger] s[i]).0 == k;
        assert(self.level_at(0).wf());
        assert(self.level_at(0).key_at(0) <= self.level_at(0).key_at(w));
        let top = self.num_levels() - 1;
        assert(self.level_at(top).chain_len() > 0 && self.level_at(top).key_at(0)
            <= self.level_at(0).key_at(0));
        let t = self.level_at(top)@;
        assert(t.len() > 0 && t[0].0 <= k);
        lemma_upper_bound(t.drop_first(), k);
        assert(upper_bound(t, k) == 1 + upper_bound(t.drop_first(), k));
    }

    /// An empty list with a single empty level.
    pub fn new() -> (l: SkipList<V>)
        ensures
            l.wf(),
            l@ == Seq::<(i64, V)>::empty(),
            l.head_covered(),
            l.heads_aligned(),
            l.num_levels() == 1,
            l.level_at(0).arena_size() == 0,
    {
        let mut levels: Vec<Level<V>> = Vec::new();
        levels.push(Level::new());
        let l = SkipList { size: 0, levels };
        l
    }

    /// Number of entries held.
    pub fn len(&self) -> (n: usize)
        requires
            self.wf(),
        ensures
            n == self@.len(),
    {
        self.size
    }

    /// The full sorted content: every key/value pair of the base level, in
    /// non-decreasing key order.
    pub fn collect(&self) -> (r: Vec<(i64, V)>) where V: Clone
        requires
            self.wf(),
        ensures
            r@.len() == self@.len(),
            forall|i: int|
                0 <= i < self@.len() ==> (#[trigger] r@[i]).0 == self@[i].0 && cloned(
                    self@[i].1,
                    r@[i].1,
                ),
    {
        proof {
            assert(self.level_at(0).wf());
        }
        let ids = self.levels[0].iter();
        let mut r: Vec<(i64, V)> = Vec::new();
        let mut i: usize = 0;
        while i < ids.len()
            invariant
                self.wf(),
                ids@ == self.level_at(0).chain(),
                0 <= i <= ids.len(),
                r@.len() == i,
                forall|x: int|
                    0 <= x < i ==> (#[trigger] r@[x]).0 == self@[x].0 && cloned(
                        self@[x].1,
                        r@[x].1,
                    ),
            decreases ids.len() - i,
        {
            proof {
                assert(self.level_at(0).link_ok(i as int));
            }
            let id = ids[i];
            let k = self.levels[0].key(id);
            let v = self.levels[0].value(id).clone();
            r.push((k, v));
            i = i + 1;
        }
        r
    }

    /// Nearest key at or below the probe: the key of the rightmost entry
    /// whose key is at most the probe, absent when every key exceeds it.
    /// Exposed for callers that need an insertion point without inserting.
    pub fn bisect(&self, key: &i64) -> (r: Option<i64>)
        requires
            self.wf(),
        ensures
            r == (if upper_bound(self@, *key) == 0 {
                None::<i64>
            } else {
                Some(self@[upper_bound(self@, *key) - 1].0)
            }),
    {
        proof {
            assert(self.level_at(0).wf());
            lemma_upper_bound(self@, *key);
        }
        let maybe = self.levels[0].bisect(key);
        match maybe {
            Some(id) => {
                proof {
                    assert(self.level_at(0).link_ok(upper_bound(self@, *key) - 1));
                }
                Some(self.levels[0].key(id))
            },
            None => None,
        }
    }

    /// Insert the pair into level `c` of the stack and wire it vertically to
    /// `prev`, the node the same insertion created on the level below — the
    /// rightmost node there whose key is at most the new key. The base level,
    /// and hence the enumeration, is untouched.
    #[verifier::rlimit(100)]
    fn promote(&mut self, c: usize, key: i64, value: V, prev: usize) -> (nid: usize)
        requires
            old(self).wf(),
            1 <= c < old(self).num_levels(),
            old(self).level_at(c as int).arena_size() < usize::MAX as int,
            old(self).level_at(c - 1).on_chain(prev),
            old(self).level_at(c - 1).key_of(prev) == key,
            old(self).level_at(c - 1).pos_of(prev) == upper_bound(
                old(self).level_at(c - 1)@,
                key,
            ) - 1,
            forall|j: int|
                0 <= j < old(self).level_at(c as int).chain_len() ==> #[trigger] old(
                    self,
                ).level_at(c as int).down_of(old(self).level_at(c as int).id_at(j)) != Some(prev),
        ensures
            final(self).wf(),
            final(self)@ == old(self)@,
            final(self).num_levels() == old(self).num_levels(),
            final(self).size == old(self).size,
            nid as int == old(self).level_at(c as int).arena_size(),
            final(self).level_at(c as int)@ == spec_insert(
                old(self).level_at(c as int)@,
                key,
                value,
            ),
            final(self).level_at(c as int).on_chain(nid),
            final(self).level_at(c as int).key_of(nid) == key,
            final(self).level_at(c as int).down_of(nid) == Some(prev),
            final(self).level_at(c as int).up_of(nid) == None::<usize>,
            final(self).level_at(c - 1).up_of(prev) == Some(nid),
            final(self).level_at(c as int).pos_of(nid) == upper_bound(
                final(self).level_at(c as int)@,
                key,
            ) - 1,
            final(self).level_at(c as int).arena_size() == old(self).level_at(
                c as int,
            ).arena_size() + 1,
            forall|lv: int|
                0 <= lv < old(self).num_levels() && lv != c && lv != c - 1
                    ==> #[trigger] final(self).level_at(lv) == old(self).level_at(lv),
            level_frame(old(self).level_at(c - 1), final(self).level_at(c - 1)),
            final(self).level_at(c as int).chain_len() > 0,
            final(self).level_at(c as int).key_at(0) == (if old(self).level_at(
                c as int,
            ).chain_len() == 0 {
                key
            } else if key < old(self).level_at(c as int).key_at(0) {
                key
            } else {
                old(self).level_at(c as int).key_at(0)
            }),
    {
        let ghost n = old(self).num_levels();
        let ghost lc0 = old(self).level_at(c as int);
        let ghost lb0 = old(self).level_at(c - 1);
        let ghost sc0 = lc0@;
        let ghost ubc = upper_bound(sc0, key);
        let ghost ubb = upper_bound(lb0@, key);
        proof {
            assert(lc0.wf());
            assert(lb0.wf());
            assert(sorted_by_key(sc0)) by {
                assert forall|i: int, j: int| 0 <= i <= j < sc0.len() implies (
                #[trigger] sc0[i]).0 <= (#[trigger] sc0[j]).0 by {
                    assert(lc0.key_at(i) <= lc0.key_at(j));
                }
            }
            assert(sorted_by_key(lb0@)) by {
                assert forall|i: int, j: int| 0 <= i <= j < lb0@.len() implies (
                #[trigger] lb0@[i]).0 <= (#[trigger] lb0@[j]).0 by {
                    assert(lb0.key_at(i) <= lb0.key_at(j));
                }
            }
            lemma_upper_bound(sc0, key);
            lemma_upper_bound(lb0@, key);
            lb0.lemma_on_chain_bound(prev);
            lb0.lemma_pos_of(prev);
            lc0.lemma_chain_distinct();
            assert forall|i: int| 0 <= i < lc0.chain().len() implies lc0.chain()[i]
                != (lc0.arena_size() as usize) by {
                assert(lc0.link_ok(i));
            }
            assert(!lc0.chain().contains(lc0.arena_size() as usize));
        }
        let ghost g0 = self.levels@;
        let mut lvl = self.levels.remove(c);
        let nid = lvl.insert(key, value);
        lvl.set_down(nid, Some(prev));
        proof {
            g0.remove_ensures(c as int);
        }
        self.levels.insert(c, lvl);
        let ghost lc1 = self.levels@[c as int];
        let ghost g1 = self.levels@;
        proof {
            g0.remove(c as int).insert_ensures(c as int, lc1);
            assert(g1 =~= g0.update(c as int, lc1));
        }
        let mut below = self.levels.remove(c - 1);
        below.set_up(prev, Some(nid));
        proof {
            g1.remove_ensures(c - 1);
        }
        self.levels.insert(c - 1, below);
        let ghost lb1 = self.levels@[c - 1];
        proof {
            g1.remove(c - 1).insert_ensures(c - 1, lb1);
            assert(self.levels@ =~= g1.update(c - 1, lb1));
            assert(self.num_levels() == n);
            assert forall|lv: int| 0 <= lv < n && lv != c && lv != c - 1 implies self.level_at(lv)
                == old(self).level_at(lv) by {}
            assert(level_frame(lb0, lb1));
            // the spliced chain of level c, and where its nodes now sit
            let cc0 = lc0.chain();
            let cc1 = lc1.chain();
            assert(cc1 == cc0.insert(ubc, nid));
            cc0.insert_ensures(ubc, nid);
            lemma_first_index_insert(cc0, ubc, nid);
            lc1.lemma_chain_distinct();
            // the upper bound of `key` moved one past the new node
            assert(upper_bound(lc1@, key) == ubc + 1) by {
                sc0.insert_ensures(ubc, (key, value));
                assert forall|i: int| 0 <= i < ubc + 1 implies (#[trigger] lc1@[i]).0 <= key by {
                    if i < ubc {
                        assert(lc1@[i] == sc0[i]);
                    }
                }
                if ubc + 1 < lc1@.len() {
                    assert(lc1@[ubc + 1] == sc0[ubc]);
                }
                lemma_upper_bound_is(lc1@, key, ubc + 1);
            }
            assert(lc1.pos_of(nid) == ubc);
            // every level is still well-formed
            assert forall|lv: int| 0 <= lv < n implies (#[trigger] self.level_at(lv)).wf() by {
                if lv != c && lv != c - 1 {
                    assert(old(self).level_at(lv).wf());
                }
            }
            // vertical links still land one level down on an equal key
            assert forall|lv: int, j: int|
                1 <= lv < n && 0 <= j < self.level_at(lv).chain_len() implies #[trigger] self
                .down_ok(lv, j) by {
                if lv == c {
                    if j == ubc {
                        assert(lc1.down_of(nid) == Some(prev));
                        assert(lb1.chain() == lb0.chain());
                        assert(lb1.key_of(prev) == key);
                        assert(lc1.key_at(j) == key);
                    } else {
                        let o: int = if j < ubc {
                            j
                        } else {
                            j - 1
                        };
                        assert(old(self).down_ok(lv, o));
                        assert(lc0.link_ok(o));
                        let d = lc0.down_of(lc0.id_at(o))->Some_0;
                        lb0.lemma_on_chain_bound(d);
                        assert(lc1.id_at(j) == lc0.id_at(o));
                        assert(lc1.down_of(lc1.id_at(j)) == lc0.down_of(lc0.id_at(o)));
                        assert(lb1.key_of(d) == lb0.key_of(d));
                        assert(lc1.key_at(j) == lc0.key_at(o));
                    }
                } else if lv == c as int + 1 {
                    assert(old(self).down_ok(lv, j));
                    assert(self.level_at(lv) == old(self).level_at(lv));
                    let up = self.level_at(lv);
                    assert(up.link_ok(j));
                    let d = up.down_of(up.id_at(j))->Some_0;
                    lc0.lemma_pos_of(d);
                    let q = lc0.pos_of(d);
                    if q < ubc {
                        assert(cc1[q] == cc0[q]);
                    } else {
                        assert(cc1[q + 1] == cc0[q]);
                    }
                    assert(lc1.on_chain(d));
                    lc0.lemma_on_chain_bound(d);
                    assert(lc1.key_of(d) == lc0.key_of(d));
                } else {
                    assert(old(self).down_ok(lv, j));
                    let up0 = old(self).level_at(lv);
                    let lo0 = old(self).level_at(lv - 1);
                    let up1 = self.level_at(lv);
                    let lo1 = self.level_at(lv - 1);
                    assert(up0.link_ok(j));
                    let d = up0.down_of(up0.id_at(j))->Some_0;
                    lo0.lemma_on_chain_bound(d);
                    assert(up1.chain() == up0.chain());
                    assert(up1.down_of(up1.id_at(j)) == up0.down_of(up0.id_at(j)));
                    assert(lo1.chain() == lo0.chain());
                    assert(lo1.key_of(d) == lo0.key_of(d));
                    assert(up1.key_at(j) == up0.key_at(j));
                }
            }
            // and they still land in chain order
            assert forall|lv: int| 1 <= lv < n implies #[trigger] self.downs_ordered(lv) by {
                if lv == c {
                    assert forall|j1: int, j2: int|
                        0 <= j1 < j2 < self.level_at(lv).chain_len() implies #[trigger] self
                        .down_pos(lv, j1) < #[trigger] self.down_pos(lv, j2) by {
                        let o1: int = if j1 < ubc {
                            j1
                        } else {
                            j1 - 1
                        };
                        let o2: int = if j2 < ubc {
                            j2
                        } else {
                            j2 - 1
                        };
                        if j1 != ubc && j2 != ubc {
                            assert(old(self).downs_ordered(lv));
                            assert(old(self).down_pos(lv, o1) < old(self).down_pos(lv, o2));
                            assert(lc1.id_at(j1) == lc0.id_at(o1));
                            assert(lc1.id_at(j2) == lc0.id_at(o2));
                            assert(lc0.link_ok(o1));
                            assert(lc0.link_ok(o2));
                            assert(self.down_pos(lv, j1) == old(self).down_pos(lv, o1));
                            assert(self.down_pos(lv, j2) == old(self).down_pos(lv, o2));
                        } else if j1 == ubc {
                            // the fresh node against an older, larger-keyed one
                            assert(old(self).down_ok(lv, o2));
                            assert(lc0.link_ok(o2));
                            let d2 = lc0.down_of(lc0.id_at(o2))->Some_0;
                            lb0.lemma_pos_of(d2);
                            let q2 = lb0.pos_of(d2);
                            assert(lc0.key_at(o2) == sc0[o2].0);
                            assert(sc0[o2].0 > key);
                            assert(lb0.key_of(d2) > key);
                            if q2 < ubb {
                                assert(lb0@[q2].0 <= key);
                            }
                            assert(q2 >= ubb);
                            assert(self.down_pos(lv, j1) == ubb - 1);
                            assert(self.down_pos(lv, j2) == q2);
                        } else {
                            // an older, at-most-`key` node against the fresh one
                            assert(old(self).down_ok(lv, o1));
                            assert(lc0.link_ok(o1));
                            let d1 = lc0.down_of(lc0.id_at(o1))->Some_0;
                            lb0.lemma_pos_of(d1);
                            let q1 = lb0.pos_of(d1);
                            assert(lc0.key_at(o1) == sc0[o1].0);
                            assert(sc0[o1].0 <= key);
                            assert(lb0.key_of(d1) <= key);
                            if q1 >= ubb {
                                assert(lb0@[q1].0 > key);
                            }
                            assert(q1 < ubb);
                            assert(d1 != prev);
                            if q1 == ubb - 1 {
                                assert(lb0.id_at(q1) == d1 && lb0.id_at(ubb - 1) == prev);
                            }
                            assert(q1 < ubb - 1);
                            assert(self.down_pos(lv, j1) == q1);
                            assert(self.down_pos(lv, j2) == ubb - 1);
                        }
                    }
                } else if lv == c as int + 1 {
                    assert forall|j1: int, j2: int|
                        0 <= j1 < j2 < self.level_at(lv).chain_len() implies #[trigger] self
                        .down_pos(lv, j1) < #[trigger] self.down_pos(lv, j2) by {
                        assert(old(self).downs_ordered(lv));
                        assert(old(self).down_pos(lv, j1) < old(self).down_pos(lv, j2));
                        assert(old(self).down_ok(lv, j1));
                        assert(old(self).down_ok(lv, j2));
                        let up = self.level_at(lv);
                        assert(up == old(self).level_at(lv));
                        let d1 = up.down_of(up.id_at(j1))->Some_0;
                        let d2 = up.down_of(up.id_at(j2))->Some_0;
                        lc0.lemma_pos_of(d1);
                        lc0.lemma_pos_of(d2);
                        let q1 = lc0.pos_of(d1);
                        let q2 = lc0.pos_of(d2);
                        assert(lc1.chain().index_of_first(d1) == Some(
                            if q1 < ubc {
                                q1
                            } else {
                                q1 + 1
                            },
                        ));
                        assert(lc1.chain().index_of_first(d2) == Some(
                            if q2 < ubc {
                                q2
                            } else {
                                q2 + 1
                            },
                        ));
                    }
                } else {
                    assert forall|j1: int, j2: int|
                        0 <= j1 < j2 < self.level_at(lv).chain_len() implies #[trigger] self
                        .down_pos(lv, j1) < #[trigger] self.down_pos(lv, j2) by {
                        assert(old(self).downs_ordered(lv));
                        assert(old(self).down_pos(lv, j1) < old(self).down_pos(lv, j2));
                        let up0 = old(self).level_at(lv);
                        let up1 = self.level_at(lv);
                        assert(up1.chain() == up0.chain());
                        assert(up0.link_ok(j1));
                        assert(up0.link_ok(j2));
                        assert(up1.down_of(up1.id_at(j1)) == up0.down_of(up0.id_at(j1)));
                        assert(up1.down_of(up1.id_at(j2)) == up0.down_of(up0.id_at(j2)));
                        assert(self.level_at(lv - 1).chain() == old(self).level_at(lv - 1).chain());
                    }
                }
            }
            assert(self.wf());
            assert(self@ == old(self)@);
            // the head of level c
            sc0.insert_ensures(ubc, (key, value));
            if ubc == 0 {
                assert(lc1@[0] == (key, value));
            } else {
                assert(lc1@[0] == sc0[0]);
                assert(sc0[0].0 <= key);
            }
        }
        nid
    }

    /// Relies on rand::random::<bool>: a fair coin toss deciding whether a
    /// key is promoted one level up; nothing is promised of the outcome.
    #[verifier::external_body]
    fn flip_coin(&self) -> bool {
        rand::random::<bool>()
    }

    /// Insert the pair into the base level and count it. Higher levels are
    /// untouched; the fresh node becomes the rightmost node of the base
    /// level whose key is at most the new key.
    #[verifier::rlimit(100)]
    fn insert_base(&mut self, key: i64, value: V) -> (nid: usize)
        requires
            old(self).wf(),
            old(self).level_at(0).arena_size() < usize::MAX as int,
        ensures
            final(self).wf(),
            final(self)@ == spec_insert(old(self)@, key, value),
            final(self).size == old(self).size + 1,
            final(self).num_levels() == old(self).num_levels(),
            nid as int == old(self).level_at(0).arena_size(),
            final(self).level_at(0).arena_size() == old(self).level_at(0).arena_size() + 1,
            final(self).level_at(0).on_chain(nid),
            final(self).level_at(0).key_of(nid) == key,
            final(self).level_at(0).pos_of(nid) == upper_bound(final(self)@, key) - 1,
            forall|lv: int|
                1 <= lv < old(self).num_levels() ==> #[trigger] final(self).level_at(lv) == old(
                    self,
                ).level_at(lv),
    {
        let ghost l00 = old(self).level_at(0);
        let ghost s00 = l00@;
        let ghost ub0 = upper_bound(s00, key);
        proof {
            assert(l00.wf());
            assert(sorted_by_key(s00)) by {
                assert forall|i: int, j: int| 0 <= i <= j < s00.len() implies (
                #[trigger] s00[i]).0 <= (#[trigger] s00[j]).0 by {
                    assert(l00.key_at(i) <= l00.key_at(j));
                }
            }
            lemma_upper_bound(s00, key);
            l00.lemma_chain_distinct();
            assert forall|i: int| 0 <= i < l00.chain().len() implies l00.chain()[i]
                != (l00.arena_size() as usize) by {
                assert(l00.link_ok(i));
            }
            assert(!l00.chain().contains(l00.arena_size() as usize));
        }
        let ghost g0 = self.levels@;
        let mut l0 = self.levels.remove(0);
        let nid = l0.insert(key, value);
        proof {
            g0.remove_ensures(0);
        }
        self.levels.insert(0, l0);
        let ghost l01 = self.levels@[0];
        proof {
            lemma_remove_insert_is_update(g0, 0, l01);
        }
        self.size = self.size + 1;
        proof {
            let cc0 = l00.chain();
            let cc1 = l01.chain();
            assert(cc1 == cc0.insert(ub0, nid));
            cc0.insert_ensures(ub0, nid);
            lemma_first_index_insert(cc0, ub0, nid);
            l01.lemma_chain_distinct();
            assert(upper_bound(l01@, key) == ub0 + 1) by {
                s00.insert_ensures(ub0, (key, value));
                assert forall|i: int| 0 <= i < ub0 + 1 implies (#[trigger] l01@[i]).0 <= key by {
                    if i < ub0 {
                        assert(l01@[i] == s00[i]);
                    }
                }
                if ub0 + 1 < l01@.len() {
                    assert(l01@[ub0 + 1] == s00[ub0]);
                }
                lemma_upper_bound_is(l01@, key, ub0 + 1);
            }
            assert(l01.pos_of(nid) == ub0);
            let ghost n = old(self).num_levels();
            assert forall|lv: int| 1 <= lv < n implies #[trigger] self.level_at(lv) == old(
                self,
            ).level_at(lv) by {}
            assert forall|lv: int| 0 <= lv < n implies (#[trigger] self.level_at(lv)).wf() by {
                if lv >= 1 {
                    assert(old(self).level_at(lv).wf());
                }
            }
            assert forall|lv: int, j: int|
                1 <= lv < n && 0 <= j < self.level_at(lv).chain_len() implies #[trigger] self
                .down_ok(lv, j) by {
                assert(old(self).down_ok(lv, j));
                if lv == 1 {
                    let up = self.level_at(1);
                    assert(up.link_ok(j));
                    let d = up.down_of(up.id_at(j))->Some_0;
                    l00.lemma_pos_of(d);
                    let q = l00.pos_of(d);
                    if q < ub0 {
                        assert(cc1[q] == cc0[q]);
                    } else {
                        assert(cc1[q + 1] == cc0[q]);
                    }
                    assert(l01.on_chain(d));
                    l00.lemma_on_chain_bound(d);
                    assert(l01.key_of(d) == l00.key_of(d));
                }
            }
            assert forall|lv: int| 1 <= lv < n implies #[trigger] self.downs_ordered(lv) by {
                if lv == 1 {
                    assert forall|j1: int, j2: int|
                        0 <= j1 < j2 < self.level_at(lv).chain_len() implies #[trigger] self
                        .down_pos(lv, j1) < #[trigger] self.down_pos(lv, j2) by {
                        assert(old(self).downs_ordered(lv));
                        assert(old(self).down_pos(lv, j1) < old(self).down_pos(lv, j2));
                        assert(old(self).down_ok(lv, j1));
                        assert(old(self).down_ok(lv, j2));
                        let up = self.level_at(1);
                        let d1 = up.down_of(up.id_at(j1))->Some_0;
                        let d2 = up.down_of(up.id_at(j2))->Some_0;
                        l00.lemma_pos_of(d1);
                        l00.lemma_pos_of(d2);
                        let q1 = l00.pos_of(d1);
                        let q2 = l00.pos_of(d2);
                        assert(cc1.index_of_first(d1) == Some(
                            if q1 < ub0 {
                                q1
                            } else {
                                q1 + 1
                            },
                        ));
                        assert(cc1.index_of_first(d2) == Some(
                            if q2 < ub0 {
                                q2
                            } else {
                                q2 + 1
                            },
                        ));
                    }
                } else {
                    assert(old(self).downs_ordered(lv));
                    assert forall|j1: int, j2: int|
                        0 <= j1 < j2 < self.level_at(lv).chain_len() implies #[trigger] self
                        .down_pos(lv, j1) < #[trigger] self.down_pos(lv, j2) by {
                        assert(old(self).down_pos(lv, j1) < old(self).down_pos(lv, j2));
                    }
                }
            }
            assert(self.wf());
        }
        nid
    }

    /// Create one new top level, seeded with a copy of the current top
    /// level's head entry and linked to it vertically, so every level's head
    /// chain is vertically connected from creation. A level is never removed
    /// once created, even when later deletions empty it.
    #[verifier::rlimit(100)]
    fn add_level(&mut self) -> (nid: usize) where V: Clone
        requires
            old(self).wf(),
            old(self).level_at(old(self).num_levels() - 1).chain_len() > 0,
        ensures
            final(self).wf(),
            final(self)@ == old(self)@,
            final(self).size == old(self).size,
            final(self).num_levels() == old(self).num_levels() + 1,
            forall|lv: int|
                0 <= lv < old(self).num_levels() - 1 ==> #[trigger] final(self).level_at(lv)
                    == old(self).level_at(lv),
            level_frame(
                old(self).level_at(old(self).num_levels() - 1),
                final(self).level_at(old(self).num_levels() - 1),
            ),
            final(self).level_at(old(self).num_levels()).chain_len() == 1,
            final(self).level_at(old(self).num_levels()).arena_size() == 1,
            final(self).level_at(old(self).num_levels()).id_at(0) == nid,
            final(self).level_at(old(self).num_levels()).on_chain(nid),
            final(self).level_at(old(self).num_levels()).key_of(nid) == old(self).level_at(
                old(self).num_levels() - 1,
            ).key_at(0),
            final(self).level_at(old(self).num_levels()).key_at(0) == old(self).level_at(
                old(self).num_levels() - 1,
            ).key_at(0),
            final(self).level_at(old(self).num_levels()).down_of(nid) == Some(
                old(self).level_at(old(self).num_levels() - 1).id_at(0),
            ),
            final(self).level_at(old(self).num_levels()).pos_of(nid) == 0,
            cloned(
                old(self).level_at(old(self).num_levels() - 1).val_of(
                    old(self).level_at(old(self).num_levels() - 1).id_at(0),
                ),
                final(self).level_at(old(self).num_levels()).val_of(nid),
            ),
            final(self).level_at(old(self).num_levels() - 1).up_of(
                old(self).level_at(old(self).num_levels() - 1).id_at(0),
            ) == Some(nid),
    {
        let n = self.levels.len();
        let ghost lt0 = old(self).level_at(n - 1);
        proof {
            assert(lt0.wf());
            assert(lt0.link_ok(0));
        }
        let h = match self.levels[n - 1].head {
            Some(h) => h,
            None => {
                proof {
                    assert(false);
                }
                0
            },
        };
        let k = self.levels[n - 1].key(h);
        let v = self.levels[n - 1].value(h).clone();
        let mut new_level: Level<V> = Level::new();
        let nid = new_level.insert(k, v);
        new_level.set_down(nid, Some(h));
        let ghost g0 = self.levels@;
        let mut top = self.levels.remove(n - 1);
        top.set_up(h, Some(nid));
        proof {
            g0.remove_ensures(n - 1);
        }
        self.levels.insert(n - 1, top);
        let ghost lt1 = self.levels@[n - 1];
        proof {
            lemma_remove_insert_is_update(g0, n - 1, lt1);
        }
        self.levels.push(new_level);
        let ghost lnew = self.levels@[n as int];
        proof {
            assert(level_frame(lt0, lt1));
            assert(lnew.chain() == Seq::<usize>::empty().insert(0, nid));
            Seq::<usize>::empty().insert_ensures(0, nid);
            assert(lnew.chain() =~= seq![nid]);
            lemma_first_index_of_distinct(lnew.chain(), nid, 0);
            assert(lnew.on_chain(nid));
            assert(lnew@ == Seq::<(i64, V)>::empty().insert(0, (k, v)));
            Seq::<(i64, V)>::empty().insert_ensures(0, (k, v));
            assert(lnew.key_at(0) == k);
            let ghost nl = self.num_levels();
            assert(nl == n + 1);
            assert forall|lv: int| 0 <= lv < n - 1 implies #[trigger] self.level_at(lv) == old(
                self,
            ).level_at(lv) by {}
            assert forall|lv: int| 0 <= lv < nl implies (#[trigger] self.level_at(lv)).wf() by {
                if lv < n - 1 {
                    assert(old(self).level_at(lv).wf());
                }
            }
            assert forall|lv: int, j: int|
                1 <= lv < nl && 0 <= j < self.level_at(lv).chain_len() implies #[trigger] self
                .down_ok(lv, j) by {
                if lv == n as int {
                    assert(j == 0);
                    assert(self.level_at(lv).id_at(0) == nid);
                    assert(lnew.down_of(nid) == Some(lt0.id_at(0)));
                    assert(lt1.chain() == lt0.chain());
                    assert(lt0.link_ok(0));
                    assert(lt1.key_of(lt0.id_at(0)) == lt0.key_of(lt0.id_at(0)));
                    assert(lnew.key_at(0) == k);
                } else {
                    assert(old(self).down_ok(lv, j));
                    let up0 = old(self).level_at(lv);
                    let lo0 = old(self).level_at(lv - 1);
                    let up1 = self.level_at(lv);
                    let lo1 = self.level_at(lv - 1);
                    assert(up0.link_ok(j));
                    let d = up0.down_of(up0.id_at(j))->Some_0;
                    lo0.lemma_on_chain_bound(d);
                    assert(up1.chain() == up0.chain());
                    assert(up1.down_of(up1.id_at(j)) == up0.down_of(up0.id_at(j)));
                    assert(lo1.chain() == lo0.chain());
                    assert(lo1.key_of(d) == lo0.key_of(d));
                    assert(up1.key_at(j) == up0.key_at(j));
                }
            }
            assert forall|lv: int| 1 <= lv < nl implies #[trigger] self.downs_ordered(lv) by {
                if lv == n as int {
                    assert(self.level_at(lv).chain_len() == 1);
                } else {
                    assert(old(self).downs_ordered(lv));
                    assert forall|j1: int, j2: int|
                        0 <= j1 < j2 < self.level_at(lv).chain_len() implies #[trigger] self
                        .down_pos(lv, j1) < #[trigger] self.down_pos(lv, j2) by {
                        assert(old(self).down_pos(lv, j1) < old(self).down_pos(lv, j2));
                        let up0 = old(self).level_at(lv);
                        let up1 = self.level_at(lv);
                        assert(up1.chain() == up0.chain());
                        assert(up0.link_ok(j1));
                        assert(up0.link_ok(j2));
                        assert(up1.down_of(up1.id_at(j1)) == up0.down_of(up0.id_at(j1)));
                        assert(up1.down_of(up1.id_at(j2)) == up0.down_of(up0.id_at(j2)));
                        assert(self.level_at(lv - 1).chain() == old(self).level_at(lv - 1).chain());
                    }
                }
            }
            assert(self.wf());
            assert(self@ == old(self)@);
        }
        nid
    }

    /// Insert one key/value pair. The pair lands in the base level after
    /// every entry whose key is at most the new key, so equal keys keep
    /// insertion order. When the new key ties or beats the base level's head
    /// key it is propagated to every level, keeping the vertical head chain
    /// intact; otherwise a fair coin decides, level by level, how far up the
    /// key is promoted, creating levels on demand. Promotion is capped at a
    /// fixed height, which bounds the loop; a fair coin reaches the cap with
    /// probability two to the minus sixty-three.
    #[verifier::rlimit(100)]
    pub fn insert(&mut self, key: i64, value: V) where V: Clone
        requires
            old(self).wf(),
            forall|lv: int|
                0 <= lv < old(self).num_levels() ==> (#[trigger] old(self).level_at(
                    lv,
                )).arena_size() < usize::MAX as int,
        ensures
            final(self).wf(),
            final(self)@ == spec_insert(old(self)@, key, value),
            old(self).head_covered() ==> final(self).head_covered(),
            old(self).heads_aligned() ==> final(self).heads_aligned(),
            final(self).num_levels() >= old(self).num_levels(),
            forall|lv: int|
                0 <= lv < old(self).num_levels() ==> #[trigger] final(self).level_at(
                    lv,
                ).arena_size() <= old(self).level_at(lv).arena_size() + 1,
            forall|lv: int|
                old(self).num_levels() <= lv < final(self).num_levels()
                    ==> #[trigger] final(self).level_at(lv).arena_size() <= 2,
            final(self)@.len() == old(self)@.len() + 1,
    {
        let ghost s00 = self@;
        let nid0 = self.insert_base(key, value);
        proof {
            assert(self.level_at(0).wf());
            assert(self.level_at(0).chain_len() > 0);
            assert(self.level_at(0).link_ok(0));
            self.level_at(0).lemma_pos_of(nid0);
            assert(self.level_at(0).key_at(0) <= self.level_at(0).key_at(
                self.level_at(0).pos_of(nid0),
            ));
        }
        let h = match self.levels[0].head {
            Some(h) => h,
            None => {
                proof {
                    assert(false);
                }
                0
            },
        };
        let hk = self.levels[0].key(h);
        proof {
            assert(hk == self.level_at(0).key_at(0));
        }
        if hk == key {
            // The new key ties or beats the base head: put it at every level.
            let ghost n = self.num_levels();
            let mut counter: usize = 1;
            let mut prev: usize = nid0;
            proof {
                lemma_upper_bound(s00, key);
                if s00.len() > 0 {
                    s00.insert_ensures(upper_bound(s00, key), (key, value));
                    if upper_bound(s00, key) > 0 {
                        assert(self@[0] == s00[0]);
                    }
                    assert(s00[0].0 >= key);
                }
            }
            while counter < self.levels.len()
                invariant
                    old(self).wf(),
                    s00 == old(self)@,
                    forall|lv: int|
                        0 <= lv < n ==> (#[trigger] old(self).level_at(lv)).arena_size()
                            < usize::MAX as int,
                    self.wf(),
                    1 <= counter <= n,
                    n == self.num_levels(),
                    self.num_levels() == old(self).num_levels(),
                    self@ == spec_insert(s00, key, value),
                    self.level_at(0).chain_len() > 0,
                    self.level_at(0).key_at(0) == key,
                    forall|lv: int|
                        counter <= lv < n ==> #[trigger] self.level_at(lv) == old(self).level_at(
                            lv,
                        ),
                    forall|lv: int|
                        1 <= lv < counter ==> (#[trigger] self.level_at(lv)).chain_len() > 0
                            && self.level_at(lv).key_at(0) <= key,
                    self.level_at(0).arena_size() == old(self).level_at(0).arena_size() + 1,
                    forall|lv: int|
                        1 <= lv < counter ==> #[trigger] self.level_at(lv).arena_size() == old(
                            self,
                        ).level_at(lv).arena_size() + 1,
                    s00.len() == 0 || s00[0].0 >= key,
                    old(self).heads_aligned() ==> (forall|lv: int|
                        1 <= lv < counter ==> #[trigger] self.level_at(lv).chain_len() > 0
                            && self.level_at(lv).key_at(0) == key),
                    self.level_at(counter - 1).on_chain(prev),
                    self.level_at(counter - 1).key_of(prev) == key,
                    self.level_at(counter - 1).pos_of(prev) == upper_bound(
                        self.level_at(counter - 1)@,
                        key,
                    ) - 1,
                    prev as int == old(self).level_at(counter - 1).arena_size(),
                decreases n - counter,
            {
                proof {
                    assert(self.level_at(counter as int) == old(self).level_at(counter as int));
                    assert forall|j: int|
                        0 <= j < self.level_at(counter as int).chain_len() implies #[trigger] self
                        .level_at(counter as int).down_of(
                        self.level_at(counter as int).id_at(j),
                    ) != Some(prev) by {
                        assert(old(self).down_ok(counter as int, j));
                        let d = old(self).level_at(counter as int).down_of(
                            old(self).level_at(counter as int).id_at(j),
                        )->Some_0;
                        old(self).level_at(counter - 1).lemma_on_chain_bound(d);
                    }
                    self.level_at(counter - 1).lemma_on_chain_bound(prev);
                }
                let vc = self.levels[counter - 1].value(prev).clone();
                let ghost pre2 = *self;
                let nid = self.promote(counter, key, vc, prev);
                proof {
                    if old(self).heads_aligned() {
                        if s00.len() > 0 {
                            assert(old(self).level_at(0).chain_len() > 0);
                            assert(old(self).level_at(counter as int).chain_len() > 0
                                && old(self).level_at(counter as int).key_at(0) == old(
                                self,
                            ).level_at(0).key_at(0));
                            assert(old(self).level_at(0).key_at(0) == s00[0].0);
                            assert(pre2.level_at(counter as int).key_at(0) >= key);
                        } else {
                            if old(self).level_at(counter as int).chain_len() > 0 {
                                old(self).lemma_nonempty_reaches_base(counter as int);
                                assert(false);
                            }
                        }
                        assert(self.level_at(counter as int).chain_len() > 0 && self.level_at(
                            counter as int,
                        ).key_at(0) == key);
                        assert forall|lv: int| 1 <= lv < counter + 1 implies #[trigger] self
                            .level_at(lv).chain_len() > 0 && self.level_at(lv).key_at(0)
                            == key by {
                            if lv < counter && lv != counter - 1 {
                                assert(self.level_at(lv) == pre2.level_at(lv));
                            } else if lv == counter - 1 && lv >= 1 {
                                assert(level_frame(pre2.level_at(lv), self.level_at(lv)));
                                assert(pre2.level_at(lv).link_ok(0));
                                assert(self.level_at(lv).key_at(0) == pre2.level_at(lv).key_at(0));
                            }
                        }
                    }
                }
                prev = nid;
                counter = counter + 1;
            }
            proof {
                assert forall|lv: int|
                    0 <= lv < self.num_levels() && self.level_at(0).chain_len() > 0 implies (
                #[trigger] self.level_at(lv).chain_len() > 0 && self.level_at(lv).key_at(0)
                    <= self.level_at(0).key_at(0)) by {
                    if lv >= 1 {
                        assert(self.level_at(lv).chain_len() > 0 && self.level_at(lv).key_at(0)
                            <= key);
                    }
                }
                assert(self.head_covered());
                if old(self).heads_aligned() {
                    assert forall|lv: int|
                        0 <= lv < self.num_levels() && self.level_at(0).chain_len() > 0 implies (
                    #[trigger] self.level_at(lv).chain_len() > 0 && self.level_at(lv).key_at(0)
                        == self.level_at(0).key_at(0)) by {
                        if lv >= 1 {
                            assert(self.level_at(lv).chain_len() > 0 && self.level_at(lv).key_at(0)
                                == key);
                        }
                    }
                    assert(self.heads_aligned());
                }
                assert forall|lv: int| 0 <= lv < old(self).num_levels() implies #[trigger] self
                    .level_at(lv).arena_size() <= old(self).level_at(lv).arena_size() + 1 by {
                    if lv >= 1 {
                        assert(self.level_at(lv).arena_size() == old(self).level_at(
                            lv,
                        ).arena_size() + 1);
                    }
                }
            }
        } else {
            // Randomized promotion: climb while the coin keeps coming up.
            proof {
                assert(hk < key);
            }
            let mut counter: usize = 1;
            let mut prev: usize = nid0;
            proof {
                lemma_upper_bound(s00, key);
                if upper_bound(s00, key) == 0 {
                    s00.insert_ensures(0, (key, value));
                    assert(self@[0] == (key, value));
                    assert(false);
                }
                s00.insert_ensures(upper_bound(s00, key), (key, value));
                assert(self@[0] == s00[0]);
                if old(self).head_covered() {
                    assert(old(self).level_at(0).chain_len() > 0);
                    assert forall|lv: int|
                        0 <= lv < self.num_levels() && self.level_at(0).chain_len() > 0 implies (
                    #[trigger] self.level_at(lv).chain_len() > 0 && self.level_at(lv).key_at(0)
                        <= self.level_at(0).key_at(0)) by {
                        if lv >= 1 {
                            assert(self.level_at(lv) == old(self).level_at(lv));
                            assert(old(self).level_at(lv).chain_len() > 0 && old(self).level_at(
                                lv,
                            ).key_at(0) <= old(self).level_at(0).key_at(0));
                        }
                    }
                    assert(self.head_covered());
                }
                if old(self).heads_aligned() {
                    assert(old(self).level_at(0).chain_len() > 0);
                    assert forall|lv: int|
                        0 <= lv < self.num_levels() && self.level_at(0).chain_len() > 0 implies (
                    #[trigger] self.level_at(lv).chain_len() > 0 && self.level_at(lv).key_at(0)
                        == self.level_at(0).key_at(0)) by {
                        if lv >= 1 {
                            assert(self.level_at(lv) == old(self).level_at(lv));
                            assert(old(self).level_at(lv).chain_len() > 0 && old(self).level_at(
                                lv,
                            ).key_at(0) == old(self).level_at(0).key_at(0));
                        }
                    }
                    assert(self.heads_aligned());
                }
                if 1 < self.num_levels() {
                    assert forall|j: int|
                        0 <= j < self.level_at(1).chain_len() implies #[trigger] self.level_at(
                        1,
                    ).down_of(self.level_at(1).id_at(j)) != Some(prev) by {
                        assert(self.level_at(1) == old(self).level_at(1));
                        assert(old(self).down_ok(1, j));
                        let d = old(self).level_at(1).down_of(old(self).level_at(1).id_at(j))->Some_0;
                        old(self).level_at(0).lemma_on_chain_bound(d);
                    }
                }
                assert forall|lv: int|
                    1 <= lv < self.num_levels() implies (#[trigger] self.level_at(
                    lv,
                )).arena_size() < usize::MAX as int by {
                    assert(self.level_at(lv) == old(self).level_at(lv));
                    assert(old(self).level_at(lv).arena_size() < usize::MAX as int);
                }
            }
            loop
                invariant
                    old(self).wf(),
                    forall|lv: int|
                        0 <= lv < old(self).num_levels() ==> (#[trigger] old(self).level_at(
                            lv,
                        )).arena_size() < usize::MAX as int,
                    self.wf(),
                    1 <= counter,
                    counter as int <= self.num_levels(),
                    self.num_levels() >= old(self).num_levels(),
                    self.num_levels() == old(self).num_levels() || self.num_levels()
                        == counter as int,
                    self@ == spec_insert(s00, key, value),
                    self.level_at(0).chain_len() > 0,
                    self.level_at(0).key_at(0) < key,
                    old(self).head_covered() ==> self.head_covered(),
                    old(self).heads_aligned() ==> self.heads_aligned(),
                    self.level_at(counter - 1).on_chain(prev),
                    self.level_at(counter - 1).key_of(prev) == key,
                    self.level_at(counter - 1).pos_of(prev) == upper_bound(
                        self.level_at(counter - 1)@,
                        key,
                    ) - 1,
                    self.level_at(0).arena_size() == old(self).level_at(0).arena_size() + 1,
                    forall|lv: int|
                        counter <= lv < self.num_levels() && lv < old(self).num_levels()
                            ==> #[trigger] self.level_at(lv) == old(self).level_at(lv),
                    forall|lv: int|
                        1 <= lv < counter && lv < old(self).num_levels() ==> #[trigger] self
                            .level_at(lv).arena_size() <= old(self).level_at(lv).arena_size() + 1,
                    forall|lv: int|
                        old(self).num_levels() <= lv < self.num_levels() ==> #[trigger] self
                            .level_at(lv).arena_size() <= 2,
                    (counter as int) < self.num_levels() ==> (forall|j: int|
                        0 <= j < self.level_at(counter as int).chain_len() ==> #[trigger] self
                            .level_at(counter as int).down_of(
                            self.level_at(counter as int).id_at(j),
                        ) != Some(prev)),
                decreases MAX_HEIGHT - counter,
            {
                if !(counter < MAX_HEIGHT) {
                    break ;
                }
                if !self.flip_coin() {
                    break ;
                }
                if counter >= self.levels.len() {
                    proof {
                        self.level_at(counter - 1).lemma_pos_of(prev);
                        assert(self.level_at(counter - 1).chain_len() > 0);
                        assert(self.level_at(counter - 1).link_ok(0));
                    }
                    let htop = match self.levels[counter - 1].head {
                        Some(x) => x,
                        None => {
                            proof {
                                assert(false);
                            }
                            0
                        },
                    };
                    let ghost pre = *self;
                    let seed = self.add_level();
                    if htop == prev {
                        // The fresh level was seeded from the very node this
                        // insertion created below: the seed already carries
                        // the pair and stands as this level's copy.
                        proof {
                            let t = self.level_at(counter as int);
                            assert(t.key_of(seed) == pre.level_at(counter - 1).key_at(0));
                            assert(pre.level_at(counter - 1).key_at(0) == pre.level_at(
                                counter - 1,
                            ).key_of(prev));
                            assert(t.key_of(seed) == key);
                            assert(t.key_at(0) == key);
                            assert(upper_bound(t@, key) == 1) by {
                                assert(t@.len() == 1 && t@[0].0 == key);
                                lemma_upper_bound_is(t@, key, 1);
                            }
                            if old(self).head_covered() {
                                assert(pre.head_covered());
                                assert(pre.level_at(counter - 1).key_at(0) <= pre.level_at(
                                    0,
                                ).key_at(0));
                                assert(false);
                            }
                            if old(self).heads_aligned() {
                                assert(pre.heads_aligned());
                                assert(pre.level_at(counter - 1).key_at(0) == pre.level_at(
                                    0,
                                ).key_at(0));
                                assert(false);
                            }
                        }
                        prev = seed;
                        counter = counter + 1;
                    } else {
                        proof {
                            let t = self.level_at(counter as int);
                            assert(t.chain_len() == 1);
                            assert forall|j: int| 0 <= j < t.chain_len() implies #[trigger] t
                                .down_of(t.id_at(j)) != Some(prev) by {
                                assert(t.down_of(seed) == Some(pre.level_at(counter - 1).id_at(0)));
                            }
                            assert(level_frame(
                                pre.level_at(counter - 1),
                                self.level_at(counter - 1),
                            ));
                            self.level_at(counter - 1).lemma_on_chain_bound(prev);
                        }
                        let vc = self.levels[counter - 1].value(prev).clone();
                        let ghost pre2 = *self;
                        let nid = self.promote(counter, key, vc, prev);
                        proof {
                            assert((counter as int) + 1 == self.num_levels());
                            if old(self).head_covered() {
                                assert(pre2.head_covered());
                                assert forall|lv: int|
                                    0 <= lv < self.num_levels() && self.level_at(0).chain_len()
                                        > 0 implies (#[trigger] self.level_at(lv).chain_len() > 0
                                    && self.level_at(lv).key_at(0) <= self.level_at(0).key_at(
                                    0,
                                )) by {
                                    if lv == counter as int {
                                        assert(pre2.level_at(lv).chain_len() > 0);
                                        assert(pre2.level_at(lv).key_at(0) <= pre2.level_at(
                                            0,
                                        ).key_at(0));
                                    } else if lv == counter - 1 {
                                        assert(pre2.level_at(lv)@ == self.level_at(lv)@);
                                        assert(pre2.level_at(lv).key_at(0) == pre2.level_at(
                                            lv,
                                        )@[0].0);
                                    }
                                }
                                assert(self.head_covered());
                            }
                            if old(self).heads_aligned() {
                                assert(pre2.heads_aligned());
                                assert forall|lv: int|
                                    0 <= lv < self.num_levels() && self.level_at(0).chain_len()
                                        > 0 implies (#[trigger] self.level_at(lv).chain_len() > 0
                                    && self.level_at(lv).key_at(0) == self.level_at(0).key_at(
                                    0,
                                )) by {
                                    if lv == counter as int {
                                        assert(pre2.level_at(lv).chain_len() > 0);
                                        assert(pre2.level_at(lv).key_at(0) == pre2.level_at(
                                            0,
                                        ).key_at(0));
                                    } else if lv == counter - 1 {
                                        assert(pre2.level_at(lv)@ == self.level_at(lv)@);
                                        assert(pre2.level_at(lv).key_at(0) == pre2.level_at(
                                            lv,
                                        )@[0].0);
                                    }
                                }
                                assert(self.heads_aligned());
                            }
                            assert forall|lv: int|
                                old(self).num_levels() <= lv < self.num_levels() implies 
                            #[trigger] self.level_at(lv).arena_size() <= 2 by {
                                if lv == counter as int {
                                    assert(self.level_at(lv).arena_size() == pre2.level_at(
                                        lv,
                                    ).arena_size() + 1);
                                } else if lv == counter - 1 {
                                    assert(level_frame(pre2.level_at(lv), self.level_at(lv)));
                                } else {
                                    assert(self.level_at(lv) == pre2.level_at(lv));
                                }
                            }
                        }
                        prev = nid;
                        counter = counter + 1;
                    }
                } else {
                    proof {
                        assert forall|j: int|
                            0 <= j < self.level_at(counter as int).chain_len() implies #[trigger] self
                            .level_at(counter as int).down_of(
                            self.level_at(counter as int).id_at(j),
                        ) != Some(prev) by {}
                        self.level_at(counter - 1).lemma_on_chain_bound(prev);
                    }
                    let vc = self.levels[counter - 1].value(prev).clone();
                    let ghost pre2 = *self;
                    let nid = self.promote(counter, key, vc, prev);
                    proof {
                        assert((counter as int) < old(self).num_levels());
                        assert(pre2.level_at(counter as int) == old(self).level_at(counter as int));
                        if old(self).head_covered() {
                            assert(pre2.head_covered());
                            assert forall|lv: int|
                                0 <= lv < self.num_levels() && self.level_at(0).chain_len()
                                    > 0 implies (#[trigger] self.level_at(lv).chain_len() > 0
                                && self.level_at(lv).key_at(0) <= self.level_at(0).key_at(0)) by {
                                if lv == counter as int {
                                    assert(pre2.level_at(lv).chain_len() > 0);
                                    assert(pre2.level_at(lv).key_at(0) <= pre2.level_at(0).key_at(
                                        0,
                                    ));
                                } else if lv == counter - 1 {
                                    assert(pre2.level_at(lv)@ == self.level_at(lv)@);
                                    assert(pre2.level_at(lv).key_at(0) == pre2.level_at(lv)@[0].0);
                                }
                            }
                            assert(self.head_covered());
                        }
                        if old(self).heads_aligned() {
                            assert(pre2.heads_aligned());
                            assert forall|lv: int|
                                0 <= lv < self.num_levels() && self.level_at(0).chain_len()
                                    > 0 implies (#[trigger] self.level_at(lv).chain_len() > 0
                                && self.level_at(lv).key_at(0) == self.level_at(0).key_at(0)) by {
                                if lv == counter as int {
                                    assert(pre2.level_at(lv).chain_len() > 0);
                                    assert(pre2.level_at(lv).key_at(0) == pre2.level_at(0).key_at(
                                        0,
                                    ));
                                } else if lv == counter - 1 {
                                    assert(pre2.level_at(lv)@ == self.level_at(lv)@);
                                    assert(pre2.level_at(lv).key_at(0) == pre2.level_at(lv)@[0].0);
                                }
                            }
                            assert(self.heads_aligned());
                        }
                        assert forall|lv: int|
                            1 <= lv < counter + 1 && lv < old(self).num_levels() implies 
                        #[trigger] self.level_at(lv).arena_size() <= old(self).level_at(
                            lv,
                        ).arena_size() + 1 by {
                            if lv == counter as int {
                                assert(self.level_at(lv).arena_size() == pre2.level_at(
                                    lv,
                                ).arena_size() + 1);
                            } else if lv == counter - 1 {
                                assert(level_frame(pre2.level_at(lv), self.level_at(lv)));
                            } else {
                                assert(self.level_at(lv) == pre2.level_at(lv));
                            }
                        }
                        if (counter as int) + 1 < self.num_levels() {
                            assert forall|j: int|
                                0 <= j < self.level_at(counter as int + 1).chain_len() implies #[trigger] self
                                .level_at(counter as int + 1).down_of(
                                self.level_at(counter as int + 1).id_at(j),
                            ) != Some(nid) by {
                                assert(self.level_at(counter as int + 1) == pre2.level_at(
                                    counter as int + 1,
                                ));
                                assert(pre2.down_ok(counter as int + 1, j));
                                let d = pre2.level_at(counter as int + 1).down_of(
                                    pre2.level_at(counter as int + 1).id_at(j),
                                )->Some_0;
                                pre2.level_at(counter as int).lemma_on_chain_bound(d);
                            }
                        }
                    }
                    prev = nid;
                    counter = counter + 1;
                }
            }
            proof {
                assert forall|lv: int| 0 <= lv < old(self).num_levels() implies #[trigger] self
                    .level_at(lv).arena_size() <= old(self).level_at(lv).arena_size() + 1 by {
                    if lv >= counter {
                        assert(self.level_at(lv) == old(self).level_at(lv));
                    }
                }
            }
        }
        proof {
            lemma_upper_bound(s00, key);
            s00.insert_ensures(upper_bound(s00, key), (key, value));
        }
    }

    /// Exact-key lookup: bisect the top level, then descend, following the
    /// anchor's vertical link and bisecting each level from it, and compare
    /// keys at the base. Found exactly when the key is present and the top
    /// level still covers it — which holds as long as no deletion has broken
    /// the head coverage — and the value is then the last one associated
    /// with the key. A key that is absent from the list is never found.
    pub fn get(&self, key: &i64) -> (r: Option<V>) where V: Clone
        requires
            self.wf(),
        ensures
            (r is Some) <==> (has_key(self@, *key) && self.reachable(*key)),
            r matches Some(v) ==> upper_bound(self@, *key) > 0 && self@[upper_bound(self@, *key)
                - 1].0 == *key && cloned(self@[upper_bound(self@, *key) - 1].1, v),
    {
        let nlevels = self.levels.len();
        proof {
            assert(self.level_at(nlevels - 1).wf());
        }
        let mut maybe_prev = self.levels[nlevels - 1].bisect(key);
        let mut i: usize = 1;
        proof {
            let top = self.level_at(nlevels - 1);
            lemma_upper_bound(top@, *key);
            if self.reachable(*key) {
                assert(upper_bound(top@, *key) > 0);
                assert(maybe_prev == Some(top.id_at(upper_bound(top@, *key) - 1)));
            } else {
                assert(upper_bound(top@, *key) == 0);
                assert(maybe_prev == None::<usize>);
            }
        }
        loop
            invariant
                self.wf(),
                1 <= i <= nlevels,
                nlevels == self.num_levels(),
                ({
                    let lv = nlevels - i;
                    if self.reachable(*key) {
                        upper_bound(self.level_at(lv as int)@, *key) > 0 && maybe_prev == Some(
                            self.level_at(lv as int).id_at(
                                upper_bound(self.level_at(lv as int)@, *key) - 1,
                            ),
                        )
                    } else {
                        maybe_prev == None::<usize>
                    }
                }),
            ensures
                self.reachable(*key) ==> i == nlevels && maybe_prev == Some(
                    self.level_at(0).id_at(upper_bound(self@, *key) - 1),
                ) && upper_bound(self@, *key) > 0,
                !self.reachable(*key) ==> maybe_prev == None::<usize>,
            decreases nlevels - i,
        {
            if !(i < nlevels) {
                break ;
            }
            let prev = match maybe_prev {
                Some(p) => p,
                None => {
                    break ;
                },
            };
            let ghost lv: int = nlevels - i;
            let ghost l = self.level_at(lv);
            let ghost ub = upper_bound(l@, *key);
            proof {
                assert(self.reachable(*key));
                assert(l.wf());
                lemma_upper_bound(l@, *key);
                assert(self.down_ok(lv, ub - 1));
                assert(l.link_ok(ub - 1));
            }
            let after = match self.levels[nlevels - i].down(prev) {
                Some(d) => d,
                None => {
                    proof {
                        assert(false);
                    }
                    0
                },
            };
            proof {
                assert(self.level_at(lv - 1).on_chain(after));
                assert(self.level_at(lv - 1).key_of(after) == l.key_at(ub - 1));
                assert(l.key_at(ub - 1) == l@[ub - 1].0);
                assert(l@[ub - 1].0 <= *key);
            }
            maybe_prev = self.levels[nlevels - i - 1].bisect_after(after, key);
            i = i + 1;
        }
        match maybe_prev {
            Some(found) => {
                proof {
                    assert(self.reachable(*key));
                    let l0 = self.level_at(0);
                    assert(l0.wf());
                    lemma_upper_bound(self@, *key);
                    assert(l0.link_ok(upper_bound(self@, *key) - 1));
                    assert(sorted_by_key(self@)) by {
                        assert forall|x: int, y: int| 0 <= x <= y < self@.len() implies (
                        #[trigger] self@[x]).0 <= (#[trigger] self@[y]).0 by {
                            assert(l0.key_at(x) <= l0.key_at(y));
                        }
                    }
                    lemma_upper_bound_found(self@, *key);
                }
                let fk = self.levels[0].key(found);
                if fk == *key {
                    let v = self.levels[0].value(found).clone();
                    Some(v)
                } else {
                    None
                }
            },
            None => {
                proof {
                    assert(!self.reachable(*key));
                }
                None
            },
        }
    }

    /// Remove the leftmost entry carrying the key from every level — working
    /// from the top level down — then recompute the count from the base
    /// level. Without a match nothing changes. With duplicate keys one call
    /// removes one entry per level, the leftmost match of each.
    #[verifier::rlimit(100)]
    pub fn delete(&mut self, key: &i64)
        requires
            old(self).wf(),
        ensures
            final(self).wf(),
            final(self)@ == spec_delete(old(self)@, *key),
            final(self).num_levels() == old(self).num_levels(),
            forall|lv: int|
                0 <= lv < old(self).num_levels() ==> #[trigger] final(self).level_at(
                    lv,
                ).arena_size() == old(self).level_at(lv).arena_size(),
            final(self)@.len() as int == (if has_key(old(self)@, *key) {
                old(self)@.len() - 1
            } else {
                old(self)@.len() as int
            }),
    {
        let ghost k0 = old(self)@;
        let mut lv = self.levels.len();
        while lv > 0
            invariant
                old(self).wf(),
                self.links_wf(),
                0 <= lv <= self.num_levels(),
                self.num_levels() == old(self).num_levels(),
                self.size == old(self).size,
                forall|x: int|
                    0 <= x < lv ==> #[trigger] self.level_at(x) == old(self).level_at(x),
                forall|x: int|
                    0 <= x < self.num_levels() ==> #[trigger] self.level_at(x).arena_size() == old(
                        self,
                    ).level_at(x).arena_size(),
                lv > 0 ==> self@ == old(self)@,
                lv == 0 ==> self@ == spec_delete(old(self)@, *key),
                (1 <= lv && (lv as int) < self.num_levels()) ==> (forall|j: int|
                    0 <= j < self.level_at(lv as int).chain_len() && self.level_at(
                        lv as int,
                    ).key_at(j) == *key ==> #[trigger] self.down_pos(lv as int, j) > lower_bound(
                        self.level_at(lv - 1)@,
                        *key,
                    )),
            decreases lv,
        {
            lv = lv - 1;
            let ghost pre = *self;
            let ghost lw0 = self.level_at(lv as int);
            let ghost s0 = lw0@;
            let ghost p = lower_bound(s0, *key);
            let ghost hk = has_key(s0, *key);
            proof {
                assert(lw0.wf());
                assert(sorted_by_key(s0)) by {
                    assert forall|x: int, y: int| 0 <= x <= y < s0.len() implies (
                    #[trigger] s0[x]).0 <= (#[trigger] s0[y]).0 by {
                        assert(lw0.key_at(x) <= lw0.key_at(y));
                    }
                }
                lemma_lower_bound(s0, *key);
                lw0.lemma_chain_distinct();
            }
            let ghost g0 = self.levels@;
            let mut l = self.levels.remove(lv);
            l.delete(key);
            proof {
                g0.remove_ensures(lv as int);
            }
            self.levels.insert(lv, l);
            let ghost lw1 = self.levels@[lv as int];
            proof {
                lemma_remove_insert_is_update(g0, lv as int, lw1);
                assert forall|x: int|
                    0 <= x < self.num_levels() && x != lv implies #[trigger] self.level_at(x)
                        == pre.level_at(x) by {}
                if hk {
                    assert(lw1.chain() == lw0.chain().remove(p));
                    lw0.chain().remove_ensures(p);
                    lemma_first_index_remove(lw0.chain(), p);
                    assert(s0[p].0 == *key);
                    assert(lw0.key_at(p) == *key);
                    assert(lw0.link_ok(p));
                    assert forall|i: int| 0 <= i < lw1.chain().len() implies lw1.chain()[i]
                        != lw0.id_at(p) by {
                        let o: int = if i < p {
                            i
                        } else {
                            i + 1
                        };
                        assert(lw1.chain()[i] == lw0.id_at(o));
                        assert(lw0.id_at(o) != lw0.id_at(p));
                    }
                    assert(!lw1.chain().contains(lw0.id_at(p)));
                } else {
                    assert(lw1.chain() == lw0.chain());
                }
                assert forall|x: int| 0 <= x < self.num_levels() implies (#[trigger] self.level_at(
                    x,
                )).wf() by {
                    if x != lv {
                        assert(pre.level_at(x).wf());
                    }
                }
                // vertical links still reach the level below at equal keys
                assert forall|x: int, j: int|
                    1 <= x < self.num_levels() && 0 <= j < self.level_at(x).chain_len() implies 
                #[trigger] self.down_ok(x, j) by {
                    if x == lv as int + 1 {
                        assert(pre.down_ok(x, j));
                        let up = self.level_at(x);
                        assert(up == pre.level_at(x));
                        assert(up.link_ok(j));
                        let d = up.down_of(up.id_at(j))->Some_0;
                        lw0.lemma_pos_of(d);
                        lw0.lemma_on_chain_bound(d);
                        if hk {
                            if d == lw0.id_at(p) {
                                assert(up.key_at(j) == lw0.key_of(d));
                                assert(lw0.key_of(d) == lw0.key_at(p));
                                assert(up.key_at(j) == *key);
                                assert(pre.down_pos(x, j) > lower_bound(
                                    pre.level_at(lv as int)@,
                                    *key,
                                ));
                                assert(lw0.pos_of(d) == p);
                                assert(false);
                            }
                            let q = lw0.pos_of(d);
                            assert(lw1.chain().index_of_first(d) == Some(
                                if q < p {
                                    q
                                } else {
                                    q - 1
                                },
                            ));
                            lw1.chain().index_of_first_ensures(d);
                            assert(lw1.on_chain(d));
                            assert(lw1.key_of(d) == lw0.key_of(d));
                        } else {
                            assert(lw1.key_of(d) == lw0.key_of(d));
                        }
                    } else if x == lv as int {
                        let o: int = if hk && j >= p {
                            j + 1
                        } else {
                            j
                        };
                        assert(pre.down_ok(x, o));
                        assert(lw1.id_at(j) == lw0.id_at(o));
                        assert(lw0.link_ok(o));
                        let d = lw0.down_of(lw0.id_at(o))->Some_0;
                        assert(lw1.down_of(lw1.id_at(j)) == lw0.down_of(lw0.id_at(o)));
                        assert(self.level_at(x - 1) == pre.level_at(x - 1));
                        assert(lw1.key_at(j) == lw0.key_at(o));
                    } else {
                        assert(pre.down_ok(x, j));
                        assert(self.level_at(x) == pre.level_at(x));
                        assert(self.level_at(x - 1) == pre.level_at(x - 1));
                    }
                }
                // and still in chain order
                assert forall|x: int| 1 <= x < self.num_levels() implies #[trigger] self
                    .downs_ordered(x) by {
                    if x == lv as int + 1 {
                        assert forall|j1: int, j2: int|
                            0 <= j1 < j2 < self.level_at(x).chain_len() implies #[trigger] self
                            .down_pos(x, j1) < #[trigger] self.down_pos(x, j2) by {
                            assert(pre.downs_ordered(x));
                            assert(pre.down_pos(x, j1) < pre.down_pos(x, j2));
                            assert(pre.down_ok(x, j1));
                            assert(pre.down_ok(x, j2));
                            assert(self.down_ok(x, j1));
                            assert(self.down_ok(x, j2));
                            let up = self.level_at(x);
                            let d1 = up.down_of(up.id_at(j1))->Some_0;
                            let d2 = up.down_of(up.id_at(j2))->Some_0;
                            lw0.lemma_pos_of(d1);
                            lw0.lemma_pos_of(d2);
                            if hk {
                                assert(d1 != lw0.id_at(p));
                                assert(d2 != lw0.id_at(p));
                                let q1 = lw0.pos_of(d1);
                                let q2 = lw0.pos_of(d2);
                                assert(lw1.chain().index_of_first(d1) == Some(
                                    if q1 < p {
                                        q1
                                    } else {
                                        q1 - 1
                                    },
                                ));
                                assert(lw1.chain().index_of_first(d2) == Some(
                                    if q2 < p {
                                        q2
                                    } else {
                                        q2 - 1
                                    },
                                ));
                                if q1 == p {
                                    assert(lw0.id_at(q1) == d1);
                                    assert(false);
                                }
                                if q2 == p {
                                    assert(lw0.id_at(q2) == d2);
                                    assert(false);
                                }
                            }
                        }
                    } else if x == lv as int {
                        assert forall|j1: int, j2: int|
                            0 <= j1 < j2 < self.level_at(x).chain_len() implies #[trigger] self
                            .down_pos(x, j1) < #[trigger] self.down_pos(x, j2) by {
                            let o1: int = if hk && j1 >= p {
                                j1 + 1
                            } else {
                                j1
                            };
                            let o2: int = if hk && j2 >= p {
                                j2 + 1
                            } else {
                                j2
                            };
                            assert(pre.downs_ordered(x));
                            assert(pre.down_pos(x, o1) < pre.down_pos(x, o2));
                            assert(lw1.id_at(j1) == lw0.id_at(o1));
                            assert(lw1.id_at(j2) == lw0.id_at(o2));
                            assert(lw0.link_ok(o1));
                            assert(lw0.link_ok(o2));
                            assert(lw1.down_of(lw1.id_at(j1)) == lw0.down_of(lw0.id_at(o1)));
                            assert(lw1.down_of(lw1.id_at(j2)) == lw0.down_of(lw0.id_at(o2)));
                            assert(self.level_at(x - 1) == pre.level_at(x - 1));
                        }
                    } else {
                        assert forall|j1: int, j2: int|
                            0 <= j1 < j2 < self.level_at(x).chain_len() implies #[trigger] self
                            .down_pos(x, j1) < #[trigger] self.down_pos(x, j2) by {
                            assert(pre.downs_ordered(x));
                            assert(pre.down_pos(x, j1) < pre.down_pos(x, j2));
                            assert(self.level_at(x) == pre.level_at(x));
                            assert(self.level_at(x - 1) == pre.level_at(x - 1));
                        }
                    }
                }
                // the frontier pair: no surviving match here points at the
                // leftmost match below
                if 1 <= lv {
                    let lowr = self.level_at(lv - 1);
                    assert(lowr == pre.level_at(lv - 1));
                    assert(lowr.wf());
                    assert(sorted_by_key(lowr@)) by {
                        assert forall|x: int, y: int| 0 <= x <= y < lowr@.len() implies (
                        #[trigger] lowr@[x]).0 <= (#[trigger] lowr@[y]).0 by {
                            assert(lowr.key_at(x) <= lowr.key_at(y));
                        }
                    }
                    lemma_lower_bound(lowr@, *key);
                    assert forall|j: int|
                        0 <= j < self.level_at(lv as int).chain_len() && self.level_at(
                            lv as int,
                        ).key_at(j) == *key implies #[trigger] self.down_pos(lv as int, j)
                        > lower_bound(lowr@, *key) by {
                        let o: int = if hk && j >= p {
                            j + 1
                        } else {
                            j
                        };
                        assert(lw1.id_at(j) == lw0.id_at(o));
                        assert(lw0.link_ok(o));
                        assert(lw1.key_at(j) == lw0.key_at(o));
                        assert(lw0.key_at(o) == *key);
                        assert(s0[o].0 == *key);
                        assert(hk);
                        if o < p {
                            assert(s0[o].0 < *key);
                        }
                        assert(o > p);
                        assert(pre.down_ok(lv as int, p));
                        assert(pre.down_ok(lv as int, o));
                        assert(pre.downs_ordered(lv as int));
                        assert(pre.down_pos(lv as int, p) < pre.down_pos(lv as int, o));
                        let dp = lw0.down_of(lw0.id_at(p))->Some_0;
                        lowr.lemma_pos_of(dp);
                        assert(lowr.key_of(dp) == lw0.key_at(p));
                        if lowr.pos_of(dp) < lower_bound(lowr@, *key) {
                            assert(lowr@[lowr.pos_of(dp)].0 < *key);
                            assert(lowr.key_at(lowr.pos_of(dp)) == lowr.key_of(dp));
                            assert(false);
                        }
                        assert(lw1.down_of(lw1.id_at(j)) == lw0.down_of(lw0.id_at(o)));
                        assert(self.down_pos(lv as int, j) == pre.down_pos(lv as int, o));
                    }
                }
                // the enumeration
                if lv == 0 {
                    assert(self@ == lw1@);
                    assert(lw1@ == spec_delete(s0, *key));
                    assert(s0 == old(self)@);
                }
            }
        }
        proof {
            assert(self.level_at(0).wf());
        }
        let n0 = self.levels[0].len();
        let ghost pre3 = *self;
        self.size = n0;
        proof {
            assert(self.levels == pre3.levels);
            assert forall|x: int| 0 <= x < self.num_levels() implies (#[trigger] self.level_at(
                x,
            )).wf() by {
                assert(pre3.level_at(x).wf());
            }
            assert forall|x: int, j: int|
                1 <= x < self.num_levels() && 0 <= j < self.level_at(x).chain_len() implies
            #[trigger] self.down_ok(x, j) by {
                assert(pre3.down_ok(x, j));
            }
            assert forall|x: int| 1 <= x < self.num_levels() implies #[trigger] self.downs_ordered(
                x,
            ) by {
                assert(pre3.downs_ordered(x));
                assert forall|j1: int, j2: int|
                    0 <= j1 < j2 < self.level_at(x).chain_len() implies #[trigger] self.down_pos(
                    x,
                    j1,
                ) < #[trigger] self.down_pos(x, j2) by {
                    assert(pre3.down_pos(x, j1) < pre3.down_pos(x, j2));
                }
            }
            assert(self.size == self.level_at(0).chain_len());
            assert(self.wf());
            lemma_lower_bound(k0, *key);
            if has_key(k0, *key) {
                k0.remove_ensures(lower_bound(k0, *key));
            }
        }
    }

    /// Number of levels currently allocated.
    pub fn level_count(&self) -> (n: usize)
        requires
            self.wf(),
        ensures
            n as int == self.num_levels(),
    {
        self.levels.len()
    }

    /// The keys of one level, in chain order.
    pub fn level_keys(&self, lv: usize) -> (r: Vec<i64>)
        requires
            self.wf(),
            (lv as int) < self.num_levels(),
        ensures
            r@.len() == self.level_at(lv as int).chain_len(),
            forall|j: int| 0 <= j < r@.len() ==> #[trigger] r@[j] == self.level_at(
                lv as int,
            ).key_at(j),
    {
        proof {
            assert(self.level_at(lv as int).wf());
        }
        let ids = self.levels[lv].iter();
        let mut r: Vec<i64> = Vec::new();
        let mut i: usize = 0;
        while i < ids.len()
            invariant
                self.wf(),
                (lv as int) < self.num_levels(),
                ids@ == self.level_at(lv as int).chain(),
                0 <= i <= ids.len(),
                r@.len() == i,
                forall|j: int|
                    0 <= j < i ==> #[trigger] r@[j] == self.level_at(lv as int).key_at(j),
            decreases ids.len() - i,
        {
            proof {
                assert(self.level_at(lv as int).link_ok(i as int));
            }
            r.push(self.levels[lv].key(ids[i]));
            i = i + 1;
        }
        r
    }

    /// The element count as the model sees it.
    pub closed spec fn spec_size(self) -> int {
        self.size as int
    }

    /// Law: the enumeration of a well-formed list is non-decreasing in key.
    pub proof fn lemma_enumeration_sorted(&self)
        requires
            self.wf(),
        ensures
            sorted_by_key(self@),
    {
        let l0 = self.level_at(0);
        assert(l0.wf());
        assert forall|x: int, y: int| 0 <= x <= y < self@.len() implies (#[trigger] self@[x]).0
            <= (#[trigger] self@[y]).0 by {
            assert(l0.key_at(x) <= l0.key_at(y));
        }
    }

    /// Law: the tracked size equals the number of enumerated entries, after
    /// any sequence of operations that kept the list well-formed.
    pub proof fn lemma_size_matches_enumeration(&self)
        requires
            self.wf(),
        ensures
            self.spec_size() == self@.len(),
    {
    }

    /// Law: in a well-formed list every chain node above the base level
    /// reaches, through its vertical link, a chain node one level down that
    /// carries an equal key.
    pub proof fn lemma_down_links(&self, lv: int, j: int)
        requires
            self.wf(),
            1 <= lv < self.num_levels(),
            0 <= j < self.level_at(lv).chain_len(),
        ensures
            self.down_ok(lv, j),
    {
    }

    /// Walk every level and confirm that every vertical link lands on the
    /// chain one level down, at an equal key. On a well-formed list this
    /// always holds; the function exists so that tests can exercise the
    /// invariant on structures built by random operation sequences.
    pub fn down_links_consistent(&self) -> (r: bool)
        requires
            self.wf(),
        ensures
            r,
    {
        let mut lv: usize = 1;
        while lv < self.levels.len()
            invariant
                self.wf(),
                1 <= lv,
            decreases self.levels@.len() - lv,
        {
            proof {
                assert(self.level_at(lv as int).wf());
                assert(self.level_at(lv - 1).wf());
            }
            let ids = self.levels[lv].iter();
            let below_ids = self.levels[lv - 1].iter();
            let mut i: usize = 0;
            while i < ids.len()
                invariant
                    self.wf(),
                    1 <= lv < self.levels@.len(),
                    ids@ == self.level_at(lv as int).chain(),
                    below_ids@ == self.level_at(lv - 1).chain(),
                    0 <= i <= ids.len(),
                decreases ids.len() - i,
            {
                proof {
                    assert(self.down_ok(lv as int, i as int));
                    assert(self.level_at(lv as int).link_ok(i as int));
                }
                let id = ids[i];
                match self.levels[lv].down(id) {
                    None => {
                        proof {
                            assert(false);
                        }
                        return false;
                    },
                    Some(d) => {
                        proof {
                            self.level_at(lv - 1).lemma_on_chain_bound(d);
                        }
                        if !contains_id(&below_ids, d) {
                            proof {
                                assert(below_ids@.contains(d));
                                assert(false);
                            }
                            return false;
                        }
                        if self.levels[lv].key(id) != self.levels[lv - 1].key(d) {
                            proof {
                                assert(false);
                            }
                            return false;
                        }
                    },
                }
                i = i + 1;
            }
            lv = lv + 1;
        }
        true
    }
}

/// Linear membership test over a vector of node ids.
fn contains_id(v: &Vec<usize>, x: usize) -> (r: bool)
    ensures
        r == v@.contains(x),
{
    let mut i: usize = 0;
    while i < v.len()
        invariant
            0 <= i <= v.len(),
            forall|j: int| 0 <= j < i ==> v@[j] != x,
        decreases v.len() - i,
    {
        if v[i] == x {
            return true;
        }
        i = i + 1;
    }
    proof {
        assert(!v@.contains(x));
    }
    false
}

// ---------------------------------------------------------------------------
// Laws: properties of the model that hold across operations.
// ---------------------------------------------------------------------------

/// An insertion keeps the enumeration sorted by key.
pub proof fn lemma_spec_insert_sorted<V>(s: Seq<(i64, V)>, k: i64, v: V)
    requires
        sorted_by_key(s),
    ensures
        sorted_by_key(spec_insert(s, k, v)),
{
    lemma_upper_bound(s, k);
    let ub = upper_bound(s, k);
    s.insert_ensures(ub, (k, v));
    let t = spec_insert(s, k, v);
    assert forall|i: int, j: int| 0 <= i <= j < t.len() implies (#[trigger] t[i]).0 <= (
    #[trigger] t[j]).0 by {
        let oi: int = if i < ub {
            i
        } else {
            i - 1
        };
        let oj: int = if j < ub {
            j
        } else {
            j - 1
        };
        if i != ub {
            assert(t[i] == s[oi]);
        }
        if j != ub {
            assert(t[j] == s[oj]);
        }
    }
}

/// An insertion adds exactly its own key to the key set.
pub proof fn lemma_spec_insert_has_key<V>(s: Seq<(i64, V)>, k: i64, v: V)
    ensures
        forall|k2: i64| #[trigger] has_key(spec_insert(s, k, v), k2) <==> (has_key(s, k2) || k2
            == k),
{
    lemma_upper_bound(s, k);
    let ub = upper_bound(s, k);
    s.insert_ensures(ub, (k, v));
    let t = spec_insert(s, k, v);
    assert forall|k2: i64| #[trigger] has_key(t, k2) <==> (has_key(s, k2) || k2 == k) by {
        if has_key(t, k2) {
            let w = choose|i: int| 0 <= i < t.len() && (#[trigger] t[i]).0 == k2;
            if w != ub {
                let o: int = if w < ub {
                    w
                } else {
                    w - 1
                };
                assert(t[w] == s[o]);
                assert(has_key(s, k2));
            }
        }
        if has_key(s, k2) {
            let w = choose|i: int| 0 <= i < s.len() && (#[trigger] s[i]).0 == k2;
            if w < ub {
                assert(t[w] == s[w]);
            } else {
                assert(t[w + 1] == s[w]);
            }
            assert(has_key(t, k2));
        }
        if k2 == k {
            assert(t[ub].0 == k2);
            assert(has_key(t, k2));
        }
    }
}

/// Law: an insertion puts the new pair after every existing entry with the
/// same key — older entries keep their places below the splice point and the
/// new pair lands exactly at it, so equal keys stay in insertion order.
pub proof fn lemma_insert_after_duplicates<V>(s: Seq<(i64, V)>, k: i64, v: V)
    requires
        sorted_by_key(s),
    ensures
        spec_insert(s, k, v)[upper_bound(s, k)] == (k, v),
        forall|i: int|
            0 <= i < s.len() && (#[trigger] s[i]).0 == k ==> i < upper_bound(s, k) && spec_insert(
                s,
                k,
                v,
            )[i] == s[i],
{
    lemma_upper_bound(s, k);
    let ub = upper_bound(s, k);
    s.insert_ensures(ub, (k, v));
}

/// Law: deleting a key just inserted into an enumeration that did not hold
/// it restores the enumeration exactly.
pub proof fn lemma_insert_then_delete<V>(s: Seq<(i64, V)>, k: i64, v: V)
    requires
        sorted_by_key(s),
        !has_key(s, k),
    ensures
        spec_delete(spec_insert(s, k, v), k) == s,
{
    lemma_upper_bound(s, k);
    let ub = upper_bound(s, k);
    s.insert_ensures(ub, (k, v));
    let t = spec_insert(s, k, v);
    assert(t[ub].0 == k);
    assert(has_key(t, k));
    assert forall|i: int| 0 <= i < ub implies (#[trigger] t[i]).0 < k by {
        assert(t[i] == s[i]);
        assert(s[i].0 <= k);
        assert(s[i].0 != k);
    }
    lemma_lower_bound_is(t, k, ub);
    t.remove_ensures(ub);
    assert(spec_delete(t, k) =~= s) by {
        assert forall|i: int| 0 <= i < s.len() implies t.remove(ub)[i] == s[i] by {
            if i < ub {
                assert(t.remove(ub)[i] == t[i]);
            } else {
                assert(t.remove(ub)[i] == t[i + 1]);
            }
        }
    }
}

/// The enumeration after a whole sequence of insertions, first pair first.
pub open spec fn insert_all<V>(s: Seq<(i64, V)>, ps: Seq<(i64, V)>) -> Seq<(i64, V)>
    decreases ps.len(),
{
    if ps.len() == 0 {
        s
    } else {
        insert_all(spec_insert(s, ps[0].0, ps[0].1), ps.drop_first())
    }
}

/// The enumeration after a whole sequence of deletions, first key first.
pub open spec fn delete_all<V>(s: Seq<(i64, V)>, ks: Seq<i64>) -> Seq<(i64, V)>
    decreases ks.len(),
{
    if ks.len() == 0 {
        s
    } else {
        delete_all(spec_delete(s, ks[0]), ks.drop_first())
    }
}

/// The keys of an enumeration, in order.
pub open spec fn keys_of<V>(ps: Seq<(i64, V)>) -> Seq<i64> {
    ps.map_values(|e: (i64, V)| e.0)
}

/// A deletion keeps the enumeration sorted by key.
pub proof fn lemma_spec_delete_sorted<V>(s: Seq<(i64, V)>, k: i64)
    requires
        sorted_by_key(s),
    ensures
        sorted_by_key(spec_delete(s, k)),
{
    if has_key(s, k) {
        lemma_lower_bound(s, k);
        let p = lower_bound(s, k);
        s.remove_ensures(p);
        let t = spec_delete(s, k);
        assert forall|i: int, j: int| 0 <= i <= j < t.len() implies (#[trigger] t[i]).0 <= (
        #[trigger] t[j]).0 by {
            let oi: int = if i < p {
                i
            } else {
                i + 1
            };
            let oj: int = if j < p {
                j
            } else {
                j + 1
            };
            assert(t[i] == s[oi] && t[j] == s[oj]);
        }
    }
}

/// Deleting one key from an enumeration whose keys are all distinct removes
/// exactly that key from the key set.
pub proof fn lemma_spec_delete_has_key<V>(s: Seq<(i64, V)>, k: i64)
    requires
        sorted_by_key(s),
        forall|i: int, j: int| 0 <= i < j < s.len() ==> (#[trigger] s[i]).0 != (#[trigger] s[j]).0,
    ensures
        !has_key(spec_delete(s, k), k),
        forall|k2: i64| k2 != k ==> (#[trigger] has_key(spec_delete(s, k), k2) <==> has_key(
            s,
            k2,
        )),
        sorted_by_key(spec_delete(s, k)),
        forall|i: int, j: int|
            0 <= i < j < spec_delete(s, k).len() ==> (#[trigger] spec_delete(s, k)[i]).0 != (
            #[trigger] spec_delete(s, k)[j]).0,
        has_key(s, k) ==> spec_delete(s, k).len() == s.len() - 1,
{
    lemma_spec_delete_sorted(s, k);
    lemma_lower_bound(s, k);
    let t = spec_delete(s, k);
    if has_key(s, k) {
        let p = lower_bound(s, k);
        s.remove_ensures(p);
        assert forall|i: int, j: int| 0 <= i < j < t.len() implies (#[trigger] t[i]).0 != (
        #[trigger] t[j]).0 by {
            let oi: int = if i < p {
                i
            } else {
                i + 1
            };
            let oj: int = if j < p {
                j
            } else {
                j + 1
            };
            assert(t[i] == s[oi] && t[j] == s[oj]);
        }
        assert forall|i: int| 0 <= i < t.len() implies (#[trigger] t[i]).0 != k by {
            let o: int = if i < p {
                i
            } else {
                i + 1
            };
            assert(t[i] == s[o]);
            if s[o].0 == k {
                assert(s[o].0 == s[p].0);
            }
        }
        assert forall|k2: i64| k2 != k implies (#[trigger] has_key(t, k2) <==> has_key(s, k2)) by {
            if has_key(s, k2) {
                let w = choose|i: int| 0 <= i < s.len() && (#[trigger] s[i]).0 == k2;
                if w < p {
                    assert(t[w] == s[w]);
                } else {
                    assert(w != p);
                    assert(t[w - 1] == s[w]);
                }
                assert(has_key(t, k2));
            }
            if has_key(t, k2) {
                let w = choose|i: int| 0 <= i < t.len() && (#[trigger] t[i]).0 == k2;
                let o: int = if w < p {
                    w
                } else {
                    w + 1
                };
                assert(t[w] == s[o]);
                assert(has_key(s, k2));
            }
        }
    }
}

/// Law: inserting any number of pairs with distinct keys into an empty list
/// and then deleting those keys, each once, in any order, leaves the
/// enumeration empty — the round trip ends with size zero.
pub proof fn lemma_round_trip_any_order<V>(s: Seq<(i64, V)>, ks: Seq<i64>)
    requires
        sorted_by_key(s),
        forall|i: int, j: int| 0 <= i < j < s.len() ==> (#[trigger] s[i]).0 != (#[trigger] s[j]).0,
        forall|i: int, j: int| 0 <= i < j < ks.len() ==> ks[i] != ks[j],
        forall|k: i64| #[trigger] has_key(s, k) <==> ks.contains(k),
        s.len() == ks.len(),
    ensures
        delete_all(s, ks) == Seq::<(i64, V)>::empty(),
    decreases ks.len(),
{
    if ks.len() == 0 {
        if s.len() > 0 {
            assert(has_key(s, s[0].0));
            assert(ks.contains(s[0].0));
        }
        assert(s =~= Seq::<(i64, V)>::empty());
    } else {
        let k0 = ks[0];
        assert(ks.contains(k0));
        assert(has_key(s, k0));
        let t = spec_delete(s, k0);
        lemma_spec_delete_has_key(s, k0);
        let rest = ks.drop_first();
        assert forall|k: i64| #[trigger] has_key(t, k) <==> rest.contains(k) by {
            if k == k0 {
                if rest.contains(k) {
                    let w = choose|i: int| 0 <= i < rest.len() && rest[i] == k;
                    assert(ks[w + 1] == k);
                    assert(ks[0] != ks[w + 1]);
                }
            } else {
                if has_key(t, k) {
                    assert(has_key(s, k));
                    let w = choose|i: int| 0 <= i < ks.len() && ks[i] == k;
                    assert(rest[w - 1] == k);
                    assert(rest.contains(k));
                }
                if rest.contains(k) {
                    let w = choose|i: int| 0 <= i < rest.len() && rest[i] == k;
                    assert(ks[w + 1] == k);
                    assert(ks.contains(k));
                    assert(has_key(s, k));
                }
            }
        }
        lemma_round_trip_any_order(t, rest);
    }
}

/// Inserting pairs with fresh, mutually distinct keys into a sorted,
/// distinct-keyed enumeration gives a sorted enumeration holding exactly the
/// old keys and the new ones.
pub proof fn lemma_insert_all_distinct<V>(s: Seq<(i64, V)>, ps: Seq<(i64, V)>)
    requires
        sorted_by_key(s),
        forall|i: int, j: int| 0 <= i < j < s.len() ==> (#[trigger] s[i]).0 != (#[trigger] s[j]).0,
        forall|i: int, j: int| 0 <= i < j < ps.len() ==> (#[trigger] ps[i]).0 != (
        #[trigger] ps[j]).0,
        forall|i: int| 0 <= i < ps.len() ==> !has_key(s, (#[trigger] ps[i]).0),
    ensures
        sorted_by_key(insert_all(s, ps)),
        insert_all(s, ps).len() == s.len() + ps.len(),
        forall|i: int, j: int|
            0 <= i < j < insert_all(s, ps).len() ==> (#[trigger] insert_all(s, ps)[i]).0 != (
            #[trigger] insert_all(s, ps)[j]).0,
        forall|k: i64| #[trigger] has_key(insert_all(s, ps), k) <==> (has_key(s, k) || keys_of(
            ps,
        ).contains(k)),
    decreases ps.len(),
{
    if ps.len() == 0 {
        assert forall|k: i64| #[trigger] has_key(s, k) <==> (has_key(s, k) || keys_of(ps).contains(
            k,
        )) by {
            if keys_of(ps).contains(k) {
                let w = choose|i: int| 0 <= i < keys_of(ps).len() && keys_of(ps)[i] == k;
            }
        }
    } else {
        let k0 = ps[0].0;
        let v0 = ps[0].1;
        let s1 = spec_insert(s, k0, v0);
        let rest = ps.drop_first();
        lemma_spec_insert_sorted(s, k0, v0);
        lemma_spec_insert_has_key(s, k0, v0);
        lemma_upper_bound(s, k0);
        let ub = upper_bound(s, k0);
        s.insert_ensures(ub, (k0, v0));
        assert forall|i: int, j: int| 0 <= i < j < s1.len() implies (#[trigger] s1[i]).0 != (
        #[trigger] s1[j]).0 by {
            let oi: int = if i < ub {
                i
            } else {
                i - 1
            };
            let oj: int = if j < ub {
                j
            } else {
                j - 1
            };
            if i == ub {
                assert(s1[j] == s[oj]);
                if s[oj].0 == k0 {
                    assert(has_key(s, k0));
                }
            } else if j == ub {
                assert(s1[i] == s[oi]);
                if s[oi].0 == k0 {
                    assert(has_key(s, k0));
                }
            } else {
                assert(s1[i] == s[oi] && s1[j] == s[oj]);
            }
        }
        assert forall|i: int| 0 <= i < rest.len() implies !has_key(s1, (#[trigger] rest[i]).0) by {
            assert(rest[i] == ps[i + 1]);
            assert(ps[i + 1].0 != k0);
            assert(!has_key(s, ps[i + 1].0));
        }
        lemma_insert_all_distinct(s1, rest);
        assert forall|k: i64| #[trigger] has_key(insert_all(s, ps), k) <==> (has_key(s, k)
            || keys_of(ps).contains(k)) by {
            assert(insert_all(s, ps) == insert_all(s1, rest));
            assert(has_key(insert_all(s1, rest), k) <==> (has_key(s1, k) || keys_of(rest).contains(
                k,
            )));
            if keys_of(ps).contains(k) && k != k0 {
                let w = choose|i: int| 0 <= i < keys_of(ps).len() && keys_of(ps)[i] == k;
                assert(keys_of(ps)[w] == ps[w].0);
                assert(keys_of(rest)[w - 1] == rest[w - 1].0);
                assert(keys_of(rest).contains(k));
            }
            if keys_of(rest).contains(k) {
                let w = choose|i: int| 0 <= i < keys_of(rest).len() && keys_of(rest)[i] == k;
                assert(keys_of(rest)[w] == rest[w].0);
                assert(keys_of(ps)[w + 1] == ps[w + 1].0);
                assert(keys_of(ps).contains(k));
            }
            if k == k0 {
                assert(keys_of(ps)[0] == k0);
                assert(keys_of(ps).contains(k));
            }
        }
    }
}

/// Law: inserting n pairs with distinct keys into an empty list and then
/// deleting those n keys, each once, in any order, leaves the enumeration
/// empty, and with it the size at zero.
pub proof fn lemma_round_trip_from_empty<V>(ps: Seq<(i64, V)>, ks: Seq<i64>)
    requires
        forall|i: int, j: int| 0 <= i < j < ps.len() ==> (#[trigger] ps[i]).0 != (
        #[trigger] ps[j]).0,
        forall|i: int, j: int| 0 <= i < j < ks.len() ==> ks[i] != ks[j],
        forall|k: i64| keys_of(ps).contains(k) <==> ks.contains(k),
        ks.len() == ps.len(),
    ensures
        delete_all(insert_all(Seq::<(i64, V)>::empty(), ps), ks) == Seq::<(i64, V)>::empty(),
{
    let e = Seq::<(i64, V)>::empty();
    lemma_insert_all_distinct(e, ps);
    let built = insert_all(e, ps);
    assert forall|k: i64| #[trigger] has_key(built, k) <==> ks.contains(k) by {
        assert(has_key(built, k) <==> (has_key(e, k) || keys_of(ps).contains(k)));
    }
    lemma_round_trip_any_order(built, ks);
}

} // verus!
