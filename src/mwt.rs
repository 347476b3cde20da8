use vstd::prelude::*;

verus! {

/// How often `w` was recorded in a trie whose contents are `m`; zero when never.
pub open spec fn freq(m: Map<Seq<char>, int>, w: Seq<char>) -> int {
    if m.contains_key(w) {
        m[w]
    } else {
        0
    }
}

/// The contents after recording `w` once more.
pub open spec fn recorded(m: Map<Seq<char>, int>, w: Seq<char>) -> Map<Seq<char>, int> {
    m.insert(w, freq(m, w) + 1)
}

/// `w` is empty or begins a word recorded in `m`.
pub open spec fn on_word(m: Map<Seq<char>, int>, w: Seq<char>) -> bool {
    w.len() == 0 || exists|x: Seq<char>| #[trigger] m.contains_key(x) && w.is_prefix_of(x)
}

/// How many of the first `n` non-empty prefixes of `w` are missing from `idx`.
pub open spec fn missing_prefixes(idx: Map<Seq<char>, int>, w: Seq<char>, n: nat) -> nat
    decreases n,
{
    if n == 0 {
        0
    } else {
        missing_prefixes(idx, w, (n - 1) as nat) + if idx.contains_key(w.take(n as int)) {
            0nat
        } else {
            1nat
        }
    }
}

/// None of the prefixes of `w` is missing where all of them are present.
pub proof fn lemma_no_missing(idx: Map<Seq<char>, int>, w: Seq<char>, n: nat)
    requires
        n <= w.len(),
        forall|k: int| 0 <= k <= w.len() ==> #[trigger] idx.contains_key(w.take(k)),
    ensures
        missing_prefixes(idx, w, n) == 0,
    decreases n,
{
    if n > 0 {
        lemma_no_missing(idx, w, (n - 1) as nat);
        assert(idx.contains_key(w.take(n as int)));
    }
}

/// One position of the trie, reached from the root by the characters of its path.
///
/// Nodes live in the arena of an `Mwt`; `children` maps a character to the
/// arena index of the child reached by it.
pub struct MwtNode {
    is_end: bool,
    data: String,
    rank: i32,
    children: Vec<(char, usize)>,
}

impl MwtNode {
    pub closed spec fn spec_end(&self) -> bool {
        self.is_end
    }

    pub closed spec fn spec_data(&self) -> Seq<char> {
        self.data@
    }

    pub closed spec fn spec_rank(&self) -> int {
        self.rank as int
    }

    pub closed spec fn spec_children(&self) -> Seq<(char, usize)> {
        self.children@
    }

    /// A node that holds no word and has no children.
    fn new() -> (r: MwtNode)
        ensures
            !r.spec_end(),
            r.spec_data().len() == 0,
            r.spec_rank() == 0,
            r.spec_children().len() == 0,
    {
        MwtNode { is_end: false, data: String::new(), rank: 0, children: Vec::new() }
    }

    /// The word held here; empty unless the node ends a word.
    pub fn get_data(&self) -> (r: &String)
        ensures
            r@ == self.spec_data(),
    {
        &self.data
    }

    /// How many times the word held here was recorded.
    pub fn get_rank(&self) -> (r: i32)
        ensures
            r as int == self.spec_rank(),
    {
        self.rank
    }

    /// Whether the path to this node spells a recorded word.
    pub fn get_end(&self) -> (r: bool)
        ensures
            r == self.spec_end(),
    {
        self.is_end
    }

    /// The outgoing edges: a character and the arena index of the child it leads to.
    pub fn get_children(&self) -> (r: &Vec<(char, usize)>)
        ensures
            r@ == self.spec_children(),
    {
        &self.children
    }

    /// The arena index of the child reached by `ch`, if there is one.
    pub fn find_child(&self, ch: char) -> (r: Option<usize>)
        ensures
            r matches Some(j) ==> exists|k: int|
                0 <= k < self.spec_children().len() && #[trigger] self.spec_children()[k] == (
                ch,
                j,
            ),
            r is None ==> forall|k: int|
                0 <= k < self.spec_children().len() ==> #[trigger] self.spec_children()[k].0
                    != ch,
    {
        let mut k: usize = 0;
        while k < self.children.len()
            invariant
                k <= self.children@.len(),
                forall|m: int| 0 <= m < k ==> #[trigger] self.children@[m].0 != ch,
            decreases self.children@.len() - k,
        {
            let (c, j) = self.children[k];
            if c == ch {
                assert(self.spec_children()[k as int] == (ch, j));
                return Some(j);
            }
            k += 1;
        }
        None
    }

    fn add_child(&mut self, ch: char, j: usize)
        ensures
            final(self).spec_children() == old(self).spec_children().push((ch, j)),
            final(self).spec_end() == old(self).spec_end(),
            final(self).spec_data() == old(self).spec_data(),
            final(self).spec_rank() == old(self).spec_rank(),
    {
        self.children.push((ch, j));
    }

    fn increment_rank(&mut self)
        requires
            old(self).spec_rank() < i32::MAX,
        ensures
            final(self).spec_rank() == old(self).spec_rank() + 1,
            final(self).spec_end() == old(self).spec_end(),
            final(self).spec_data() == old(self).spec_data(),
            final(self).spec_children() == old(self).spec_children(),
    {
        self.rank += 1;
    }

    fn set_data(&mut self, data: String)
        ensures
            final(self).spec_data() == data@,
            final(self).spec_end() == old(self).spec_end(),
            final(self).spec_rank() == old(self).spec_rank(),
            final(self).spec_children() == old(self).spec_children(),
    {
        self.data = data;
    }

    fn toggle_end(&mut self)
        ensures
            final(self).spec_end() == !old(self).spec_end(),
            final(self).spec_data() == old(self).spec_data(),
            final(self).spec_rank() == old(self).spec_rank(),
            final(self).spec_children() == old(self).spec_children(),
    {
        self.is_end = !self.is_end;
    }
}

/// The fields of a node agree with the path that reaches it.
pub open spec fn node_agrees(n: MwtNode, p: Seq<char>) -> bool {
    &&& n.spec_end() ==> n.spec_data() == p && 1 <= n.spec_rank()
    &&& !n.spec_end() ==> n.spec_rank() == 0 && n.spec_data().len() == 0
}

/// A trie of words, each with the number of times it was recorded.
///
/// The nodes are kept in an arena; the root is at index 0. `paths` gives the
/// characters that lead from the root to each node, and `index` is its
/// inverse.
pub struct Mwt {
    nodes: Vec<MwtNode>,
    paths: Ghost<Seq<Seq<char>>>,
    index: Ghost<Map<Seq<char>, int>>,
}

impl Mwt {
    pub closed spec fn size(&self) -> int {
        self.nodes@.len() as int
    }

    pub closed spec fn node(&self, i: int) -> MwtNode {
        self.nodes@[i]
    }

    pub closed spec fn path(&self, i: int) -> Seq<char> {
        self.paths@[i]
    }

    pub closed spec fn index(&self) -> Map<Seq<char>, int> {
        self.index@
    }

    pub closed spec fn num_paths(&self) -> int {
        self.paths@.len() as int
    }

    /// Node `i` has an edge labelled `c` to node `j`.
    pub open spec fn has_edge(&self, i: int, c: char, j: int) -> bool {
        exists|k: int|
            0 <= k < self.node(i).spec_children().len() && #[trigger] self.node(
                i,
            ).spec_children()[k] == (c, j as usize)
    }

    /// The shape of the trie: every node is reached from the root by exactly
    /// one path, every prefix of a path is itself the path of a node, each
    /// edge extends its parent's path by its character, and a node records a
    /// word exactly when it ends one.
    pub open spec fn shape_ok(&self) -> bool {
        &&& self.size() >= 1
        &&& self.index().dom().finite()
        &&& self.num_paths() == self.size()
        &&& self.path(0) == Seq::<char>::empty()
        &&& forall|i: int|
            0 <= i < self.size() ==> #[trigger] self.index().contains_key(self.path(i))
                && self.index()[self.path(i)] == i
        &&& forall|w: Seq<char>| #[trigger]
            self.index().contains_key(w) ==> 0 <= self.index()[w] < self.size() && self.path(
                self.index()[w],
            ) == w
        &&& forall|i: int, k: int|
            0 <= i < self.size() && 0 <= k < self.node(i).spec_children().len() ==> {
                let e = #[trigger] self.node(i).spec_children()[k];
                i < e.1 < self.size() && self.path(e.1 as int) == self.path(i).push(e.0)
            }
        &&& forall|i: int, k1: int, k2: int|
            0 <= i < self.size() && 0 <= k1 < k2 < self.node(i).spec_children().len()
                ==> #[trigger] self.node(i).spec_children()[k1].0 != #[trigger] self.node(
                i,
            ).spec_children()[k2].0
        &&& forall|i: int, c: char|
            0 <= i < self.size() && #[trigger] self.index().contains_key(self.path(i).push(c))
                ==> self.has_edge(i, c, self.index()[self.path(i).push(c)])
        &&& forall|i: int, n: int|
            0 <= i < self.size() && 0 <= n <= self.path(i).len() ==> #[trigger] self.index().contains_key(
                self.path(i).take(n),
            )
        &&& forall|i: int| 0 <= i < self.size() ==> node_agrees(#[trigger] self.node(i), self.path(i))
    }

    /// A trie in shape whose nodes, the root aside, each lie on the path of a
    /// recorded word: no node leads nowhere.
    pub open spec fn well_formed(&self) -> bool {
        &&& self.shape_ok()
        &&& forall|w: Seq<char>| #[trigger] self.index().contains_key(w) ==> on_word(self@, w)
    }

    /// An empty trie: a root that holds no word.
    pub fn new() -> (r: Mwt)
        ensures
            r.well_formed(),
            r@ == Map::<Seq<char>, int>::empty(),
            r.size() == 1,
            r.index().dom() == set![Seq::<char>::empty()],
            r.node(0).spec_children().len() == 0,
    {
        let r = Mwt {
            nodes: vec![MwtNode::new()],
            paths: Ghost(Seq::<Seq<char>>::empty().push(Seq::<char>::empty())),
            index: Ghost(Map::<Seq<char>, int>::empty().insert(Seq::<char>::empty(), 0)),
        };
        assert(r.path(0).take(0) =~= Seq::<char>::empty());
        assert(r@ =~= Map::<Seq<char>, int>::empty());
        assert(r.index().dom() =~= set![Seq::<char>::empty()]);
        r
    }
}

impl Mwt {
    /// The root, which stands for the empty prefix.
    pub fn get_root(&self) -> (r: &MwtNode)
        requires
            self.well_formed(),
        ensures
            *r == self.node(0),
    {
        &self.nodes[0]
    }

    /// The node at arena index `i`.
    pub fn get_node(&self, i: usize) -> (r: &MwtNode)
        requires
            self.well_formed(),
            i < self.size(),
        ensures
            *r == self.node(i as int),
    {
        &self.nodes[i]
    }

    /// Attaches a new empty child to node `cur` under `ch`, which it lacks.
    fn grow(&mut self, cur: usize, ch: char) -> (j: usize)
        requires
            old(self).shape_ok(),
            cur < old(self).size(),
            forall|k: int|
                0 <= k < old(self).node(cur as int).spec_children().len() ==> #[trigger] old(
                    self,
                ).node(cur as int).spec_children()[k].0 != ch,
        ensures
            final(self).shape_ok(),
            final(self)@ == old(self)@,
            !old(self).index().contains_key(old(self).path(cur as int).push(ch)),
            final(self).index() == old(self).index().insert(
                old(self).path(cur as int).push(ch),
                j as int,
            ),
            j == old(self).size(),
            final(self).size() == old(self).size() + 1,
            forall|x: int| 0 <= x < old(self).size() ==> #[trigger] final(self).path(x) == old(self).path(x),
            final(self).path(j as int) == old(self).path(cur as int).push(ch),
    {
        let ghost q = self.path(cur as int).push(ch);
        let ghost old_self = *self;
        proof {
            if self.index().contains_key(q) {
                assert(self.has_edge(cur as int, ch, self.index()[q]));
                let k = choose|k: int|
                    0 <= k < self.node(cur as int).spec_children().len() && #[trigger] self.node(
                        cur as int,
                    ).spec_children()[k] == (ch, self.index()[q] as usize);
                assert(self.node(cur as int).spec_children()[k].0 != ch);
            }
        }
        let j = self.nodes.len();
        self.nodes.push(MwtNode::new());
        self.nodes[cur].add_child(ch, j);
        self.paths = Ghost(self.paths@.push(q));
        self.index = Ghost(self.index@.insert(q, j as int));
        proof {
            assert(self.path(j as int) == q);
            assert forall|i: int| 0 <= i < self.size() implies #[trigger] self.index().contains_key(
                self.path(i),
            ) && self.index()[self.path(i)] == i by {
                if i < j {
                    assert(old_self.index().contains_key(old_self.path(i)));
                    assert(self.path(i) == old_self.path(i));
                }
            }
            assert forall|i: int, k: int|
                0 <= i < self.size() && 0 <= k < self.node(i).spec_children().len() implies {
                let e = #[trigger] self.node(i).spec_children()[k];
                i < e.1 < self.size() && self.path(e.1 as int) == self.path(i).push(e.0)
            } by {
                if i != cur && i < j {
                    assert(self.node(i) == old_self.node(i));
                    assert(old_self.node(i).spec_children()[k] == self.node(i).spec_children()[k]);
                } else if i == cur && k < old_self.node(i).spec_children().len() {
                    assert(old_self.node(i).spec_children()[k] == self.node(i).spec_children()[k]);
                }
            }
            assert forall|i: int, k1: int, k2: int|
                0 <= i < self.size() && 0 <= k1 < k2 < self.node(i).spec_children().len()
                    implies #[trigger] self.node(i).spec_children()[k1].0 != #[trigger] self.node(
                i,
            ).spec_children()[k2].0 by {
                if i != cur && i < j {
                    assert(self.node(i) == old_self.node(i));
                } else if i == cur {
                    assert(old_self.node(i).spec_children()[k1] == self.node(i).spec_children()[k1]);
                    if k2 < old_self.node(i).spec_children().len() {
                        assert(old_self.node(i).spec_children()[k2] == self.node(i).spec_children()[k2]);
                    }
                }
            }
            assert forall|i: int, c: char|
                0 <= i < self.size() && #[trigger] self.index().contains_key(self.path(i).push(c))
                    implies self.has_edge(i, c, self.index()[self.path(i).push(c)]) by {
                let pc = self.path(i).push(c);
                if pc == q {
                    assert(pc.drop_last() =~= self.path(i));
                    assert(q.drop_last() =~= old_self.path(cur as int));
                    if i == j {
                        assert(false);
                    }
                    assert(old_self.index().contains_key(old_self.path(i)));
                    assert(self.path(i) == old_self.path(cur as int));
                    assert(i == cur);
                    let k = old_self.node(cur as int).spec_children().len() as int;
                    assert(pc[pc.len() - 1] == c);
                    assert(q[q.len() - 1] == ch);
                    assert(self.node(i).spec_children()[k] == (c, j));
                } else {
                    if i == j {
                        assert(old_self.index().contains_key(pc));
                        let w = old_self.index()[pc];
                        assert(old_self.index().contains_key(old_self.path(w).take(q.len() as int)));
                        assert(old_self.path(w).take(q.len() as int) =~= q);
                        assert(false);
                    }
                    assert(self.path(i) == old_self.path(i));
                    assert(old_self.index().contains_key(old_self.path(i).push(c)));
                    assert(old_self.has_edge(i, c, old_self.index()[pc]));
                    let k = choose|k: int|
                        0 <= k < old_self.node(i).spec_children().len() && #[trigger] old_self.node(
                            i,
                        ).spec_children()[k] == (c, old_self.index()[pc] as usize);
                    assert(self.node(i).spec_children()[k] == old_self.node(i).spec_children()[k]);
                }
            }
            assert forall|i: int, n: int|
                0 <= i < self.size() && 0 <= n <= self.path(i).len() implies #[trigger] self.index().contains_key(
                self.path(i).take(n),
            ) by {
                if i == j {
                    if n < q.len() {
                        assert(q.take(n) =~= old_self.path(cur as int).take(n));
                    } else {
                        assert(q.take(n) =~= q);
                    }
                } else {
                    assert(self.path(i) == old_self.path(i));
                }
            }
            assert forall|i: int| 0 <= i < self.size() implies node_agrees(
                #[trigger] self.node(i),
                self.path(i),
            ) by {
                if i < j {
                    assert(self.path(i) == old_self.path(i));
                    assert(node_agrees(old_self.node(i), old_self.path(i)));
                }
            }
            assert(self@ =~= old_self@);
        }
        j
    }

    /// Records one more occurrence of `data`.
    ///
    /// Walks from the root along the characters of `data`, creating the nodes
    /// that are missing; the node reached ends the word and its count goes up
    /// by one. No other word changes.
    pub fn add_record(&mut self, data: String)
        requires
            old(self).well_formed(),
            freq(old(self)@, data@) < i32::MAX,
        ensures
            final(self).well_formed(),
            final(self)@ == recorded(old(self)@, data@),
            forall|w: Seq<char>|
                #[trigger] final(self).index().contains_key(w) <==> (old(self).index().contains_key(w)
                    || w.is_prefix_of(data@)),
            forall|x: int|
                0 <= x < old(self).size() ==> #[trigger] final(self).path(x) == old(self).path(x),
            final(self).size() == old(self).size() + missing_prefixes(
                old(self).index(),
                data@,
                data@.len(),
            ),
            old(self).index().contains_key(data@) ==> final(self).size() == old(self).size(),
    {
        let n = data.as_str().unicode_len();
        let mut cur: usize = 0;
        let mut i: usize = 0;
        proof {
            assert(data@.take(0) =~= Seq::<char>::empty());
        }
        while i < n
            invariant
                self.shape_ok(),
                n == data@.len(),
                i <= n,
                cur < self.size(),
                self.path(cur as int) == data@.take(i as int),
                self@ == old(self)@,
                forall|w: Seq<char>|
                    #[trigger] self.index().contains_key(w) <==> (old(self).index().contains_key(w)
                        || (w.is_prefix_of(data@) && w.len() <= i)),
                forall|x: int|
                    0 <= x < old(self).size() ==> #[trigger] self.path(x) == old(self).path(x),
                self.size() == old(self).size() + missing_prefixes(
                    old(self).index(),
                    data@,
                    i as nat,
                ),
            decreases n - i,
        {
            let ch = data.as_str().get_char(i);
            let found = self.nodes[cur].find_child(ch);
            let ghost q = data@.take(i + 1);
            proof {
                assert(q =~= data@.take(i as int).push(ch));
                assert forall|w: Seq<char>|
                    w.is_prefix_of(data@) && w.len() == i + 1 implies w == q by {
                    assert(w =~= q);
                }
            }
            match found {
                Some(j) => {
                    let ghost k = choose|k: int|
                        0 <= k < self.node(cur as int).spec_children().len() && #[trigger] self.node(
                            cur as int,
                        ).spec_children()[k] == (ch, j);
                    assert(self.node(cur as int).spec_children()[k] == (ch, j));
                    assert(self.index().contains_key(self.path(j as int)));
                    assert(old(self).index().contains_key(q));
                    cur = j;
                },
                None => {
                    cur = self.grow(cur, ch);
                },
            }
            proof {
                assert(q.is_prefix_of(data@));
            }
            i += 1;
        }
        proof {
            assert(data@.take(n as int) =~= data@);
        }
        let ghost before = *self;
        if !self.nodes[cur].get_end() {
            self.nodes[cur].toggle_end();
            self.nodes[cur].set_data(data);
        }
        proof {
            assert(self.index().contains_key(self.path(cur as int)));
            assert(node_agrees(before.node(cur as int), before.path(cur as int)));
        }
        self.nodes[cur].increment_rank();
        proof {
            assert forall|x: int| 0 <= x < self.size() && x != cur implies #[trigger] self.node(x)
                == before.node(x) by {}
            lemma_same_shape(&before, &*self);
            assert(self@ =~= recorded(old(self)@, data@));
            assert forall|x: int| 0 <= x < old(self).size() implies #[trigger] self.path(x) == old(
                self,
            ).path(x) by {
                assert(before.path(x) == old(self).path(x));
            }
            assert(data@.is_prefix_of(data@));
            assert forall|w: Seq<char>| #[trigger] self.index().contains_key(w) implies on_word(
                self@,
                w,
            ) by {
                if old(self).index().contains_key(w) {
                    assert(on_word(old(self)@, w));
                    if w.len() > 0 {
                        let x = choose|x: Seq<char>| #[trigger]
                            old(self)@.contains_key(x) && w.is_prefix_of(x);
                        assert(self@.contains_key(x));
                    }
                } else {
                    assert(self@.contains_key(data@));
                }
            }
            if old(self).index().contains_key(data@) {
                lemma_no_missing(old(self).index(), data@, data@.len());
            }
        }
    }
}

/// Changing what nodes record, while they keep agreeing with their paths,
/// leaves the trie well formed.
proof fn lemma_same_shape(a: &Mwt, b: &Mwt)
    requires
        a.shape_ok(),
        a.paths == b.paths,
        a.index == b.index,
        a.size() == b.size(),
        forall|i: int| 0 <= i < a.size() ==> (#[trigger] b.node(i)).spec_children() == a.node(i).spec_children(),
        forall|i: int| 0 <= i < a.size() ==> node_agrees(#[trigger] b.node(i), b.path(i)),
    ensures
        b.shape_ok(),
{
    assert forall|i: int| 0 <= i < b.size() implies #[trigger] b.index().contains_key(b.path(i))
        && b.index()[b.path(i)] == i by {
        assert(a.index().contains_key(a.path(i)));
    }
    assert forall|w: Seq<char>| #[trigger] b.index().contains_key(w) implies 0 <= b.index()[w]
        < b.size() && b.path(b.index()[w]) == w by {
        assert(a.index().contains_key(w));
    }
    assert forall|i: int, k: int|
        0 <= i < b.size() && 0 <= k < b.node(i).spec_children().len() implies {
        let e = #[trigger] b.node(i).spec_children()[k];
        i < e.1 < b.size() && b.path(e.1 as int) == b.path(i).push(e.0)
    } by {
        assert(a.node(i).spec_children()[k] == b.node(i).spec_children()[k]);
    }
    assert forall|i: int, k1: int, k2: int|
        0 <= i < b.size() && 0 <= k1 < k2 < b.node(i).spec_children().len()
            implies #[trigger] b.node(i).spec_children()[k1].0 != #[trigger] b.node(
        i,
    ).spec_children()[k2].0 by {
        assert(a.node(i).spec_children()[k1] == b.node(i).spec_children()[k1]);
        assert(a.node(i).spec_children()[k2] == b.node(i).spec_children()[k2]);
    }
    assert forall|i: int, c: char|
        0 <= i < b.size() && #[trigger] b.index().contains_key(b.path(i).push(c))
            implies b.has_edge(i, c, b.index()[b.path(i).push(c)]) by {
        assert(a.index().contains_key(a.path(i).push(c)));
        assert(a.has_edge(i, c, a.index()[a.path(i).push(c)]));
        let k = choose|k: int|
            0 <= k < a.node(i).spec_children().len() && #[trigger] a.node(
                i,
            ).spec_children()[k] == (c, a.index()[a.path(i).push(c)] as usize);
        assert(b.node(i).spec_children()[k] == a.node(i).spec_children()[k]);
    }
    assert forall|i: int, n: int|
        0 <= i < b.size() && 0 <= n <= b.path(i).len() implies #[trigger] b.index().contains_key(
        b.path(i).take(n),
    ) by {
        assert(a.index().contains_key(a.path(i).take(n)));
    }
}

/// A word ends at one node at most.
pub proof fn lemma_one_node_per_word(t: &Mwt, i: int, j: int)
    requires
        t.well_formed(),
        0 <= i < t.size(),
        0 <= j < t.size(),
        t.node(i).spec_end(),
        t.node(j).spec_end(),
        t.node(i).spec_data() == t.node(j).spec_data(),
    ensures
        i == j,
{
    assert(node_agrees(t.node(i), t.path(i)));
    assert(node_agrees(t.node(j), t.path(j)));
    assert(t.index().contains_key(t.path(i)));
    assert(t.index().contains_key(t.path(j)));
}

/// Only finitely many words are recorded, each at least once.
pub proof fn lemma_contents(t: &Mwt)
    requires
        t.well_formed(),
    ensures
        t@.dom().finite(),
        forall|w: Seq<char>| #[trigger] t@.contains_key(w) ==> 1 <= t@[w] <= i32::MAX,
{
    assert(t@.dom().subset_of(t.index().dom()));
    vstd::set_lib::lemma_set_subset_finite(t.index().dom(), t@.dom());
    assert forall|w: Seq<char>| #[trigger] t@.contains_key(w) implies 1 <= t@[w] <= i32::MAX by {
        assert(node_agrees(t.node(t.index()[w]), t.path(t.index()[w])));
    }
}

/// Node `i` has a child under `c` exactly when a recorded word begins with
/// node `i`'s path followed by `c`; so every child leads to a word.
pub proof fn lemma_child_iff_word(t: &Mwt, i: int, c: char)
    requires
        t.well_formed(),
        0 <= i < t.size(),
    ensures
        (exists|j: int| t.has_edge(i, c, j)) <==> exists|x: Seq<char>|
            #[trigger] t@.contains_key(x) && t.path(i).push(c).is_prefix_of(x),
{
    let q = t.path(i).push(c);
    if exists|j: int| t.has_edge(i, c, j) {
        let j = choose|j: int| t.has_edge(i, c, j);
        let k = choose|k: int|
            0 <= k < t.node(i).spec_children().len() && #[trigger] t.node(i).spec_children()[k] == (
                c,
                j as usize,
            );
        assert(t.node(i).spec_children()[k] == (c, j as usize));
        assert(t.path(j as usize as int) == q);
        assert(t.index().contains_key(t.path(j as usize as int)));
        assert(on_word(t@, q));
    }
    if exists|x: Seq<char>| #[trigger] t@.contains_key(x) && q.is_prefix_of(x) {
        let x = choose|x: Seq<char>| #[trigger] t@.contains_key(x) && q.is_prefix_of(x);
        let y = t.index()[x];
        assert(t.index().contains_key(t.path(y).take(q.len() as int)));
        assert(x.take(q.len() as int) =~= q);
        assert(t.has_edge(i, c, t.index()[q]));
    }
}

impl View for Mwt {
    type V = Map<Seq<char>, int>;

    /// Each recorded word with the number of times it was recorded.
    open spec fn view(&self) -> Map<Seq<char>, int> {
        Map::new(
            |w: Seq<char>| self.index().contains_key(w) && self.node(self.index()[w]).spec_end(),
            |w: Seq<char>| self.node(self.index()[w]).spec_rank(),
        )
    }
}

} // verus!
