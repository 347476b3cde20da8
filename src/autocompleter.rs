use vstd::prelude::*;

use crate::mwt::{freq, lemma_contents, on_word, recorded, Mwt};
use crate::order::{lemma_lex_connected, lemma_lex_transitive, lex_less, lex_lt};

verus! {

/// Length below which a prefix gets no completions.
pub const MIN_LEN: usize = 1;

/// Most completions a query hands back.
pub const ELEMENTS_TO_RETURN: usize = 10;

/// `w` is a recorded word of `m` that starts with `p`.
pub open spec fn completes(m: Map<Seq<char>, int>, p: Seq<char>, w: Seq<char>) -> bool {
    m.contains_key(w) && p.is_prefix_of(w)
}

/// Among the words of `m`, `a` ranks ahead of `b`: it was recorded more
/// often, or as often and sorts first.
pub open spec fn ranks_before(m: Map<Seq<char>, int>, a: Seq<char>, b: Seq<char>) -> bool {
    freq(m, a) > freq(m, b) || (freq(m, a) == freq(m, b) && lex_lt(a, b))
}

/// `r` is the answer to a query for prefix `p` on contents `m`: nothing for
/// an empty prefix; otherwise the completions of `p`, best ranked first, cut
/// after the first `ELEMENTS_TO_RETURN`.
pub open spec fn is_ranked_completion(
    m: Map<Seq<char>, int>,
    p: Seq<char>,
    r: Seq<Seq<char>>,
) -> bool {
    if p.len() < MIN_LEN {
        r.len() == 0
    } else {
        &&& r.len() <= ELEMENTS_TO_RETURN
        &&& forall|i: int| 0 <= i < r.len() ==> completes(m, p, #[trigger] r[i])
        &&& forall|i: int, j: int|
            0 <= i < j < r.len() ==> ranks_before(m, #[trigger] r[i], #[trigger] r[j])
        &&& forall|w: Seq<char>|
            completes(m, p, w) && !r.contains(w) ==> r.len() == ELEMENTS_TO_RETURN && forall|
                i: int,
            |
                0 <= i < r.len() ==> ranks_before(m, #[trigger] r[i], w)
    }
}

/// A word found under the prefix, with the number of times it was recorded.
struct SortResult {
    count: i32,
    data: String,
}

impl SortResult {
    fn new(count: i32, data: String) -> (r: SortResult)
        ensures
            r.count == count,
            r.data@ == data@,
    {
        SortResult { count, data }
    }
}

/// `e` is a completion of `p` in `m`, with its count.
spec fn entry_of(m: Map<Seq<char>, int>, p: Seq<char>, e: SortResult) -> bool {
    completes(m, p, e.data@) && m[e.data@] == e.count
}

/// No word occurs twice in `s`.
spec fn distinct_words(s: Seq<SortResult>) -> bool {
    forall|i: int, j: int| 0 <= i < j < s.len() ==> #[trigger] s[i].data@ != #[trigger] s[j].data@
}

/// The order of the final ranking on collected entries.
spec fn entry_before(a: SortResult, b: SortResult) -> bool {
    a.count > b.count || (a.count == b.count && lex_lt(a.data@, b.data@))
}

proof fn lemma_entry_total(a: SortResult, b: SortResult)
    requires
        a.data@ != b.data@,
    ensures
        entry_before(a, b) || entry_before(b, a),
{
    lemma_lex_connected(a.data@, b.data@);
}

proof fn lemma_entry_transitive(a: SortResult, b: SortResult, c: SortResult)
    requires
        entry_before(a, b),
        entry_before(b, c),
    ensures
        entry_before(a, c),
{
    if a.count == b.count && b.count == c.count {
        lemma_lex_transitive(a.data@, b.data@, c.data@, 0);
    }
}

/// Where node `cur`, reached by the first `i` characters of `p`, has no
/// child for the next one, no recorded word starts with `p`.
proof fn lemma_no_completion(trie: &Mwt, cur: int, ch: char, p: Seq<char>, i: int)
    requires
        trie.well_formed(),
        0 <= cur < trie.size(),
        0 <= i < p.len(),
        p[i] == ch,
        trie.path(cur) == p.take(i),
        forall|k: int|
            0 <= k < trie.node(cur).spec_children().len() ==> #[trigger] trie.node(
                cur,
            ).spec_children()[k].0 != ch,
    ensures
        forall|w: Seq<char>| !completes(trie@, p, w),
{
    let q = trie.path(cur).push(ch);
    if trie.index().contains_key(q) {
        assert(trie.has_edge(cur, ch, trie.index()[q]));
        let k = choose|k: int|
            0 <= k < trie.node(cur).spec_children().len() && #[trigger] trie.node(
                cur,
            ).spec_children()[k] == (ch, trie.index()[q] as usize);
        assert(trie.node(cur).spec_children()[k].0 != ch);
    }
    assert forall|w: Seq<char>| !completes(trie@, p, w) by {
        if completes(trie@, p, w) {
            let x = trie.index()[w];
            assert(trie.index().contains_key(trie.path(x).take(i + 1)));
            assert(w.take(i + 1) =~= q);
        }
    }
}

/// Word-trie completion: records words and ranks the completions of a prefix.
pub struct Autocompleter {
    trie: Mwt,
}

impl View for Autocompleter {
    type V = Map<Seq<char>, int>;

    /// Each recorded word with the number of times it was recorded.
    closed spec fn view(&self) -> Map<Seq<char>, int> {
        self.trie@
    }
}

impl Autocompleter {
    pub closed spec fn well_formed(&self) -> bool {
        self.trie.well_formed()
    }

    /// Only finitely many words are recorded, each at least once and at most
    /// `i32::MAX` times.
    pub proof fn lemma_contents(&self)
        requires
            self.well_formed(),
        ensures
            self@.dom().finite(),
            forall|w: Seq<char>| #[trigger] self@.contains_key(w) ==> 1 <= self@[w] <= i32::MAX,
    {
        lemma_contents(&self.trie);
    }

    /// An autocompleter that knows no words.
    pub fn new() -> (r: Autocompleter)
        ensures
            r.well_formed(),
            r@ == Map::<Seq<char>, int>::empty(),
    {
        Autocompleter { trie: Mwt::new() }
    }

    /// Records one more occurrence of `word`, taken as it is.
    pub fn add_word(&mut self, word: String)
        requires
            old(self).well_formed(),
            freq(old(self)@, word@) < i32::MAX,
        ensures
            final(self).well_formed(),
            final(self)@ == recorded(old(self)@, word@),
    {
        self.trie.add_record(word);
    }

    /// How many times `word` was recorded; zero when never.
    pub fn frequency(&self, word: &String) -> (r: i32)
        requires
            self.well_formed(),
        ensures
            r as int == freq(self@, word@),
    {
        let n = word.as_str().unicode_len();
        let mut cur: usize = 0;
        let mut i: usize = 0;
        proof {
            assert(word@.take(0) =~= Seq::<char>::empty());
        }
        while i < n
            invariant
                self.well_formed(),
                n == word@.len(),
                i <= n,
                cur < self.trie.size(),
                self.trie.path(cur as int) == word@.take(i as int),
            decreases n - i,
        {
            let ch = word.as_str().get_char(i);
            proof {
                assert(word@.take(i + 1int) =~= word@.take(i as int).push(ch));
            }
            match self.trie.get_node(cur).find_child(ch) {
                Some(j) => {
                    let ghost k = choose|k: int|
                        0 <= k < self.trie.node(cur as int).spec_children().len()
                            && #[trigger] self.trie.node(cur as int).spec_children()[k] == (ch, j);
                    assert(self.trie.node(cur as int).spec_children()[k] == (ch, j));
                    cur = j;
                },
                None => {
                    proof {
                        lemma_no_completion(&self.trie, cur as int, ch, word@, i as int);
                        assert(word@.is_prefix_of(word@));
                        assert(!completes(self.trie@, word@, word@));
                    }
                    return 0;
                },
            }
            i += 1;
        }
        proof {
            assert(word@.take(n as int) =~= word@);
            assert(self.trie.index().contains_key(self.trie.path(cur as int)));
        }
        self.trie.get_node(cur).get_rank()
    }

    /// Every completion of node `i`'s path: one entry per recorded word
    /// below it, node `i` included, in no particular order.
    fn depth_first_search(trie: &Mwt, i: usize) -> (r: Vec<SortResult>)
        requires
            trie.well_formed(),
            i < trie.size(),
        ensures
            forall|k: int| 0 <= k < r@.len() ==> entry_of(trie@, trie.path(i as int), #[trigger] r@[k]),
            forall|w: Seq<char>|
                completes(trie@, trie.path(i as int), w) ==> exists|k: int|
                    0 <= k < r@.len() && #[trigger] r@[k].data@ == w,
            distinct_words(r@),
            trie.path(i as int).len() > 0 ==> r@.len() > 0,
        decreases trie.size() - i,
    {
        let ghost m = trie@;
        let ghost p = trie.path(i as int);
        let mut ret: Vec<SortResult> = Vec::new();
        let nd = trie.get_node(i);
        proof {
            assert(trie.index().contains_key(p));
        }
        if nd.get_end() {
            ret.push(SortResult::new(nd.get_rank(), nd.get_data().clone()));
            proof {
                assert(ret@[0].data@ == p);
            }
        }
        let children = nd.get_children();
        let mut k: usize = 0;
        while k < children.len()
            invariant
                trie.well_formed(),
                i < trie.size(),
                m == trie@,
                p == trie.path(i as int),
                *nd == trie.node(i as int),
                children@ == nd.spec_children(),
                k <= children@.len(),
                forall|t: int| 0 <= t < ret@.len() ==> entry_of(m, p, #[trigger] ret@[t]),
                forall|t: int|
                    0 <= t < ret@.len() ==> #[trigger] ret@[t].data@ == p || (ret@[t].data@.len()
                        > p.len() && forall|k2: int|
                        k <= k2 < children@.len() ==> ret@[t].data@[p.len() as int]
                            != #[trigger] children@[k2].0),
                distinct_words(ret@),
                m.contains_key(p) ==> exists|t: int| 0 <= t < ret@.len() && #[trigger] ret@[t].data@ == p,
                forall|w: Seq<char>, k2: int|
                    0 <= k2 < k && #[trigger] completes(m, p.push(children@[k2].0), w) ==> exists|
                        t: int,
                    | 0 <= t < ret@.len() && #[trigger] ret@[t].data@ == w,
            decreases children@.len() - k,
        {
            let (c, j) = children[k];
            proof {
                assert(children@[k as int] == (c, j));
            }
            let mut sub = Self::depth_first_search(trie, j);
            let ghost q = p.push(c);
            let ghost old_ret = ret@;
            let ghost old_sub = sub@;
            proof {
                assert(trie.path(j as int) == q);
                assert forall|t: int| 0 <= t < old_sub.len() implies #[trigger] old_sub[t].data@.len()
                    > p.len() && old_sub[t].data@[p.len() as int] == c && p.is_prefix_of(old_sub[t].data@) by {
                    assert(q.is_prefix_of(old_sub[t].data@));
                    assert(q[p.len() as int] == c);
                    assert(old_sub[t].data@.subrange(0, p.len() as int) =~= q.subrange(0, p.len() as int));
                    assert(q.subrange(0, p.len() as int) =~= p);
                }
            }
            ret.append(&mut sub);
            proof {
                assert(ret@ == old_ret + old_sub);
                assert forall|t: int| 0 <= t < ret@.len() implies entry_of(m, p, #[trigger] ret@[t]) by {
                    if t >= old_ret.len() {
                        assert(ret@[t] == old_sub[t - old_ret.len()]);
                    }
                }
                assert forall|t: int|
                    0 <= t < ret@.len() implies #[trigger] ret@[t].data@ == p || (ret@[t].data@.len()
                        > p.len() && forall|k2: int|
                        k + 1 <= k2 < children@.len() ==> ret@[t].data@[p.len() as int]
                            != #[trigger] children@[k2].0) by {
                    if t >= old_ret.len() {
                        assert(ret@[t] == old_sub[t - old_ret.len()]);
                        assert forall|k2: int| k + 1 <= k2 < children@.len() implies ret@[t].data@[p.len() as int]
                            != #[trigger] children@[k2].0 by {
                            assert(trie.node(i as int).spec_children()[k as int].0 != trie.node(i as int).spec_children()[k2].0);
                        }
                    } else {
                        assert(ret@[t] == old_ret[t]);
                    }
                }
                assert forall|a: int, b: int| 0 <= a < b < ret@.len() implies #[trigger] ret@[a].data@
                    != #[trigger] ret@[b].data@ by {
                    if b >= old_ret.len() {
                        assert(ret@[b] == old_sub[b - old_ret.len()]);
                        if a >= old_ret.len() {
                            assert(ret@[a] == old_sub[a - old_ret.len()]);
                        } else {
                            assert(ret@[a] == old_ret[a]);
                            assert(children@[k as int].0 == c);
                        }
                    } else {
                        assert(ret@[a] == old_ret[a]);
                        assert(ret@[b] == old_ret[b]);
                    }
                }
                if m.contains_key(p) {
                    let t = choose|t: int| 0 <= t < old_ret.len() && #[trigger] old_ret[t].data@ == p;
                    assert(ret@[t] == old_ret[t]);
                }
                assert forall|w: Seq<char>, k2: int|
                    0 <= k2 < k + 1 && #[trigger] completes(m, p.push(children@[k2].0), w) implies exists|
                        t: int,
                    | 0 <= t < ret@.len() && #[trigger] ret@[t].data@ == w by {
                    if k2 < k {
                        let t = choose|t: int| 0 <= t < old_ret.len() && #[trigger] old_ret[t].data@ == w;
                        assert(ret@[t] == old_ret[t]);
                    } else {
                        assert(completes(m, trie.path(j as int), w));
                        let t = choose|t: int| 0 <= t < old_sub.len() && #[trigger] old_sub[t].data@ == w;
                        assert(ret@[t + old_ret.len()] == old_sub[t]);
                    }
                }
            }
            k += 1;
        }
        proof {
            assert forall|w: Seq<char>| completes(m, p, w) implies exists|t: int|
                0 <= t < ret@.len() && #[trigger] ret@[t].data@ == w by {
                if w.len() > p.len() {
                    let x = trie.index()[w];
                    assert(trie.index().contains_key(trie.path(x).take(p.len() + 1int)));
                    let q = w.take(p.len() + 1int);
                    assert(q =~= p.push(w[p.len() as int]));
                    assert(trie.index().contains_key(trie.path(i as int).push(w[p.len() as int])));
                    assert(trie.has_edge(i as int, w[p.len() as int], trie.index()[q]));
                    let k2 = choose|k2: int|
                        0 <= k2 < trie.node(i as int).spec_children().len() && #[trigger] trie.node(
                            i as int,
                        ).spec_children()[k2] == (w[p.len() as int], trie.index()[q] as usize);
                    assert(children@[k2] == (w[p.len() as int], trie.index()[q] as usize));
                    assert(q.is_prefix_of(w));
                    assert(completes(m, p.push(children@[k2].0), w));
                } else {
                    assert(w =~= p);
                }
            }
            if p.len() > 0 {
                assert(on_word(m, p));
                let x = choose|x: Seq<char>| #[trigger] m.contains_key(x) && p.is_prefix_of(x);
                assert(completes(m, p, x));
            }
        }
        ret
    }

    /// Whether `a` goes ahead of `b` in the ranking.
    fn goes_before(a: &SortResult, b: &SortResult) -> (r: bool)
        ensures
            r == entry_before(*a, *b),
    {
        a.count > b.count || (a.count == b.count && lex_less(a.data.as_str(), b.data.as_str()))
    }

    /// Sorts the collected entries best first: higher count first, and
    /// alphabetically among equal counts.
    fn rank_entries(v: Vec<SortResult>) -> (r: Vec<SortResult>)
        requires
            distinct_words(v@),
        ensures
            r@.len() == v@.len(),
            forall|t: int| 0 <= t < r@.len() ==> v@.contains(#[trigger] r@[t]),
            forall|s: int| 0 <= s < v@.len() ==> r@.contains(#[trigger] v@[s]),
            forall|a: int, b: int|
                0 <= a < b < r@.len() ==> entry_before(#[trigger] r@[a], #[trigger] r@[b]),
    {
        let ghost orig = v@;
        let mut src = v;
        let mut out: Vec<SortResult> = Vec::new();
        while src.len() > 0
            invariant
                distinct_words(orig),
                src@ == orig.take(src@.len() as int),
                src@.len() <= orig.len(),
                out@.len() + src@.len() == orig.len(),
                forall|t: int|
                    0 <= t < out@.len() ==> exists|s: int|
                        src@.len() <= s < orig.len() && orig[s] == #[trigger] out@[t],
                forall|s: int| src@.len() <= s < orig.len() ==> out@.contains(#[trigger] orig[s]),
                forall|a: int, b: int|
                    0 <= a < b < out@.len() ==> entry_before(#[trigger] out@[a], #[trigger] out@[b]),
            decreases src@.len(),
        {
            let ghost n = src@.len() - 1;
            let x = match src.pop() {
                Some(x) => x,
                None => { return out; },
            };
            proof {
                assert(x == orig[n]);
                assert(src@ =~= orig.take(n));
            }
            proof {
                assert forall|t: int| 0 <= t < out@.len() implies #[trigger] out@[t].data@ != x.data@ by {
                    let s = choose|s: int| n + 1 <= s < orig.len() && orig[s] == #[trigger] out@[t];
                    assert(orig[n].data@ != orig[s].data@);
                }
            }
            let mut pos: usize = 0;
            while pos < out.len() && !Self::goes_before(&x, &out[pos])
                invariant
                    pos <= out@.len(),
                    forall|t: int| 0 <= t < out@.len() ==> #[trigger] out@[t].data@ != x.data@,
                    forall|t: int| 0 <= t < pos ==> entry_before(#[trigger] out@[t], x),
                decreases out@.len() - pos,
            {
                proof {
                    lemma_entry_total(out@[pos as int], x);
                }
                pos += 1;
            }
            let ghost old_out = out@;
            out.insert(pos, x);
            proof {
                assert forall|t: int|
                    0 <= t < out@.len() implies exists|s: int|
                        n <= s < orig.len() && orig[s] == #[trigger] out@[t] by {
                    if t < pos {
                        assert(out@[t] == old_out[t]);
                    } else if t > pos {
                        assert(out@[t] == old_out[t - 1]);
                    } else {
                        assert(orig[n] == out@[t]);
                    }
                }
                assert forall|s: int| n <= s < orig.len() implies out@.contains(#[trigger] orig[s]) by {
                    if s == n {
                        assert(out@[pos as int] == x);
                    } else {
                        assert(old_out.contains(orig[s]));
                        let t = choose|t: int| 0 <= t < old_out.len() && old_out[t] == orig[s];
                        if t < pos {
                            assert(out@[t] == old_out[t]);
                        } else {
                            assert(out@[t + 1] == old_out[t]);
                        }
                    }
                }
                assert forall|a: int, b: int|
                    0 <= a < b < out@.len() implies entry_before(#[trigger] out@[a], #[trigger] out@[b]) by {
                    if b < pos {
                        assert(out@[a] == old_out[a] && out@[b] == old_out[b]);
                    } else if b == pos {
                        assert(out@[a] == old_out[a]);
                    } else if a < pos {
                        assert(out@[a] == old_out[a] && out@[b] == old_out[b - 1]);
                    } else if a == pos {
                        assert(out@[b] == old_out[b - 1]);
                        assert(entry_before(x, old_out[pos as int]));
                        if b - 1 > pos {
                            assert(entry_before(old_out[pos as int], old_out[b - 1]));
                            lemma_entry_transitive(x, old_out[pos as int], old_out[b - 1]);
                        }
                    } else {
                        assert(out@[a] == old_out[a - 1] && out@[b] == old_out[b - 1]);
                    }
                }
            }
        }
        proof {
            assert(orig.take(0) =~= src@);
        }
        out
    }

    /// The completions of `prefix`, most frequent first and alphabetical
    /// among equals, at most `ELEMENTS_TO_RETURN` of them.
    ///
    /// Descends from the root along the characters of `prefix`, collects
    /// every recorded word below the node reached, ranks them and keeps the
    /// best. An empty prefix, or one that no recorded word starts with, gets
    /// no completions.
    pub fn predict_completions(&self, prefix: &String) -> (r: Vec<String>)
        requires
            self.well_formed(),
        ensures
            is_ranked_completion(self@, prefix@, r@.map_values(|s: String| s@)),
    {
        let ghost m = self@;
        let ghost p = prefix@;
        let mut res: Vec<String> = Vec::new();
        let n = prefix.as_str().unicode_len();
        if n >= MIN_LEN {
            let mut cur: usize = 0;
            let mut i: usize = 0;
            proof {
                assert(p.take(0) =~= Seq::<char>::empty());
            }
            while i < n
                invariant
                    self.well_formed(),
                    m == self.trie@,
                    p == prefix@,
                    n == p.len(),
                    i <= n,
                    cur < self.trie.size(),
                    self.trie.path(cur as int) == p.take(i as int),
                    res@.len() == 0,
                decreases n - i,
            {
                let ch = prefix.as_str().get_char(i);
                proof {
                    assert(p.take(i + 1int) =~= p.take(i as int).push(ch));
                }
                match self.trie.get_node(cur).find_child(ch) {
                    Some(j) => {
                        let ghost k = choose|k: int|
                            0 <= k < self.trie.node(cur as int).spec_children().len()
                                && #[trigger] self.trie.node(cur as int).spec_children()[k] == (ch, j);
                        assert(self.trie.node(cur as int).spec_children()[k] == (ch, j));
                        cur = j;
                    },
                    None => {
                        proof {
                            lemma_no_completion(&self.trie, cur as int, ch, p, i as int);
                            assert(res@.map_values(|s: String| s@) =~= Seq::<Seq<char>>::empty());
                        }
                        return res;
                    },
                }
                i += 1;
            }
            proof {
                assert(p.take(n as int) =~= p);
            }
            let dfs_results = Self::depth_first_search(&self.trie, cur);
            let sorted = Self::rank_entries(dfs_results);
            let num_to_ret = if sorted.len() < ELEMENTS_TO_RETURN {
                sorted.len()
            } else {
                ELEMENTS_TO_RETURN
            };
            let mut ind: usize = 0;
            while ind < num_to_ret
                invariant
                    ind <= num_to_ret,
                    num_to_ret <= sorted@.len(),
                    res@.len() == ind,
                    forall|t: int| 0 <= t < ind ==> (#[trigger] res@[t])@ == sorted@[t].data@,
                decreases num_to_ret - ind,
            {
                res.push(sorted[ind].data.clone());
                ind += 1;
            }
            proof {
                let r = res@.map_values(|s: String| s@);
                assert forall|t: int| 0 <= t < sorted@.len() implies entry_of(m, p, #[trigger] sorted@[t]) by {
                    assert(dfs_results@.contains(sorted@[t]));
                }
                assert forall|t: int| 0 <= t < r.len() implies completes(m, p, #[trigger] r[t]) by {
                    assert(entry_of(m, p, sorted@[t]));
                }
                assert forall|a: int, b: int| 0 <= a < b < r.len() implies ranks_before(m, #[trigger] r[a], #[trigger] r[b]) by {
                    assert(entry_before(sorted@[a], sorted@[b]));
                    assert(entry_of(m, p, sorted@[a]));
                    assert(entry_of(m, p, sorted@[b]));
                }
                assert forall|w: Seq<char>| completes(m, p, w) && !r.contains(w) implies r.len() == ELEMENTS_TO_RETURN && forall|t: int|
                    0 <= t < r.len() ==> ranks_before(m, #[trigger] r[t], w) by {
                    let k = choose|k: int| 0 <= k < dfs_results@.len() && #[trigger] dfs_results@[k].data@ == w;
                    assert(sorted@.contains(dfs_results@[k]));
                    let s = choose|s: int| 0 <= s < sorted@.len() && sorted@[s] == dfs_results@[k];
                    if s < num_to_ret {
                        assert(r[s] == w);
                    }
                    assert forall|t: int| 0 <= t < r.len() implies ranks_before(m, #[trigger] r[t], w) by {
                        assert(entry_before(sorted@[t], sorted@[s]));
                        assert(entry_of(m, p, sorted@[t]));
                        assert(entry_of(m, p, sorted@[s]));
                    }
                }
            }
        }
        res
    }
}

} // verus!
