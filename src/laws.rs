use vstd::prelude::*;

use crate::autocompleter::{is_ranked_completion, completes, ranks_before, ELEMENTS_TO_RETURN};
use crate::mwt::{freq, recorded};
use crate::order::{lemma_lex_asymmetric, lemma_lex_irreflexive, lex_lt};

verus! {

/// The contents after recording `w` `n` times over.
pub open spec fn recorded_times(m: Map<Seq<char>, int>, w: Seq<char>, n: nat) -> Map<
    Seq<char>,
    int,
>
    decreases n,
{
    if n == 0 {
        m
    } else {
        recorded(recorded_times(m, w, (n - 1) as nat), w)
    }
}

/// Recording a word `n` times raises its count by exactly `n` and leaves
/// every other word alone; from a word never seen, `n >= 1` recordings give
/// one entry with count `n`.
pub proof fn lemma_repeated_record(m: Map<Seq<char>, int>, w: Seq<char>, n: nat)
    ensures
        freq(recorded_times(m, w, n), w) == freq(m, w) + n,
        forall|x: Seq<char>| x != w ==> freq(recorded_times(m, w, n), x) == freq(m, x),
        n >= 1 ==> recorded_times(m, w, n).contains_key(w),
        n >= 1 && !m.contains_key(w) ==> recorded_times(m, w, n)[w] == n,
    decreases n,
{
    if n > 0 {
        lemma_repeated_record(m, w, (n - 1) as nat);
    }
}

/// Words are told apart by their exact characters: recording `a` leaves the
/// count of any other word `b`, one that differs only in case included,
/// unchanged.
pub proof fn lemma_record_independent(m: Map<Seq<char>, int>, a: Seq<char>, b: Seq<char>)
    requires
        a != b,
    ensures
        freq(recorded(m, a), a) == freq(m, a) + 1,
        freq(recorded(m, a), b) == freq(m, b),
{
}

/// A prefix that no recorded word starts with gets no completions.
pub proof fn lemma_prefix_miss(m: Map<Seq<char>, int>, p: Seq<char>, r: Seq<Seq<char>>)
    requires
        is_ranked_completion(m, p, r),
        forall|w: Seq<char>| !completes(m, p, w),
    ensures
        r.len() == 0,
{
    if r.len() > 0 {
        assert(completes(m, p, r[0]));
    }
}

/// The empty prefix gets no completions, whatever was recorded.
pub proof fn lemma_empty_prefix(m: Map<Seq<char>, int>, r: Seq<Seq<char>>)
    requires
        is_ranked_completion(m, Seq::<char>::empty(), r),
    ensures
        r.len() == 0,
{
}

/// In an answer, counts never rise from one element to the next, and
/// elements of equal count stand in alphabetical order.
pub proof fn lemma_ranking_order(m: Map<Seq<char>, int>, p: Seq<char>, r: Seq<Seq<char>>)
    requires
        is_ranked_completion(m, p, r),
    ensures
        forall|i: int|
            0 <= i < r.len() - 1 ==> freq(m, #[trigger] r[i]) >= freq(m, r[i + 1]) && (freq(m, r[i])
                == freq(m, r[i + 1]) ==> lex_lt(r[i], r[i + 1])),
{
    assert forall|i: int| 0 <= i < r.len() - 1 implies freq(m, #[trigger] r[i]) >= freq(m, r[i + 1])
        && (freq(m, r[i]) == freq(m, r[i + 1]) ==> lex_lt(r[i], r[i + 1])) by {
        assert(ranks_before(m, r[i], r[i + 1]));
    }
}

/// No answer holds more than `ELEMENTS_TO_RETURN` words.
pub proof fn lemma_bounded_answer(m: Map<Seq<char>, int>, p: Seq<char>, r: Seq<Seq<char>>)
    requires
        is_ranked_completion(m, p, r),
    ensures
        r.len() <= ELEMENTS_TO_RETURN,
{
}

proof fn lemma_rank_strict(m: Map<Seq<char>, int>, a: Seq<char>, b: Seq<char>)
    ensures
        !ranks_before(m, a, a),
        ranks_before(m, a, b) ==> !ranks_before(m, b, a),
{
    lemma_lex_irreflexive(a, 0);
    if lex_lt(a, b) {
        lemma_lex_asymmetric(a, b, 0);
    }
}

/// Where two answers agree below position `x`, the one at `x` in `r2` is
/// the same or ranks ahead of the one in `r1`.
proof fn lemma_one_way(
    m: Map<Seq<char>, int>,
    p: Seq<char>,
    r1: Seq<Seq<char>>,
    r2: Seq<Seq<char>>,
    x: int,
)
    requires
        p.len() >= 1,
        is_ranked_completion(m, p, r1),
        is_ranked_completion(m, p, r2),
        0 <= x < r1.len(),
        x < r2.len(),
        forall|k: int| 0 <= k < x ==> r1[k] == r2[k],
    ensures
        r1[x] == r2[x] || ranks_before(m, r2[x], r1[x]),
{
    let a = r1[x];
    let b = r2[x];
    if a != b {
        assert(completes(m, p, r1[x]));
        if r2.contains(a) {
            let j = choose|j: int| 0 <= j < r2.len() && r2[j] == a;
            if j < x {
                assert(ranks_before(m, r1[j], r1[x]));
                lemma_rank_strict(m, a, a);
            } else {
                assert(j != x);
                assert(ranks_before(m, r2[x], r2[j]));
            }
        } else {
            assert(ranks_before(m, r2[x], a));
        }
    }
}

/// The answer for a prefix is fully determined: two sequences that both meet
/// the description of a ranked completion are equal.
pub proof fn lemma_answer_unique(
    m: Map<Seq<char>, int>,
    p: Seq<char>,
    r1: Seq<Seq<char>>,
    r2: Seq<Seq<char>>,
)
    requires
        is_ranked_completion(m, p, r1),
        is_ranked_completion(m, p, r2),
    ensures
        r1 == r2,
{
    if p.len() >= 1 {
        lemma_agree_below(m, p, r1, r2, if r1.len() < r2.len() { r1.len() } else { r2.len() });
        if r1.len() < r2.len() {
            lemma_longer_answer(m, p, r1, r2);
        } else if r2.len() < r1.len() {
            lemma_longer_answer(m, p, r2, r1);
        }
    }
    assert(r1 =~= r2);
}

proof fn lemma_agree_below(
    m: Map<Seq<char>, int>,
    p: Seq<char>,
    r1: Seq<Seq<char>>,
    r2: Seq<Seq<char>>,
    n: nat,
)
    requires
        p.len() >= 1,
        is_ranked_completion(m, p, r1),
        is_ranked_completion(m, p, r2),
        n <= r1.len(),
        n <= r2.len(),
    ensures
        forall|k: int| 0 <= k < n ==> r1[k] == r2[k],
    decreases n,
{
    if n > 0 {
        let x = n - 1;
        lemma_agree_below(m, p, r1, r2, x as nat);
        lemma_one_way(m, p, r1, r2, x);
        lemma_one_way(m, p, r2, r1, x);
        lemma_rank_strict(m, r1[x], r2[x]);
    }
}

/// Two answers that agree on the shorter one's length have equal length.
proof fn lemma_longer_answer(
    m: Map<Seq<char>, int>,
    p: Seq<char>,
    r1: Seq<Seq<char>>,
    r2: Seq<Seq<char>>,
)
    requires
        p.len() >= 1,
        is_ranked_completion(m, p, r1),
        is_ranked_completion(m, p, r2),
        r1.len() <= r2.len(),
        forall|k: int| 0 <= k < r1.len() ==> r1[k] == r2[k],
    ensures
        r1.len() == r2.len(),
{
    if r1.len() < r2.len() {
        let n = r1.len() as int;
        let w = r2[n];
        assert(completes(m, p, r2[n]));
        if r1.contains(w) {
            let k = choose|k: int| 0 <= k < r1.len() && r1[k] == w;
            assert(ranks_before(m, r2[k], r2[n]));
            lemma_rank_strict(m, w, w);
        }
    }
}

} // verus!
