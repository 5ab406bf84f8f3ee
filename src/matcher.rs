use vstd::prelude::*;

verus! {

/// The Damerau-Levenshtein distance between two character sequences.
pub uninterp spec fn dl_distance(a: Seq<char>, b: Seq<char>) -> nat;

/// Relies on `strsim::damerau_levenshtein` for the edit distance of the two
/// strings, counted over chars. Identical strings are at distance zero, as
/// strsim's normalised form of the same distance documents (1.0 for equal
/// strings).
#[verifier::external_body]
fn damerau_levenshtein(a: &str, b: &str) -> (r: usize)
    ensures
        r == dl_distance(a@, b@),
        a@ == b@ ==> r == 0,
{
    strsim::damerau_levenshtein(a, b)
}

/// The length that a distance is normalised by; a pair of empty strings
/// counts as length one.
pub open spec fn scale(longest: nat) -> nat {
    if longest == 0 {
        1
    } else {
        longest
    }
}

/// Score `a` is at least as similar as score `b`. A score is a pair
/// (distance, length of the longer string) standing for the similarity
/// `1 - distance / scale(length)`.
pub open spec fn at_least_as_similar(a: (nat, nat), b: (nat, nat)) -> bool {
    a.0 * scale(b.1) <= b.0 * scale(a.1)
}

/// Entry `i` is ranked before entry `j`: it is strictly more similar, or
/// equally similar and earlier in the list.
pub open spec fn ranks_before(s: Seq<(nat, nat)>, i: int, j: int) -> bool {
    let l = s[i].0 * scale(s[j].1);
    let r = s[j].0 * scale(s[i].1);
    l < r || (l == r && i < j)
}

/// `r` is the ranking of the scores `s` cut to `limit` entries: the best
/// `min(limit, |s|)` indices, best first.
pub open spec fn is_ranking(s: Seq<(nat, nat)>, limit: nat, r: Seq<usize>) -> bool {
    &&& r.len() == if limit < s.len() { limit } else { s.len() }
    &&& forall|p: int| 0 <= p < r.len() ==> #[trigger] r[p] < s.len()
    &&& forall|p: int, q: int|
        0 <= p < q < r.len() ==> ranks_before(s, #[trigger] r[p] as int, #[trigger] r[q] as int)
    &&& forall|p: int, x: int|
        0 <= p < r.len() && 0 <= x < s.len() && !r.contains(x as usize) ==> #[trigger] ranks_before(s, r[p] as int, x)
}

/// Scores held as machine integers, seen as naturals.
pub open spec fn as_scores(v: Seq<(usize, usize)>) -> Seq<(nat, nat)> {
    Seq::new(v.len(), |i: int| (v[i].0 as nat, v[i].1 as nat))
}

/// The texts of a list of strings.
pub open spec fn texts(v: Seq<String>) -> Seq<Seq<char>> {
    Seq::new(v.len(), |i: int| v[i]@)
}

/// The score of each candidate against the query.
pub open spec fn scores_of(query: Seq<char>, candidates: Seq<Seq<char>>) -> Seq<(nat, nat)> {
    Seq::new(
        candidates.len(),
        |i: int|
            (
                dl_distance(query, candidates[i]),
                if query.len() < candidates[i].len() {
                    candidates[i].len()
                } else {
                    query.len()
                },
            ),
    )
}

proof fn lemma_cross(a: nat, b: nat, c: nat, d: nat, e: nat, f: nat)
    requires
        b > 0,
        d > 0,
        f > 0,
        a * d <= c * b,
        c * f <= e * d,
    ensures
        a * f <= e * b,
        (a * d < c * b || c * f < e * d) ==> a * f < e * b,
{
    assert(a * d * f <= c * b * f) by (nonlinear_arith)
        requires
            a * d <= c * b,
    ;
    assert(c * f * b <= e * d * b) by (nonlinear_arith)
        requires
            c * f <= e * d,
    ;
    assert(a * d * f == (a * f) * d) by (nonlinear_arith);
    assert(c * b * f == c * f * b) by (nonlinear_arith);
    assert(e * d * b == (e * b) * d) by (nonlinear_arith);
    assert(a * f <= e * b) by (nonlinear_arith)
        requires
            (a * f) * d <= (e * b) * d,
            d > 0,
    ;
    if a * d < c * b {
        assert(a * d * f < c * b * f) by (nonlinear_arith)
            requires
                a * d < c * b,
                f > 0,
        ;
    }
    if c * f < e * d {
        assert(c * f * b < e * d * b) by (nonlinear_arith)
            requires
                c * f < e * d,
                b > 0,
        ;
    }
    if a * d < c * b || c * f < e * d {
        assert(a * f < e * b) by (nonlinear_arith)
            requires
                (a * f) * d < (e * b) * d,
                d > 0,
        ;
    }
}

/// Ranking is transitive.
pub proof fn lemma_ranks_before_transitive(s: Seq<(nat, nat)>, i: int, j: int, k: int)
    requires
        0 <= i < s.len(),
        0 <= j < s.len(),
        0 <= k < s.len(),
        ranks_before(s, i, j),
        ranks_before(s, j, k),
    ensures
        ranks_before(s, i, k),
{
    lemma_cross(s[i].0, scale(s[i].1), s[j].0, scale(s[j].1), s[k].0, scale(s[k].1));
}

/// Ranking is total on distinct entries, and never ranks both ways.
pub proof fn lemma_ranks_before_total(s: Seq<(nat, nat)>, i: int, j: int)
    requires
        0 <= i < s.len(),
        0 <= j < s.len(),
    ensures
        i != j ==> (ranks_before(s, i, j) || ranks_before(s, j, i)),
        !(ranks_before(s, i, j) && ranks_before(s, j, i)),
        !ranks_before(s, i, i),
{
}

fn product(a: usize, b: usize) -> (r: u128)
    ensures
        r == a as nat * b as nat,
{
    let x: u128 = a as u128;
    let y: u128 = b as u128;
    assert(x * y <= u64::MAX as nat * u64::MAX as nat) by (nonlinear_arith)
        requires
            x <= u64::MAX,
            y <= u64::MAX,
    ;
    x * y
}

fn scaled(longest: usize) -> (r: usize)
    ensures
        r == scale(longest as nat),
{
    if longest == 0 {
        1
    } else {
        longest
    }
}

fn ranks_before_exec(scores: &Vec<(usize, usize)>, i: usize, j: usize) -> (r: bool)
    requires
        i < scores@.len(),
        j < scores@.len(),
    ensures
        r == ranks_before(as_scores(scores@), i as int, j as int),
{
    let l = product(scores[i].0, scaled(scores[j].1));
    let r = product(scores[j].0, scaled(scores[i].1));
    l < r || (l == r && i < j)
}

/// The indices of the best `limit` scores, best first: the most similar come
/// first, and of equally similar scores the earlier one.
pub fn rank_scored(scores: &Vec<(usize, usize)>, limit: usize) -> (r: Vec<usize>)
    ensures
        is_ranking(as_scores(scores@), limit as nat, r@),
{
    let ghost s = as_scores(scores@);
    let n = scores.len();
    let k = if limit < n {
        limit
    } else {
        n
    };
    let mut rest: Vec<usize> = Vec::new();
    let mut i: usize = 0;
    while i < n
        invariant
            i <= n,
            rest@.len() == i,
            forall|t: int| 0 <= t < i ==> #[trigger] rest@[t] == t,
        decreases n - i,
    {
        rest.push(i);
        i += 1;
    }
    assert(rest@.no_duplicates());
    assert forall|x: int| 0 <= x < n implies #[trigger] rest@.contains(x as usize) by {
        assert(rest@[x] == x as usize);
    }
    let mut r: Vec<usize> = Vec::new();
    while r.len() < k
        invariant
            n == scores@.len(),
            s == as_scores(scores@),
            k == if limit < n { limit } else { n },
            k <= n,
            r@.len() <= k,
            rest@.len() + r@.len() == n,
            rest@.no_duplicates(),
            forall|t: int| 0 <= t < rest@.len() ==> #[trigger] rest@[t] < n,
            forall|x: int|
                0 <= x < n ==> (#[trigger] rest@.contains(x as usize) <==> !r@.contains(x as usize)),
            forall|p: int| 0 <= p < r@.len() ==> #[trigger] r@[p] < n,
            forall|p: int, q: int|
                0 <= p < q < r@.len() ==> ranks_before(
                    s,
                    #[trigger] r@[p] as int,
                    #[trigger] r@[q] as int,
                ),
            forall|p: int, x: int|
                0 <= p < r@.len() && 0 <= x < n && !r@.contains(x as usize) ==> #[trigger] ranks_before(s, r@[p] as int, x),
        decreases k - r@.len(),
    {
        let mut best: usize = 0;
        let mut j: usize = 1;
        while j < rest.len()
            invariant
                n == scores@.len(),
                s == as_scores(scores@),
                0 < rest@.len(),
                rest@.no_duplicates(),
                forall|t: int| 0 <= t < rest@.len() ==> #[trigger] rest@[t] < n,
                best < j <= rest@.len(),
                forall|t: int|
                    0 <= t < j && t != best ==> ranks_before(
                        s,
                        rest@[best as int] as int,
                        #[trigger] rest@[t] as int,
                    ),
            decreases rest@.len() - j,
        {
            if ranks_before_exec(scores, rest[j], rest[best]) {
                assert forall|t: int| 0 <= t < j + 1 && t != j implies ranks_before(
                    s,
                    rest@[j as int] as int,
                    #[trigger] rest@[t] as int,
                ) by {
                    if t != best {
                        lemma_ranks_before_transitive(
                            s,
                            rest@[j as int] as int,
                            rest@[best as int] as int,
                            rest@[t] as int,
                        );
                    }
                }
                best = j;
            } else {
                proof {
                    lemma_ranks_before_total(s, rest@[j as int] as int, rest@[best as int] as int);
                }
            }
            j += 1;
        }
        let ghost c = rest@[best as int];
        assert(rest@.contains(c));
        assert(rest@.contains((c as int) as usize));
        assert(!r@.contains(c));
        let ghost old_rest = rest@;
        let ghost old_r = r@;
        let chosen = rest.remove(best);
        assert(old_rest.contains(chosen));
        r.push(chosen);
        assert forall|x: int| 0 <= x < n implies (#[trigger] rest@.contains(x as usize) <==> !r@.contains(
            x as usize,
        )) by {
            if rest@.contains(x as usize) {
                let t = choose|t: int| 0 <= t < rest@.len() && rest@[t] == x as usize;
                if t < best {
                    assert(old_rest[t] == x);
                } else {
                    assert(old_rest[t + 1] == x);
                }
                assert(old_rest.contains(x as usize));
                assert(x as usize != chosen);
                if r@.contains(x as usize) {
                    let p = choose|p: int| 0 <= p < r@.len() && r@[p] == x as usize;
                    assert(old_r[p] == x);
                }
            } else {
                if x as usize != chosen {
                    if old_rest.contains(x as usize) {
                        let t = choose|t: int| 0 <= t < old_rest.len() && old_rest[t] == x as usize;
                        if t < best {
                            assert(rest@[t] == x);
                        } else {
                            assert(rest@[t - 1] == x);
                        }
                    } else {
                        let p = choose|p: int| 0 <= p < old_r.len() && old_r[p] == x as usize;
                        assert(r@[p] == x);
                    }
                } else {
                    assert(r@[old_r.len() as int] == x);
                }
            }
        }
        assert forall|p: int, x: int|
            0 <= p < r@.len() && 0 <= x < n && !r@.contains(x as usize) implies #[trigger] ranks_before(s, r@[p] as int, x) by {
            assert(rest@.contains(x as usize));
            let t = choose|t: int| 0 <= t < rest@.len() && rest@[t] == x as usize;
            if !old_r.contains(x as usize) {
                if p < old_r.len() {
                    assert(r@[p] == old_r[p]);
                }
            }
            if t < best {
                assert(old_rest[t] == x);
            } else {
                assert(old_rest[t + 1] == x);
            }
            assert(!old_r.contains(x as usize)) by {
                if old_r.contains(x as usize) {
                    let q = choose|q: int| 0 <= q < old_r.len() && old_r[q] == x as usize;
                    assert(r@[q] == x);
                }
            }
        }
        assert forall|p: int, q: int| 0 <= p < q < r@.len() implies ranks_before(
            s,
            #[trigger] r@[p] as int,
            #[trigger] r@[q] as int,
        ) by {
            if q == old_r.len() {
                assert(!old_r.contains(chosen));
                assert(r@[p] == old_r[p]);
            } else {
                assert(r@[p] == old_r[p]);
                assert(r@[q] == old_r[q]);
            }
        }
    }
    r
}

/// The indices of the `n` candidates most similar to `input`, most similar
/// first; of equally similar candidates the earlier comes first.
pub fn find_closest(input: &str, options: &[String], n: usize) -> (r: Vec<usize>)
    ensures
        is_ranking(scores_of(input@, texts(options@)), n as nat, r@),
        forall|p: int, q: int| 0 <= p < q < r@.len() ==> #[trigger] r@[p] != #[trigger] r@[q],
        forall|p: int, q: int|
            0 <= p < q < r@.len() ==> at_least_as_similar(
                #[trigger] scores_of(input@, texts(options@))[r@[p] as int],
                #[trigger] scores_of(input@, texts(options@))[r@[q] as int],
            ),
        forall|j: int|
            0 <= j < options@.len() && #[trigger] options@[j]@ == input@ && n > 0 ==> {
                &&& scores_of(input@, texts(options@))[r@[0] as int].0 == 0
                &&& r@[0] <= j
            },
{
    let ghost s = scores_of(input@, texts(options@));
    let input_len = input.unicode_len();
    let mut scores: Vec<(usize, usize)> = Vec::new();
    let mut i: usize = 0;
    while i < options.len()
        invariant
            s == scores_of(input@, texts(options@)),
            input_len == input@.len(),
            i <= options@.len(),
            scores@.len() == i,
            forall|t: int|
                0 <= t < i ==> (#[trigger] scores@[t]).0 as nat == s[t].0 && scores@[t].1 as nat
                    == s[t].1,
            forall|t: int| 0 <= t < i && options@[t]@ == input@ ==> #[trigger] scores@[t].0 == 0,
        decreases options@.len() - i,
    {
        let text = options[i].as_str();
        let distance = damerau_levenshtein(input, text);
        let text_len = text.unicode_len();
        let longest = if input_len < text_len {
            text_len
        } else {
            input_len
        };
        scores.push((distance, longest));
        i += 1;
    }
    assert(as_scores(scores@) =~= s);
    let r = rank_scored(&scores, n);
    assert forall|p: int, q: int| 0 <= p < q < r@.len() implies #[trigger] r@[p] != #[trigger] r@[q] by {
        assert(ranks_before(s, r@[p] as int, r@[q] as int));
        lemma_ranks_before_total(s, r@[p] as int, r@[p] as int);
    }
    assert forall|p: int, q: int| 0 <= p < q < r@.len() implies at_least_as_similar(
        #[trigger] s[r@[p] as int],
        #[trigger] s[r@[q] as int],
    ) by {
        assert(ranks_before(s, r@[p] as int, r@[q] as int));
    }
    assert forall|j: int| 0 <= j < options@.len() && #[trigger] options@[j]@ == input@ && n > 0 implies {
        &&& s[r@[0] as int].0 == 0
        &&& r@[0] <= j
    } by {
        assert(scores@[j].0 == 0);
        assert(s[j].0 == 0);
        if r@[0] as int != j {
            if r@.contains(j as usize) {
                let q = choose|q: int| 0 <= q < r@.len() && r@[q] == j as usize;
                assert(ranks_before(s, r@[0] as int, r@[q] as int));
            } else {
                assert(ranks_before(s, r@[0] as int, j));
            }
            let a = s[r@[0] as int].0;
            let m = scale(s[j].1);
            assert(a * m == 0) by {
                assert(a * m <= 0 * scale(s[r@[0] as int].1));
            }
            assert(a == 0) by (nonlinear_arith)
                requires
                    a * m == 0,
                    m > 0,
            ;
        }
    }
    r
}

/// Two rankings of the same scores, cut to the same limit, are equal: ranking
/// leaves no choice.
pub proof fn lemma_ranking_unique(s: Seq<(nat, nat)>, limit: nat, r1: Seq<usize>, r2: Seq<usize>)
    requires
        is_ranking(s, limit, r1),
        is_ranking(s, limit, r2),
    ensures
        r1 == r2,
{
    assert forall|p: int| 0 <= p < r1.len() implies r1[p] == r2[p] by {
        lemma_ranking_prefix(s, limit, r1, r2, p);
    }
    assert(r1 =~= r2);
}

proof fn lemma_ranking_prefix(s: Seq<(nat, nat)>, limit: nat, r1: Seq<usize>, r2: Seq<usize>, p: int)
    requires
        is_ranking(s, limit, r1),
        is_ranking(s, limit, r2),
        0 <= p < r1.len(),
    ensures
        forall|t: int| 0 <= t <= p ==> r1[t] == r2[t],
    decreases p,
{
    if p > 0 {
        lemma_ranking_prefix(s, limit, r1, r2, p - 1);
    }
    let a = r1[p] as int;
    let b = r2[p] as int;
    if a != b {
        // each of the two ranks before the other
        if r2.contains(a as usize) {
            let q = choose|q: int| 0 <= q < r2.len() && r2[q] == a as usize;
            if q < p {
                assert(r1[q] == r2[q]);
                assert(ranks_before(s, r1[q] as int, r1[p] as int));
                lemma_ranks_before_total(s, a, a);
            }
            assert(q != p);
            assert(ranks_before(s, r2[p] as int, r2[q] as int));
        } else {
            assert(ranks_before(s, r2[p] as int, a));
        }
        if r1.contains(b as usize) {
            let q = choose|q: int| 0 <= q < r1.len() && r1[q] == b as usize;
            if q < p {
                assert(r1[q] == r2[q]);
                assert(ranks_before(s, r2[q] as int, r2[p] as int));
                lemma_ranks_before_total(s, b, b);
            }
            assert(q != p);
            assert(ranks_before(s, r1[p] as int, r1[q] as int));
        } else {
            assert(ranks_before(s, r1[p] as int, b));
        }
        lemma_ranks_before_total(s, a, b);
    }
}

/// Ranking the same query against the same candidates twice gives the same
/// indices twice.
pub proof fn lemma_find_closest_idempotent(
    input: Seq<char>,
    options: Seq<Seq<char>>,
    n: nat,
    r1: Seq<usize>,
    r2: Seq<usize>,
)
    requires
        is_ranking(scores_of(input, options), n, r1),
        is_ranking(scores_of(input, options), n, r2),
    ensures
        r1 == r2,
{
    lemma_ranking_unique(scores_of(input, options), n, r1, r2);
}

} // verus!
