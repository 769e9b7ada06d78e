//! Ranking of scored candidates: top-k selection in descending order of
//! relevance, and a greedy re-ranking that trades relevance for diversity.
//!
//! Scores are 32-bit floating-point values. They reach this module as order
//! keys (see `score_key`): unsigned integers that sort as the scores do, so
//! that every decision here is made on integers.

use vstd::prelude::*;

verus! {

/// The sign bit of a single-precision bit pattern.
pub open spec fn is_negative_bits(b: u32) -> bool {
    b >= 0x8000_0000
}

/// The bit pattern without its sign bit.
pub open spec fn magnitude_bits(b: u32) -> int {
    if is_negative_bits(b) { b - 0x8000_0000 } else { b as int }
}

/// Whether a bit pattern encodes NaN.
pub open spec fn is_nan_bits(b: u32) -> bool {
    magnitude_bits(b) > 0x7f80_0000
}

/// `a < b` for the single-precision values whose bit patterns are `a` and `b`
/// (neither NaN): the two zeros are equal, non-negative values grow with their
/// magnitude, negative ones shrink with it.
pub open spec fn float_lt(a: u32, b: u32) -> bool {
    let ma = magnitude_bits(a);
    let mb = magnitude_bits(b);
    if ma == 0 && mb == 0 {
        false
    } else if !is_negative_bits(a) && !is_negative_bits(b) {
        ma < mb
    } else if is_negative_bits(a) && is_negative_bits(b) {
        ma > mb
    } else {
        is_negative_bits(a)
    }
}

/// The order key of a score's bit pattern.
pub open spec fn key_of(b: u32) -> u32 {
    if is_negative_bits(b) {
        if b == 0x8000_0000 { 0x8000_0000 } else { (0xffff_ffff - b) as u32 }
    } else {
        (b + 0x8000_0000) as u32
    }
}

/// The key of `0.0`.
pub const ZERO_KEY: u32 = 0x8000_0000;

/// Keys order scores as the scores themselves are ordered.
pub proof fn lemma_key_orders_scores(a: u32, b: u32)
    requires
        !is_nan_bits(a),
        !is_nan_bits(b),
    ensures
        key_of(a) < key_of(b) <==> float_lt(a, b),
        key_of(a) == key_of(b) <==> (!float_lt(a, b) && !float_lt(b, a)),
{
}

/// The order key of the single-precision value with bit pattern `bits`.
pub fn score_key(bits: u32) -> (r: u32)
    ensures
        r == key_of(bits),
        bits == 0 ==> r == ZERO_KEY,
{
    if bits >= 0x8000_0000 {
        if bits == 0x8000_0000 {
            0x8000_0000
        } else {
            0xffff_ffff - bits
        }
    } else {
        bits + 0x8000_0000
    }
}

/// The bit pattern of a score with order key `key`; negative zero comes back
/// as positive zero. (`0x7fff_ffff` is the key of no pattern.)
pub fn key_to_bits(key: u32) -> (r: u32)
    ensures
        key != 0x7fff_ffff ==> key_of(r) == key,
        forall|b: u32| !is_nan_bits(b) && b != 0x8000_0000 && key_of(b) == key ==> r == b,
{
    if key >= 0x8000_0000 {
        key - 0x8000_0000
    } else {
        0xffff_ffff - key
    }
}

/// Candidate `i` comes before candidate `j`: a higher key, or an equal key
/// and an earlier position.
pub open spec fn ranks_before(keys: Seq<u32>, i: int, j: int) -> bool {
    keys[i] > keys[j] || (keys[i] == keys[j] && i < j)
}

/// `r` lists the first `min(k, keys.len())` positions of `keys` in
/// descending order of key, equal keys in input order: the head of a
/// stable descending sort.
pub open spec fn is_top_k(keys: Seq<u32>, k: int, r: Seq<usize>) -> bool {
    &&& r.len() == if k < keys.len() { k } else { keys.len() as int }
    &&& forall|a: int| 0 <= a < r.len() ==> #[trigger] r[a] < keys.len()
    &&& forall|a: int, b: int|
        0 <= a < b < r.len() ==> ranks_before(keys, #[trigger] r[a] as int, #[trigger] r[b] as int)
    &&& forall|a: int, j: usize|
        #![trigger r[a], r.contains(j)]
        0 <= a < r.len() && j < keys.len() && !r.contains(j) ==> ranks_before(
            keys,
            r[a] as int,
            j as int,
        )
}

/// There is one head of a stable descending sort for each `k`.
pub proof fn lemma_top_k_unique(keys: Seq<u32>, k: int, r1: Seq<usize>, r2: Seq<usize>)
    requires
        is_top_k(keys, k, r1),
        is_top_k(keys, k, r2),
    ensures
        r1 == r2,
{
    assert forall|a: int| 0 <= a < r1.len() implies r1[a] == r2[a] by {
        lemma_top_k_index(keys, k, r1, r2, a);
    }
    assert(r1 =~= r2);
}

proof fn lemma_top_k_index(keys: Seq<u32>, k: int, r1: Seq<usize>, r2: Seq<usize>, a: int)
    requires
        is_top_k(keys, k, r1),
        is_top_k(keys, k, r2),
        0 <= a < r1.len(),
    ensures
        r1[a] == r2[a],
    decreases a,
{
    if a > 0 {
        lemma_top_k_index(keys, k, r1, r2, a - 1);
    }
    assert forall|b: int| 0 <= b < a implies r1[b] == r2[b] by {
        if b < a - 1 {
            lemma_top_k_index(keys, k, r1, r2, b);
        }
    }
    let x = r1[a];
    let y = r2[a];
    if x != y {
        // `y` is not among the first `a` of `r1` (they equal those of `r2`, which
        // come strictly before `y`); likewise for `x` in `r2`.
        assert(r1.contains(y) || ranks_before(keys, x as int, y as int));
        assert(r2.contains(x) || ranks_before(keys, y as int, x as int));
        if r1.contains(y) {
            let b = choose|b: int| 0 <= b < r1.len() && r1[b] == y;
            if b < a {
                assert(r2[b] == y);
                assert(ranks_before(keys, r2[b] as int, r2[a] as int));
            } else {
                assert(ranks_before(keys, x as int, y as int));
            }
        } else {
            assert(ranks_before(keys, x as int, y as int));
        }
        if r2.contains(x) {
            let b = choose|b: int| 0 <= b < r2.len() && r2[b] == x;
            if b < a {
                assert(r1[b] == x);
                assert(ranks_before(keys, r1[b] as int, r1[a] as int));
            } else {
                assert(ranks_before(keys, y as int, x as int));
            }
        } else {
            assert(ranks_before(keys, y as int, x as int));
        }
    }
}

/// The positions of the `top_k` highest keys, highest first; equal keys keep
/// their input order. Returns all positions when `top_k` exceeds their
/// number, and nothing for no candidates.
pub fn rank_top_k(keys: &Vec<u32>, top_k: usize) -> (r: Vec<usize>)
    ensures
        is_top_k(keys@, top_k as int, r@),
        r.len() <= top_k,
        r.len() <= keys.len(),
        forall|a: int, b: int|
            0 <= a < b < r.len() ==> keys@[#[trigger] r[a] as int] >= keys@[#[trigger] r[b] as int],
{
    let n = keys.len();
    let mut rest: Vec<usize> = Vec::new();
    let mut i: usize = 0;
    while i < n
        invariant
            i <= n == keys.len(),
            rest.len() == i,
            forall|a: int| 0 <= a < i ==> rest@[a] == a,
        decreases n - i,
    {
        rest.push(i);
        i = i + 1;
    }
    let mut r: Vec<usize> = Vec::new();
    proof {
        assert forall|j: usize| j < n implies (#[trigger] r@.contains(j) || rest@.contains(j)) by {
            assert(rest@[j as int] == j);
        }
    }
    while r.len() < top_k && rest.len() > 0
        invariant
            n == keys.len(),
            r.len() <= top_k,
            r.len() + rest.len() == n,
            forall|a: int| 0 <= a < rest.len() ==> #[trigger] rest@[a] < n,
            forall|a: int| 0 <= a < r.len() ==> #[trigger] r@[a] < n,
            forall|j: usize| j < n ==> (#[trigger] r@.contains(j) || rest@.contains(j)),
            forall|a: int, b: int|
                0 <= a < b < r.len() ==> ranks_before(
                    keys@,
                    #[trigger] r@[a] as int,
                    #[trigger] r@[b] as int,
                ),
            forall|a: int, b: int|
                0 <= a < r.len() && 0 <= b < rest.len() ==> ranks_before(
                    keys@,
                    #[trigger] r@[a] as int,
                    #[trigger] rest@[b] as int,
                ),
            forall|a: int, b: int| 0 <= a < b < rest.len() ==> #[trigger] rest@[a] < #[trigger] rest@[b],
        decreases rest.len(),
    {
        let mut best: usize = 0;
        let mut p: usize = 1;
        while p < rest.len()
            invariant
                n == keys.len(),
                0 <= best < p <= rest.len(),
                forall|a: int| 0 <= a < rest.len() ==> #[trigger] rest@[a] < n,
                forall|a: int, b: int| 0 <= a < b < rest.len() ==> #[trigger] rest@[a] < #[trigger] rest@[b],
                forall|q: int| 0 <= q < p && q != best ==> ranks_before(
                    keys@,
                    rest@[best as int] as int,
                    #[trigger] rest@[q] as int,
                ),
            decreases rest.len() - p,
        {
            if keys[rest[p]] > keys[rest[best]] {
                best = p;
            }
            p = p + 1;
        }
        let ghost old_rest = rest@;
        let ghost old_r = r@;
        let chosen = rest.remove(best);
        r.push(chosen);
        proof {
            assert(rest@ == old_rest.remove(best as int));
            assert forall|j: usize| j < n implies (#[trigger] r@.contains(j) || rest@.contains(j)) by {
                if old_r.contains(j) {
                    let a = choose|a: int| 0 <= a < old_r.len() && old_r[a] == j;
                    assert(r@[a] == j);
                } else {
                    assert(old_rest.contains(j));
                    let q = choose|q: int| 0 <= q < old_rest.len() && old_rest[q] == j;
                    if q < best {
                        assert(rest@[q] == j);
                    } else if q == best {
                        assert(r@[old_r.len() as int] == j);
                    } else {
                        assert(rest@[q - 1] == j);
                    }
                }
            }
            assert forall|a: int, b: int|
                0 <= a < r.len() && 0 <= b < rest.len() implies ranks_before(
                keys@,
                #[trigger] r@[a] as int,
                #[trigger] rest@[b] as int,
            ) by {
                if b < best {
                    assert(rest@[b] == old_rest[b]);
                } else {
                    assert(rest@[b] == old_rest[b + 1]);
                }
            }
        }
    }
    proof {
        assert forall|a: int, j: usize|
            #![trigger r@[a], r@.contains(j)]
            0 <= a < r.len() && j < keys.len() && !r@.contains(j) implies ranks_before(
            keys@,
            r@[a] as int,
            j as int,
        ) by {
            assert(rest@.contains(j));
            let q = choose|q: int| 0 <= q < rest.len() && rest@[q] == j;
            assert(ranks_before(keys@, r@[a] as int, rest@[q] as int));
        }
    }
    r
}

/// The ranked positions whose source name was found, each with its name, in
/// rank order; `names[i]` is the name found for `order[i]`.
pub open spec fn named_matches(order: Seq<usize>, names: Seq<Option<String>>) -> Seq<(usize, Seq<char>)>
    decreases order.len(),
{
    if order.len() == 0 || names.len() == 0 {
        Seq::empty()
    } else {
        let rest = named_matches(order.drop_last(), names.drop_last());
        match names.last() {
            Some(name) => rest.push((order.last(), name@)),
            None => rest,
        }
    }
}

/// Positions paired with the characters of their names.
pub open spec fn pair_views(v: Seq<(usize, String)>) -> Seq<(usize, Seq<char>)> {
    v.map_values(|p: (usize, String)| (p.0, p.1@))
}

/// The positions of `v`.
pub open spec fn positions(v: Seq<(usize, String)>) -> Seq<usize> {
    v.map_values(|p: (usize, String)| p.0)
}

/// `idx` picks `sub` out of `order`, keeping its order.
pub open spec fn picks_in_order(idx: Seq<int>, sub: Seq<usize>, order: Seq<usize>) -> bool {
    &&& idx.len() == sub.len()
    &&& forall|a: int| 0 <= a < idx.len() ==> 0 <= #[trigger] idx[a] < order.len() && sub[a] == order[idx[a]]
    &&& forall|a: int, b: int| 0 <= a < b < idx.len() ==> #[trigger] idx[a] < #[trigger] idx[b]
}

/// `sub` lists some of the entries of `order`, in the order they stand there.
pub open spec fn is_ordered_pick(sub: Seq<usize>, order: Seq<usize>) -> bool {
    exists|idx: Seq<int>| picks_in_order(idx, sub, order)
}

/// Pairs each ranked position with its source name, dropping those whose name
/// could not be found, and keeps the rank order.
pub fn attach_names(order: &Vec<usize>, names: &Vec<Option<String>>) -> (r: Vec<(usize, String)>)
    requires
        order.len() == names.len(),
    ensures
        pair_views(r@) == named_matches(order@, names@),
        is_ordered_pick(positions(r@), order@),
        r.len() <= order.len(),
{
    let mut r: Vec<(usize, String)> = Vec::new();
    let mut i: usize = 0;
    let ghost mut idx: Seq<int> = Seq::empty();
    while i < order.len()
        invariant
            i <= order.len() == names.len(),
            pair_views(r@) == named_matches(order@.take(i as int), names@.take(i as int)),
            r.len() <= i,
            picks_in_order(idx, positions(r@), order@),
            forall|a: int| 0 <= a < idx.len() ==> #[trigger] idx[a] < i,
        decreases order.len() - i,
    {
        let ghost old_r = r@;
        proof {
            assert(order@.take(i + 1).drop_last() =~= order@.take(i as int));
            assert(names@.take(i + 1).drop_last() =~= names@.take(i as int));
        }
        match &names[i] {
            Some(name) => {
                r.push((order[i], name.clone()));
                proof {
                    assert(pair_views(r@) =~= pair_views(old_r).push((order@[i as int], name@)));
                    assert(positions(r@) =~= positions(old_r).push(order@[i as int]));
                    idx = idx.push(i as int);
                }
            },
            None => {},
        }
        i = i + 1;
    }
    proof {
        assert(order@.take(order.len() as int) =~= order@);
        assert(names@.take(names.len() as int) =~= names@);
    }
    r
}

proof fn lemma_pick_index_grows(idx: Seq<int>, sub: Seq<usize>, order: Seq<usize>, a: int)
    requires
        picks_in_order(idx, sub, order),
        0 <= a < idx.len(),
    ensures
        idx[a] >= a,
    decreases a,
{
    if a > 0 {
        lemma_pick_index_grows(idx, sub, order, a - 1);
        assert(idx[a - 1] < idx[a]);
    }
}

/// The matches of a search, named or not, come in non-increasing order of
/// score, and there are at most `k` of them and at most one per candidate.
pub proof fn lemma_matches_descending(keys: Seq<u32>, k: int, order: Seq<usize>, matches: Seq<usize>)
    requires
        is_top_k(keys, k, order),
        is_ordered_pick(matches, order),
    ensures
        forall|a: int, b: int|
            0 <= a < b < matches.len() ==> keys[#[trigger] matches[a] as int] >= keys[#[trigger] matches[b] as int],
        matches.len() <= k || k < 0,
        matches.len() <= keys.len(),
{
    let idx = choose|idx: Seq<int>| picks_in_order(idx, matches, order);
    assert forall|a: int, b: int| 0 <= a < b < matches.len() implies keys[#[trigger] matches[a] as int]
        >= keys[#[trigger] matches[b] as int] by {
        assert(idx[a] < idx[b]);
        assert(ranks_before(keys, order[idx[a]] as int, order[idx[b]] as int));
    }
    if matches.len() > 0 {
        let last = matches.len() - 1;
        lemma_pick_index_grows(idx, matches, order, last);
    }
}

/// The largest similarity key between a candidate (its row of pairwise keys)
/// and the selected candidates (of which there is at least one).
pub open spec fn max_sim_key(row: Seq<u32>, selected: Seq<usize>) -> u32
    decreases selected.len(),
{
    if selected.len() <= 1 {
        row[selected[0] as int]
    } else {
        let m = max_sim_key(row, selected.drop_last());
        let v = row[selected.last() as int];
        if v > m { v } else { m }
    }
}

/// `pick` is a first best choice after `prefix`: among the candidates below
/// `n` not yet selected, none gets a higher penalised key from `penalize`
/// (which knows candidate `c` as `ids[c]`), and none with an equal key stands
/// earlier.
pub open spec fn picks_best<F: Fn(usize, u32) -> u32>(
    penalize: F,
    ids: Seq<usize>,
    pair_keys: Seq<Vec<u32>>,
    prefix: Seq<usize>,
    pick: usize,
) -> bool {
    forall|d: usize, v: u32, w: u32|
        #![trigger penalize.ensures((ids[d as int], max_sim_key(pair_keys[d as int]@, prefix)), w), penalize.ensures((ids[pick as int], max_sim_key(pair_keys[pick as int]@, prefix)), v)]
        d < pair_keys.len() && !prefix.contains(d) && penalize.ensures(
            (ids[pick as int], max_sim_key(pair_keys[pick as int]@, prefix)),
            v,
        ) && penalize.ensures((ids[d as int], max_sim_key(pair_keys[d as int]@, prefix)), w) ==> w < v || (w
            == v && pick <= d)
}

/// The order that diversity re-ranking gives to `n` candidates ranked by
/// relevance: `min(top_k, n)` distinct candidates, the first one first, then
/// one best choice at a time until `top_k` are chosen or none is left.
pub open spec fn is_diverse_order<F: Fn(usize, u32) -> u32>(
    penalize: F,
    ids: Seq<usize>,
    pair_keys: Seq<Vec<u32>>,
    top_k: int,
    sel: Seq<usize>,
) -> bool {
    let n = pair_keys.len() as int;
    &&& sel.len() == if top_k < n { top_k } else { n }
    &&& sel.len() > 0 ==> sel[0] == 0
    &&& forall|a: int| 0 <= a < sel.len() ==> #[trigger] sel[a] < n
    &&& forall|a: int, b: int| 0 <= a < b < sel.len() ==> #[trigger] sel[a] != #[trigger] sel[b]
    &&& forall|t: int|
        1 <= t < sel.len() ==> picks_best(penalize, ids, pair_keys, sel.take(t), #[trigger] sel[t])
}

/// The largest of `row[s]` for `s` in `selected`, which is not empty.
fn max_key_to(row: &Vec<u32>, selected: &Vec<usize>) -> (m: u32)
    requires
        selected.len() > 0,
        forall|a: int| 0 <= a < selected.len() ==> #[trigger] selected@[a] < row.len(),
    ensures
        m == max_sim_key(row@, selected@),
{
    let mut m = row[selected[0]];
    let mut i: usize = 1;
    while i < selected.len()
        invariant
            1 <= i <= selected.len(),
            forall|a: int| 0 <= a < selected.len() ==> #[trigger] selected@[a] < row.len(),
            m == max_sim_key(row@, selected@.take(i as int)),
        decreases selected.len() - i,
    {
        proof {
            assert(selected@.take(i + 1).drop_last() =~= selected@.take(i as int));
        }
        let v = row[selected[i]];
        if v > m {
            m = v;
        }
        i = i + 1;
    }
    proof {
        assert(selected@.take(selected.len() as int) =~= selected@);
    }
    m
}

/// Re-ranks `n` candidates, given in descending relevance, for diversity;
/// `ids[c]` is how the caller knows candidate `c`. `pair_keys[c][s]` is the key of the similarity between candidates `c` and
/// `s`; `penalize(ids[c], m)` is the key of candidate `c`'s relevance lessened by
/// its largest similarity `m` (a key) to those already chosen. The most
/// relevant candidate is kept first; each further place, until `top_k` are
/// chosen or none is left, goes to the first candidate with the highest
/// penalised key.
pub fn rerank_diverse<F: Fn(usize, u32) -> u32>(
    ids: &Vec<usize>,
    pair_keys: &Vec<Vec<u32>>,
    top_k: usize,
    penalize: F,
) -> (sel: Vec<usize>)
    requires
        ids.len() == pair_keys.len(),
        forall|c: int| 0 <= c < pair_keys.len() ==> (#[trigger] pair_keys@[c]).len() == pair_keys.len(),
        forall|c: usize, m: u32| penalize.requires((c, m)),
        forall|c: usize, m: u32, v: u32, w: u32|
            penalize.ensures((c, m), v) && penalize.ensures((c, m), w) ==> v == w,
    ensures
        is_diverse_order(penalize, ids@, pair_keys@, top_k as int, sel@),
{
    let n = pair_keys.len();
    let mut sel: Vec<usize> = Vec::new();
    if n == 0 || top_k == 0 {
        return sel;
    }
    sel.push(0);
    let mut rest: Vec<usize> = Vec::new();
    let mut i: usize = 1;
    while i < n
        invariant
            1 <= i <= n,
            rest.len() == i - 1,
            forall|a: int| 0 <= a < rest.len() ==> rest@[a] == a + 1,
        decreases n - i,
    {
        rest.push(i);
        i = i + 1;
    }
    proof {
        assert forall|j: usize| j < n implies (#[trigger] sel@.contains(j) || rest@.contains(j)) by {
            if j == 0 {
                assert(sel@[0] == j);
            } else {
                assert(rest@[j - 1] == j);
            }
        }
    }
    while sel.len() < top_k && rest.len() > 0
        invariant
            n == pair_keys.len() == ids.len(),
            top_k >= 1,
            forall|c: int| 0 <= c < pair_keys.len() ==> (#[trigger] pair_keys@[c]).len() == n,
            forall|c: usize, m: u32| penalize.requires((c, m)),
            forall|c: usize, m: u32, v: u32, w: u32|
                penalize.ensures((c, m), v) && penalize.ensures((c, m), w) ==> v == w,
            1 <= sel.len() <= top_k,
            sel.len() + rest.len() == n,
            sel@[0] == 0,
            forall|a: int| 0 <= a < rest.len() ==> #[trigger] rest@[a] < n,
            forall|a: int| 0 <= a < sel.len() ==> #[trigger] sel@[a] < n,
            forall|j: usize| j < n ==> (#[trigger] sel@.contains(j) || rest@.contains(j)),
            forall|a: int, b: int| 0 <= a < sel.len() && 0 <= b < rest.len() ==> #[trigger] sel@[a] != #[trigger] rest@[b],
            forall|a: int, b: int| 0 <= a < b < sel.len() ==> #[trigger] sel@[a] != #[trigger] sel@[b],
            forall|a: int, b: int| 0 <= a < b < rest.len() ==> #[trigger] rest@[a] < #[trigger] rest@[b],
            forall|t: int|
                1 <= t < sel.len() ==> picks_best(penalize, ids@, pair_keys@, sel@.take(t), #[trigger] sel@[t]),
        decreases rest.len(),
    {
        let ghost chosen_before = sel@;
        let mut best: usize = 0;
        let mut best_val = penalize(ids[rest[0]], max_key_to(&pair_keys[rest[0]], &sel));
        let mut p: usize = 1;
        while p < rest.len()
            invariant
                n == pair_keys.len() == ids.len(),
                forall|c: int| 0 <= c < pair_keys.len() ==> (#[trigger] pair_keys@[c]).len() == n,
                forall|c: usize, m: u32| penalize.requires((c, m)),
                forall|c: usize, m: u32, v: u32, w: u32|
                    penalize.ensures((c, m), v) && penalize.ensures((c, m), w) ==> v == w,
                forall|a: int| 0 <= a < rest.len() ==> #[trigger] rest@[a] < n,
                forall|a: int| 0 <= a < sel.len() ==> #[trigger] sel@[a] < n,
                sel.len() > 0,
                0 <= best < p <= rest.len(),
                penalize.ensures(
                    (ids@[rest@[best as int] as int], max_sim_key(pair_keys@[rest@[best as int] as int]@, sel@)),
                    best_val,
                ),
                forall|q: int, w: u32|
                    0 <= q < p && penalize.ensures(
                        (ids@[rest@[q] as int], max_sim_key(pair_keys@[rest@[q] as int]@, sel@)),
                        w,
                    ) ==> w < best_val || (w == best_val && best <= q),
            decreases rest.len() - p,
        {
            let v = penalize(ids[rest[p]], max_key_to(&pair_keys[rest[p]], &sel));
            if v > best_val {
                best = p;
                best_val = v;
            }
            p = p + 1;
        }
        let ghost old_rest = rest@;
        let ghost pick = rest@[best as int];
        proof {
            assert(sel@.take(sel.len() as int) =~= sel@);
            assert forall|d: usize, v: u32, w: u32|
                d < n && !sel@.contains(d) && penalize.ensures(
                    (ids@[pick as int], max_sim_key(pair_keys@[pick as int]@, sel@)),
                    v,
                ) && penalize.ensures((ids@[d as int], max_sim_key(pair_keys@[d as int]@, sel@)), w) implies w < v
                || (w == v && pick <= d) by {
                assert(rest@.contains(d));
                let q = choose|q: int| 0 <= q < rest.len() && rest@[q] == d;
                assert(v == best_val);
                if best < q {
                    assert(rest@[best as int] < rest@[q]);
                }
            }
            assert(picks_best(penalize, ids@, pair_keys@, sel@, pick));
        }
        let chosen = rest.remove(best);
        sel.push(chosen);
        proof {
            assert(rest@ == old_rest.remove(best as int));
            assert(sel@.take(chosen_before.len() as int) =~= chosen_before);
            assert forall|t: int|
                1 <= t < sel.len() implies picks_best(
                penalize,
                ids@,
                pair_keys@,
                sel@.take(t),
                #[trigger] sel@[t],
            ) by {
                if t < chosen_before.len() {
                    assert(sel@.take(t) =~= chosen_before.take(t));
                }
            }
            assert forall|j: usize| j < n implies (#[trigger] sel@.contains(j) || rest@.contains(j)) by {
                if chosen_before.contains(j) {
                    let a = choose|a: int| 0 <= a < chosen_before.len() && chosen_before[a] == j;
                    assert(sel@[a] == j);
                } else {
                    assert(old_rest.contains(j));
                    let q = choose|q: int| 0 <= q < old_rest.len() && old_rest[q] == j;
                    if q < best {
                        assert(rest@[q] == j);
                    } else if q == best {
                        assert(sel@[chosen_before.len() as int] == j);
                    } else {
                        assert(rest@[q - 1] == j);
                    }
                }
            }
            assert forall|a: int, b: int| 0 <= a < sel.len() && 0 <= b < rest.len() implies #[trigger] sel@[a] != #[trigger] rest@[b] by {
                if b < best {
                    assert(rest@[b] == old_rest[b]);
                } else {
                    assert(rest@[b] == old_rest[b + 1]);
                }
            }
            assert forall|a: int, b: int| 0 <= a < b < sel.len() implies #[trigger] sel@[a] != #[trigger] sel@[b] by {
                if b == chosen_before.len() {
                    assert(sel@[b] == old_rest[best as int]);
                }
            }
        }
    }
    sel
}

/// Re-ranking keeps the most relevant candidate first: over the best `pool`
/// candidates of a query (`pool >= 1`), the first re-ranked result is the
/// first result of the plain top-`top_k` search.
pub proof fn lemma_rerank_keeps_top<F: Fn(usize, u32) -> u32>(
    keys: Seq<u32>,
    top_k: int,
    pool: int,
    candidates: Seq<usize>,
    pair_keys: Seq<Vec<u32>>,
    penalize: F,
    reranked: Seq<usize>,
    plain: Seq<usize>,
)
    requires
        top_k >= 1,
        pool >= 1,
        keys.len() > 0,
        is_top_k(keys, pool, candidates),
        pair_keys.len() == candidates.len(),
        is_diverse_order(penalize, candidates, pair_keys, top_k, reranked),
        is_top_k(keys, top_k, plain),
    ensures
        reranked.len() > 0,
        plain.len() > 0,
        candidates[reranked[0] as int] == plain[0],
{
    let x = candidates[0];
    let y = plain[0];
    assert(reranked[0] == 0);
    if x != y {
        if candidates.contains(y) {
            let b = choose|b: int| 0 <= b < candidates.len() && candidates[b] == y;
            assert(ranks_before(keys, candidates[0] as int, candidates[b] as int));
        } else {
            assert(ranks_before(keys, x as int, y as int));
        }
        if plain.contains(x) {
            let b = choose|b: int| 0 <= b < plain.len() && plain[b] == x;
            assert(ranks_before(keys, plain[0] as int, plain[b] as int));
        } else {
            assert(ranks_before(keys, y as int, x as int));
        }
    }
}

/// The size of the widened pool: `top_k * multiplier`, or the largest size
/// when that does not fit.
pub open spec fn pool_size(top_k: int, multiplier: int) -> int {
    if top_k * multiplier <= usize::MAX { top_k * multiplier } else { usize::MAX as int }
}

/// `r` lists `candidates[sel[0]], candidates[sel[1]], ...`.
pub open spec fn picked(candidates: Seq<usize>, sel: Seq<usize>, r: Seq<usize>) -> bool {
    r.len() == sel.len() && forall|t: int| 0 <= t < r.len() ==> #[trigger] r[t] == candidates[sel[t] as int]
}

/// `matrix[a][b]` is what `pair_key` gives for candidates `a` and `b`.
pub open spec fn is_pair_matrix<P: Fn(usize, usize) -> u32>(
    pair_key: P,
    candidates: Seq<usize>,
    matrix: Seq<Vec<u32>>,
) -> bool {
    &&& matrix.len() == candidates.len()
    &&& forall|a: int| 0 <= a < matrix.len() ==> (#[trigger] matrix[a]).len() == candidates.len()
    &&& forall|a: int, b: int|
        0 <= a < matrix.len() && 0 <= b < candidates.len() ==> pair_key.ensures(
            (candidates[a], candidates[b]),
            #[trigger] matrix[a]@[b],
        )
}

/// Diversity-aware search over candidates with relevance keys `keys`: the
/// best `top_k * multiplier` positions by relevance are re-ranked for
/// diversity, and `top_k` of them are returned, as positions of `keys`.
/// `pair_key(i, j)` is the key of the similarity between candidates `i` and
/// `j`; `penalize(i, m)` is the key of `i`'s relevance lessened by its largest
/// similarity `m` to those already chosen.
pub fn search_with_rerank<P: Fn(usize, usize) -> u32, F: Fn(usize, u32) -> u32>(
    keys: &Vec<u32>,
    top_k: usize,
    multiplier: usize,
    pair_key: P,
    penalize: F,
) -> (r: Vec<usize>)
    requires
        forall|i: usize, j: usize| pair_key.requires((i, j)),
        forall|c: usize, m: u32| penalize.requires((c, m)),
        forall|c: usize, m: u32, v: u32, w: u32|
            penalize.ensures((c, m), v) && penalize.ensures((c, m), w) ==> v == w,
    ensures
        exists|candidates: Seq<usize>, matrix: Seq<Vec<u32>>, sel: Seq<usize>|
            #![trigger is_pair_matrix(pair_key, candidates, matrix), picked(candidates, sel, r@)]
            is_top_k(keys@, pool_size(top_k as int, multiplier as int), candidates)
                && is_pair_matrix(pair_key, candidates, matrix) && is_diverse_order(
                penalize,
                candidates,
                matrix,
                top_k as int,
                sel,
            ) && picked(candidates, sel, r@),
        top_k >= 1 && multiplier >= 1 && keys.len() > 0 ==> r.len() > 0 && forall|plain: Seq<usize>|
            is_top_k(keys@, top_k as int, plain) ==> r@[0] == plain[0],
{
    let pool = if multiplier == 0 {
        0
    } else if top_k > usize::MAX / multiplier {
        usize::MAX
    } else {
        proof {
            assert(top_k * multiplier <= usize::MAX) by (nonlinear_arith)
                requires
                    multiplier > 0,
                    top_k <= usize::MAX / multiplier,
            ;
        }
        top_k * multiplier
    };
    proof {
        if multiplier > 0 && top_k > usize::MAX / multiplier {
            assert(top_k * multiplier > usize::MAX) by (nonlinear_arith)
                requires
                    multiplier > 0,
                    top_k > usize::MAX / multiplier,
            ;
        }
        if top_k >= 1 && multiplier >= 1 {
            assert(top_k * multiplier >= 1) by (nonlinear_arith)
                requires
                    top_k >= 1,
                    multiplier >= 1,
            ;
        }
    }
    assert(pool as int == pool_size(top_k as int, multiplier as int));
    let candidates = rank_top_k(keys, pool);
    let n = candidates.len();
    let mut matrix: Vec<Vec<u32>> = Vec::new();
    let mut a: usize = 0;
    while a < n
        invariant
            a <= n == candidates.len(),
            forall|i: usize, j: usize| pair_key.requires((i, j)),
            matrix.len() == a,
            forall|x: int| 0 <= x < a ==> (#[trigger] matrix@[x]).len() == n,
            forall|x: int, y: int|
                0 <= x < a && 0 <= y < n ==> pair_key.ensures(
                    (candidates@[x], candidates@[y]),
                    #[trigger] matrix@[x]@[y],
                ),
        decreases n - a,
    {
        let mut row: Vec<u32> = Vec::new();
        let mut b: usize = 0;
        while b < n
            invariant
                a < n == candidates.len(),
                b <= n,
                forall|i: usize, j: usize| pair_key.requires((i, j)),
                row.len() == b,
                forall|y: int| 0 <= y < b ==> pair_key.ensures(
                    (candidates@[a as int], candidates@[y]),
                    #[trigger] row@[y],
                ),
            decreases n - b,
        {
            row.push(pair_key(candidates[a], candidates[b]));
            b = b + 1;
        }
        matrix.push(row);
        a = a + 1;
    }
    let sel = rerank_diverse(&candidates, &matrix, top_k, penalize);
    let mut r: Vec<usize> = Vec::new();
    let mut t: usize = 0;
    while t < sel.len()
        invariant
            t <= sel.len(),
            forall|x: int| 0 <= x < sel.len() ==> #[trigger] sel@[x] < n,
            n == candidates.len(),
            r.len() == t,
            forall|x: int| 0 <= x < t ==> #[trigger] r@[x] == candidates@[sel@[x] as int],
        decreases sel.len() - t,
    {
        r.push(candidates[sel[t]]);
        t = t + 1;
    }
    proof {
        assert(is_pair_matrix(pair_key, candidates@, matrix@));
        assert(picked(candidates@, sel@, r@));
        if top_k >= 1 && multiplier >= 1 && keys.len() > 0 {
            assert forall|plain: Seq<usize>| is_top_k(keys@, top_k as int, plain) implies r@[0]
                == plain[0] by {
                lemma_rerank_keeps_top(
                    keys@,
                    top_k as int,
                    pool as int,
                    candidates@,
                    matrix@,
                    penalize,
                    sel@,
                    plain,
                );
            }
        }
    }
    r
}

} // verus!
