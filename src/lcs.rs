use vstd::prelude::*;
use crate::text::{join, join_tokens, lemma_tokens_join, lemma_tokens_len, tokenize, tokens, views};

verus! {

pub type Tokens = Seq<Seq<char>>;

/// Token `x` of `a` equals token `y` of `b` (both positions inside the sequences).
pub open spec fn matched(a: Tokens, b: Tokens, x: int, y: int) -> bool {
    0 <= x < a.len() && 0 <= y < b.len() && a[x] == b[y]
}

/// The smaller of two integers.
pub open spec fn min2(p: int, q: int) -> int {
    if p <= q {
        p
    } else {
        q
    }
}

/// Least number of token deletions and insertions that turn the first `x`
/// tokens of `a` into the first `y` tokens of `b`. Positions beyond the end
/// of either sequence match nothing.
pub open spec fn ed(a: Tokens, b: Tokens, x: int, y: int) -> int
    decreases x + y,
{
    if x <= 0 || y <= 0 {
        if x <= 0 { if y <= 0 { 0 } else { y } } else { x }
    } else {
        let step = 1 + min2(ed(a, b, x - 1, y), ed(a, b, x, y - 1));
        if matched(a, b, x - 1, y - 1) {
            min2(step, ed(a, b, x - 1, y - 1))
        } else {
            step
        }
    }
}

/// The edit distance of two token sequences: least number of token
/// insertions plus deletions that turn `a` into `b`.
pub open spec fn edit_distance(a: Tokens, b: Tokens) -> int {
    ed(a, b, a.len() as int, b.len() as int)
}

/// `c` is a subsequence of `a`.
pub open spec fn is_subseq(c: Tokens, a: Tokens) -> bool
    decreases a.len(),
{
    if c.len() == 0 {
        true
    } else if a.len() == 0 {
        false
    } else if c.last() == a.last() {
        is_subseq(c.drop_last(), a.drop_last())
    } else {
        is_subseq(c, a.drop_last())
    }
}

pub open spec fn is_common(c: Tokens, a: Tokens, b: Tokens) -> bool {
    is_subseq(c, a) && is_subseq(c, b)
}

/// `c` is a longest common subsequence of `a` and `b`.
pub open spec fn is_lcs(c: Tokens, a: Tokens, b: Tokens) -> bool {
    &&& is_common(c, a, b)
    &&& forall|c2: Tokens| #[trigger] is_common(c2, a, b) ==> c2.len() <= c.len()
}

/// One step right or down costs at most one; a step along a match costs nothing.
pub proof fn lemma_ed_steps(a: Tokens, b: Tokens, x: int, y: int)
    requires
        x >= 0,
        y >= 0,
    ensures
        ed(a, b, x + 1, y) <= ed(a, b, x, y) + 1,
        ed(a, b, x, y + 1) <= ed(a, b, x, y) + 1,
        matched(a, b, x, y) ==> ed(a, b, x + 1, y + 1) <= ed(a, b, x, y),
{
    assert(ed(a, b, x + 1, y + 1) == {
        let step = 1 + min2(ed(a, b, x, y + 1), ed(a, b, x + 1, y));
        if matched(a, b, x, y) {
            min2(step, ed(a, b, x, y))
        } else {
            step
        }
    });
}

/// Bounds and parity of the distance between prefixes.
pub proof fn lemma_ed_bounds(a: Tokens, b: Tokens, x: int, y: int)
    requires
        x >= 0,
        y >= 0,
    ensures
        ed(a, b, x, y) <= x + y,
        x - y <= ed(a, b, x, y),
        y - x <= ed(a, b, x, y),
        (ed(a, b, x, y) + x + y) % 2 == 0,
    decreases x + y,
{
    if x > 0 && y > 0 {
        lemma_ed_bounds(a, b, x - 1, y);
        lemma_ed_bounds(a, b, x, y - 1);
        lemma_ed_bounds(a, b, x - 1, y - 1);
        let e1 = ed(a, b, x - 1, y);
        let e2 = ed(a, b, x, y - 1);
        let e3 = ed(a, b, x - 1, y - 1);
        let step = 1 + min2(e1, e2);
        assert((step + x + y) % 2 == 0);
        assert((e3 + x + y) % 2 == 0);
        assert(ed(a, b, x, y) == if matched(a, b, x - 1, y - 1) {
            min2(step, e3)
        } else {
            step
        });
    }
}

/// Cutting a point back to the grid never raises its distance.
proof fn lemma_ed_clamp(a: Tokens, b: Tokens, x: int, y: int)
    requires
        x >= 0,
        y >= 0,
    ensures
        ed(a, b, x, y) >= ed(a, b, min2(x, a.len() as int), min2(y, b.len() as int)),
    decreases x + y,
{
    let n = a.len() as int;
    let m = b.len() as int;
    if x > n || y > m {
        if x > 0 && y > 0 {
            lemma_ed_clamp(a, b, x - 1, y);
            lemma_ed_clamp(a, b, x, y - 1);
            if x > n && y <= m {
                lemma_ed_steps(a, b, n, y - 1);
            }
            if y > m && x <= n {
                lemma_ed_steps(a, b, x - 1, m);
            }
        } else if y == 0 {
            lemma_ed_bounds(a, b, min2(x, n), 0);
        } else {
            lemma_ed_bounds(a, b, 0, min2(y, m));
        }
    }
}

/// Walking back along diagonal `k` from a point of distance at most `dd`
/// over matched tokens reaches a point that is the origin or that has a
/// neighbour, one step up or left, of distance at most `dd - 1`.
proof fn lemma_back(a: Tokens, b: Tokens, k: int, q: int, dd: int) -> (xp: int)
    requires
        q >= 0,
        q - k >= 0,
        ed(a, b, q, q - k) <= dd,
    ensures
        0 <= xp <= q,
        xp - k >= 0,
        forall|i: int| xp <= i < q ==> #[trigger] matched(a, b, i, i - k),
        (xp == 0 && k == 0) || (xp - k - 1 >= 0 && ed(a, b, xp, xp - k - 1) <= dd - 1) || (xp
            >= 1 && ed(a, b, xp - 1, xp - k) <= dd - 1),
    decreases q,
{
    let y = q - k;
    if q == 0 {
        0
    } else if y == 0 {
        q
    } else if matched(a, b, q - 1, y - 1) && ed(a, b, q - 1, y - 1) <= dd {
        let r = lemma_back(a, b, k, q - 1, dd);
        assert forall|i: int| r <= i < q implies #[trigger] matched(a, b, i, i - k) by {
            if i == q - 1 {
                assert(i - k == y - 1);
            }
        }
        r
    } else {
        q
    }
}

/// A subsequence of `a` and `b` of length `l` brings the distance down to
/// at most `x + y - 2 l`.
proof fn lemma_common_bound(a: Tokens, b: Tokens, c: Tokens, x: int, y: int)
    requires
        0 <= x <= a.len(),
        0 <= y <= b.len(),
        is_subseq(c, a.take(x)),
        is_subseq(c, b.take(y)),
    ensures
        ed(a, b, x, y) <= x + y - 2 * c.len(),
    decreases x + y,
{
    lemma_ed_bounds(a, b, x, y);
    if c.len() == 0 {
    } else {
        assert(x > 0 && y > 0);
        assert(a.take(x).drop_last() =~= a.take(x - 1));
        assert(b.take(y).drop_last() =~= b.take(y - 1));
        let at = a[x - 1] == c.last();
        let bt = b[y - 1] == c.last();
        if at && bt {
            lemma_common_bound(a, b, c.drop_last(), x - 1, y - 1);
            lemma_ed_steps(a, b, x - 1, y - 1);
        } else if !at {
            lemma_common_bound(a, b, c, x - 1, y);
            lemma_ed_steps(a, b, x - 1, y);
        } else {
            lemma_common_bound(a, b, c, x, y - 1);
            lemma_ed_steps(a, b, x, y - 1);
        }
    }
}

/// Matching a subsequence from the front: a first token equal to the
/// sequence's first is taken, any other first token of the sequence is skipped.
pub proof fn lemma_subseq_front(c: Tokens, a: Tokens)
    requires
        is_subseq(c, a),
        c.len() > 0,
    ensures
        a.len() > 0,
        c[0] == a[0] ==> is_subseq(c.drop_first(), a.drop_first()),
        c[0] != a[0] ==> is_subseq(c, a.drop_first()),
    decreases a.len(),
{
    let cl = c.drop_last();
    let al = a.drop_last();
    let af = a.drop_first();
    let cf = c.drop_first();
    if a.len() == 0 {
    } else if c.last() == a.last() {
        if c.len() == 1 {
            if c[0] != a[0] {
                assert(a.len() >= 2);
                assert(af.last() == a.last());
                assert(cl.len() == 0);
                assert(is_subseq(cl, af.drop_last()));
                assert(is_subseq(c, af));
            } else {
                assert(cf.len() == 0);
            }
        } else {
            lemma_subseq_front(cl, al);
            assert(cl[0] == c[0]);
            assert(al[0] == a[0]);
            assert(af.drop_last() =~= al.drop_first());
            assert(cf.drop_last() =~= cl.drop_first());
            assert(af.last() == a.last());
            assert(cf.last() == c.last());
            if c[0] == a[0] {
                assert(is_subseq(cf, af));
            } else {
                assert(is_subseq(c, af));
            }
        }
    } else {
        lemma_subseq_front(c, al);
        assert(al[0] == a[0]);
        assert(af.drop_last() =~= al.drop_first());
        assert(af.last() == a.last());
        if c[0] == a[0] {
            if cf.len() > 0 {
                assert(cf.last() == c.last());
                assert(is_subseq(cf, af));
            }
        } else {
            assert(is_subseq(c, af));
        }
    }
}

/// Tokens picked from `a` at strictly increasing positions form a subsequence of it.
proof fn lemma_picked_subseq(c: Tokens, a: Tokens, idx: Seq<int>)
    requires
        idx.len() == c.len(),
        forall|i: int| 0 <= i < idx.len() ==> 0 <= #[trigger] idx[i] < a.len() && c[i] == a[idx[i]],
        forall|i: int, j: int| 0 <= i < j < idx.len() ==> idx[i] < idx[j],
    ensures
        is_subseq(c, a),
    decreases a.len(),
{
    if c.len() > 0 {
        let l = c.len() - 1;
        assert(0 <= idx[l] < a.len());
        if c.last() == a.last() {
            assert forall|i: int| 0 <= i < l implies idx[i] < idx[l] by {}
            lemma_picked_subseq(c.drop_last(), a.drop_last(), idx.drop_last());
        } else {
            lemma_picked_subseq(c, a.drop_last(), idx);
        }
    }
}

/// The distance of two sequences bounds every common subsequence.
pub proof fn lemma_common_len(a: Tokens, b: Tokens, c: Tokens)
    requires
        is_common(c, a, b),
    ensures
        2 * c.len() <= a.len() + b.len() - edit_distance(a, b),
{
    assert(a.take(a.len() as int) =~= a);
    assert(b.take(b.len() as int) =~= b);
    lemma_common_bound(a, b, c, a.len() as int, b.len() as int);
}

/// A path of matched token pairs that ends before `(x, y)`, with as many
/// pairs as a route of `dd` insertions and deletions to `(x, y)` has.
pub open spec fn path_ok(a: Tokens, b: Tokens, p: Seq<(usize, usize)>, x: int, y: int, dd: int) -> bool {
    &&& 2 * p.len() == x + y - dd
    &&& forall|i: int|
        0 <= i < p.len() ==> matched(a, b, #[trigger] p[i].0 as int, p[i].1 as int) && p[i].0 < x
            && p[i].1 < y
    &&& forall|i: int, j: int| 0 <= i < j < p.len() ==> p[i].0 < p[j].0 && p[i].1 < p[j].1
}

/// Where the snake along diagonal `k` that starts at `x` ends: it follows
/// matched tokens as far as they go.
pub open spec fn snake_end(a: Tokens, b: Tokens, k: int, x: int) -> int
    decreases a.len() - x,
{
    if matched(a, b, x, x - k) {
        snake_end(a, b, k, x + 1)
    } else {
        x
    }
}

/// The matched pairs along the snake on diagonal `k` that starts at `x`.
pub open spec fn snake_pairs(a: Tokens, b: Tokens, k: int, x: int) -> Seq<(usize, usize)>
    decreases a.len() - x,
{
    if matched(a, b, x, x - k) {
        seq![(x as usize, (x - k) as usize)] + snake_pairs(a, b, k, x + 1)
    } else {
        Seq::empty()
    }
}

/// Round `dd` of Myers' search on diagonal `k` comes down from diagonal
/// `k + 1`, rather than right from diagonal `k - 1`.
pub open spec fn comes_down(a: Tokens, b: Tokens, dd: int, k: int) -> bool
    decreases dd, 0int,
{
    dd > 0 && (k == -dd || (k != dd && furthest(a, b, dd - 1, k - 1) < furthest(a, b, dd - 1, k + 1)))
}

/// How far diagonal `k` reaches in round `dd` of Myers' search: the end of
/// the snake that starts from where the neighbouring diagonal of the
/// previous round that reached further leads.
pub open spec fn furthest(a: Tokens, b: Tokens, dd: int, k: int) -> int
    decreases dd, 1int,
{
    if dd <= 0 {
        snake_end(a, b, k, 0)
    } else if comes_down(a, b, dd, k) {
        snake_end(a, b, k, furthest(a, b, dd - 1, k + 1))
    } else {
        snake_end(a, b, k, furthest(a, b, dd - 1, k - 1) + 1)
    }
}

/// The matched pairs along the route by which round `dd` reaches `furthest(dd, k)`.
pub open spec fn furthest_path(a: Tokens, b: Tokens, dd: int, k: int) -> Seq<(usize, usize)>
    decreases dd,
{
    if dd <= 0 {
        snake_pairs(a, b, k, 0)
    } else if comes_down(a, b, dd, k) {
        furthest_path(a, b, dd - 1, k + 1) + snake_pairs(a, b, k, furthest(a, b, dd - 1, k + 1))
    } else {
        furthest_path(a, b, dd - 1, k - 1) + snake_pairs(a, b, k, furthest(a, b, dd - 1, k - 1) + 1)
    }
}

/// The first diagonal from `k` on (in steps of two) that reaches past both
/// ends in round `dd`.
pub open spec fn first_hit(a: Tokens, b: Tokens, dd: int, k: int) -> int
    decreases dd + 2 - k,
{
    if k > dd {
        k
    } else if furthest(a, b, dd, k) >= a.len() && furthest(a, b, dd, k) - k >= b.len() {
        k
    } else {
        first_hit(a, b, dd, k + 2)
    }
}

/// The path Myers' search ends with: the route of the first diagonal that
/// reaches past both ends, in the round of the edit distance.
pub open spec fn myers_path(a: Tokens, b: Tokens) -> Seq<(usize, usize)> {
    let e = edit_distance(a, b);
    furthest_path(a, b, e, first_hit(a, b, e, -e))
}

/// The common subsequence Myers' search picks: the tokens along its path.
pub open spec fn lcs_choice(a: Tokens, b: Tokens) -> Tokens {
    path_tokens(a, myers_path(a, b))
}

/// What Myers' search keeps for diagonal `k` after `dd` rounds: the
/// furthest point of distance at most `dd`, and a path that reaches it.
#[verifier::opaque]
pub open spec fn reach_ok(a: Tokens, b: Tokens, dd: int, k: int, x: int, p: Seq<(usize, usize)>) -> bool {
    &&& x == furthest(a, b, dd, k)
    &&& p == furthest_path(a, b, dd, k)
    &&& x - k >= 0
    &&& x <= a.len() + dd
    &&& x - k <= b.len() + dd
    &&& ed(a, b, x, x - k) <= dd
    &&& forall|q: int| q >= 0 && q - k >= 0 && #[trigger] ed(a, b, q, q - k) <= dd ==> q <= x
    &&& path_ok(a, b, p, x, x - k, dd)
}

/// A copy of a path.
fn copy_path(p: &Vec<(usize, usize)>) -> (r: Vec<(usize, usize)>)
    ensures
        r@ == p@,
{
    let mut r: Vec<(usize, usize)> = Vec::new();
    let mut i: usize = 0;
    while i < p.len()
        invariant
            i <= p@.len(),
            r@ == p@.subrange(0, i as int),
        decreases p@.len() - i,
    {
        r.push(p[i]);
        i = i + 1;
    }
    assert(r@ =~= p@);
    r
}

/// Every diagonal from `lo` to `hi` of the parity of `dd` holds what
/// `reach_ok` asks after `dd` rounds.
#[verifier::opaque]
pub open spec fn round_ok(
    a: Tokens,
    b: Tokens,
    v: Seq<usize>,
    p: Seq<Vec<(usize, usize)>>,
    off: int,
    dd: int,
    lo: int,
    hi: int,
) -> bool {
    forall|k: int|
        lo <= k <= hi && (k + dd) % 2 == 0 ==> #[trigger] reach_ok(
            a,
            b,
            dd,
            k,
            v[k + off] as int,
            p[k + off]@,
        )
}

/// The record of one diagonal of a round.
proof fn lemma_round_get(
    a: Tokens,
    b: Tokens,
    v: Seq<usize>,
    p: Seq<Vec<(usize, usize)>>,
    off: int,
    dd: int,
    lo: int,
    hi: int,
    k: int,
)
    requires
        round_ok(a, b, v, p, off, dd, lo, hi),
        lo <= k <= hi,
        (k + dd) % 2 == 0,
    ensures
        reach_ok(a, b, dd, k, v[k + off] as int, p[k + off]@),
        v[k + off] - k >= 0,
        v[k + off] <= a.len() + dd,
        v[k + off] == furthest(a, b, dd, k),
        p[k + off]@ == furthest_path(a, b, dd, k),
{
    reveal(round_ok);
    reveal(reach_ok);
}

/// Where the search starts on diagonal `k` in round `dd`: one step down from
/// diagonal `k + 1`, or one step right from diagonal `k - 1`.
proof fn lemma_start(
    a: Tokens,
    b: Tokens,
    v: Seq<usize>,
    p: Seq<Vec<(usize, usize)>>,
    off: int,
    dd: int,
    k: int,
    x: int,
    pv: Seq<(usize, usize)>,
)
    requires
        dd >= 1,
        round_ok(a, b, v, p, off, dd - 1, -(dd - 1), dd - 1),
        (x == v[k + 1 + off] && pv == p[k + 1 + off]@ && -(dd - 1) <= k + 1 <= dd - 1 && (k + dd)
            % 2 == 0) || (x == v[k - 1 + off] + 1 && pv == p[k - 1 + off]@ && -(dd - 1) <= k - 1
            <= dd - 1 && (k + dd) % 2 == 0),
    ensures
        x - k >= 0,
        x <= a.len() + dd,
        x - k <= b.len() + dd,
        ed(a, b, x, x - k) <= dd,
        path_ok(a, b, pv, x, x - k, dd),
{
    reveal(reach_ok);
    if x == v[k + 1 + off] && pv == p[k + 1 + off]@ && -(dd - 1) <= k + 1 <= dd - 1 {
        lemma_round_get(a, b, v, p, off, dd - 1, -(dd - 1), dd - 1, k + 1);
        lemma_ed_steps(a, b, x, x - k - 1);
    } else {
        lemma_round_get(a, b, v, p, off, dd - 1, -(dd - 1), dd - 1, k - 1);
        lemma_ed_steps(a, b, x - 1, x - k);
    }
}

/// The pieces of `reach_ok`.
proof fn lemma_reach_intro(a: Tokens, b: Tokens, dd: int, k: int, x: int, pv: Seq<(usize, usize)>)
    requires
        x - k >= 0,
        x <= a.len() + dd,
        x - k <= b.len() + dd,
        ed(a, b, x, x - k) <= dd,
        forall|q: int| q >= 0 && q - k >= 0 && #[trigger] ed(a, b, q, q - k) <= dd ==> q <= x,
        path_ok(a, b, pv, x, x - k, dd),
        x == furthest(a, b, dd, k),
        pv == furthest_path(a, b, dd, k),
    ensures
        reach_ok(a, b, dd, k, x, pv),
{
    reveal(reach_ok);
}

/// With the point reached after `dd` rounds, its distance and its path.
proof fn lemma_reach_get(a: Tokens, b: Tokens, dd: int, k: int, x: int, pv: Seq<(usize, usize)>)
    requires
        reach_ok(a, b, dd, k, x, pv),
    ensures
        ed(a, b, x, x - k) <= dd,
        path_ok(a, b, pv, x, x - k, dd),
        forall|q: int| q >= 0 && q - k >= 0 && #[trigger] ed(a, b, q, q - k) <= dd ==> q <= x,
        x == furthest(a, b, dd, k),
        pv == furthest_path(a, b, dd, k),
{
    reveal(reach_ok);
}

/// Adding the record of the next diagonal of a round.
proof fn lemma_round_extend(
    a: Tokens,
    b: Tokens,
    v: Seq<usize>,
    p: Seq<Vec<(usize, usize)>>,
    off: int,
    dd: int,
    lo: int,
    hi: int,
)
    requires
        round_ok(a, b, v, p, off, dd, lo, hi - 2),
        (hi + dd) % 2 == 0,
        reach_ok(a, b, dd, hi, v[hi + off] as int, p[hi + off]@),
    ensures
        round_ok(a, b, v, p, off, dd, lo, hi),
{
    reveal(round_ok);
}

/// A round with no diagonal recorded yet.
proof fn lemma_round_empty(
    a: Tokens,
    b: Tokens,
    v: Seq<usize>,
    p: Seq<Vec<(usize, usize)>>,
    off: int,
    dd: int,
    lo: int,
)
    ensures
        round_ok(a, b, v, p, off, dd, lo, lo - 2),
{
    reveal(round_ok);
}

/// Completeness of one step of the search: the snake that starts where the
/// neighbouring diagonals of the previous round lead reaches every point of
/// distance at most `dd` on diagonal `k`.
proof fn lemma_furthest(
    a: Tokens,
    b: Tokens,
    v: Seq<usize>,
    p: Seq<Vec<(usize, usize)>>,
    off: int,
    dd: int,
    k: int,
    s: int,
    x: int,
)
    requires
        dd >= 0,
        -dd <= k <= dd,
        (k + dd) % 2 == 0,
        dd >= 1 ==> round_ok(a, b, v, p, off, dd - 1, -(dd - 1), dd - 1),
        dd == 0 ==> s == 0,
        dd >= 1 && k == -dd ==> s == v[k + 1 + off],
        dd >= 1 && k == dd ==> s == v[k - 1 + off] + 1,
        dd >= 1 && -dd < k < dd ==> s >= v[k + 1 + off] && s >= v[k - 1 + off] + 1,
        0 <= s <= x,
        forall|j: int| s <= j < x ==> #[trigger] matched(a, b, j, j - k),
        !matched(a, b, x, x - k),
    ensures
        forall|q: int| q >= 0 && q - k >= 0 && #[trigger] ed(a, b, q, q - k) <= dd ==> q <= x,
{
    assert forall|q: int| q >= 0 && q - k >= 0 && #[trigger] ed(a, b, q, q - k) <= dd implies q
        <= x by {
        let xp = lemma_back(a, b, k, q, dd);
        if xp == 0 && k == 0 {
        } else if xp - k - 1 >= 0 && ed(a, b, xp, xp - k - 1) <= dd - 1 {
            lemma_ed_bounds(a, b, xp, xp - k - 1);
            lemma_round_get(a, b, v, p, off, dd - 1, -(dd - 1), dd - 1, k + 1);
            lemma_reach_get(a, b, dd - 1, k + 1, v[k + 1 + off] as int, p[k + 1 + off]@);
            assert(ed(a, b, xp, xp - (k + 1)) <= dd - 1);
        } else {
            lemma_ed_bounds(a, b, xp - 1, xp - k);
            lemma_round_get(a, b, v, p, off, dd - 1, -(dd - 1), dd - 1, k - 1);
            lemma_reach_get(a, b, dd - 1, k - 1, v[k - 1 + off] as int, p[k - 1 + off]@);
            assert(ed(a, b, xp - 1, (xp - 1) - (k - 1)) <= dd - 1);
        }
        assert(s >= xp);
        if x < q {
            assert(matched(a, b, x, x - k));
        }
    }
}

/// Writing one entry keeps every other diagonal's record.
proof fn lemma_round_update(
    a: Tokens,
    b: Tokens,
    v0: Seq<usize>,
    p0: Seq<Vec<(usize, usize)>>,
    v1: Seq<usize>,
    p1: Seq<Vec<(usize, usize)>>,
    off: int,
    dd: int,
    lo: int,
    hi: int,
    j: int,
)
    requires
        round_ok(a, b, v0, p0, off, dd, lo, hi),
        p0.len() == v0.len(),
        v1.len() == v0.len(),
        p1.len() == p0.len(),
        forall|i: int| 0 <= i < v0.len() && i != j ==> v1[i] == v0[i],
        forall|i: int| 0 <= i < p0.len() && i != j ==> p1[i] == p0[i],
        0 <= lo + off,
        hi + off < v0.len(),
        !(lo <= j - off <= hi && (j - off + dd) % 2 == 0) || reach_ok(
            a,
            b,
            dd,
            j - off,
            v1[j] as int,
            p1[j]@,
        ),
    ensures
        round_ok(a, b, v1, p1, off, dd, lo, hi),
{
    reveal(round_ok);
    assert forall|k2: int| lo <= k2 <= hi && (k2 + dd) % 2 == 0 implies #[trigger] reach_ok(
        a,
        b,
        dd,
        k2,
        v1[k2 + off] as int,
        p1[k2 + off]@,
    ) by {
        if k2 + off != j {
            assert(reach_ok(a, b, dd, k2, v0[k2 + off] as int, p0[k2 + off]@));
        } else {
            assert(k2 == j - off);
            assert(k2 + off == j);
        }
    }
}

/// A point past both ends reached after `dd` rounds, with its path, gives
/// the edit distance and a path of a longest common subsequence.
proof fn lemma_found(a: Tokens, b: Tokens, dd: int, x: int, y: int, pv: Seq<(usize, usize)>)
    requires
        x >= a.len(),
        y >= b.len(),
        ed(a, b, x, y) <= dd,
        dd <= edit_distance(a, b),
        path_ok(a, b, pv, x, y, dd),
    ensures
        dd == edit_distance(a, b),
        path_ok(a, b, pv, a.len() as int, b.len() as int, dd),
{
    lemma_ed_clamp(a, b, x, y);
    let c = Seq::new(pv.len(), |j: int| a[pv[j].0 as int]);
    let ix = Seq::new(pv.len(), |j: int| pv[j].0 as int);
    let iy = Seq::new(pv.len(), |j: int| pv[j].1 as int);
    lemma_picked_subseq(c, a, ix);
    lemma_picked_subseq(c, b, iy);
    lemma_common_len(a, b, c);
}

/// One diagonal of one round of Myers' search: where it starts, and the
/// snake from there.
#[verifier::rlimit(100)]
fn furthest_on(
    a: &Vec<String>,
    b: &Vec<String>,
    v: &Vec<usize>,
    paths: &Vec<Vec<(usize, usize)>>,
    off: usize,
    d: usize,
    k: i64,
) -> (r: (usize, Vec<(usize, usize)>))
    requires
        a@.len() + b@.len() <= 0x3fff_ffff,
        off == a@.len() + b@.len() + 1,
        v@.len() == 2 * (a@.len() + b@.len()) + 3,
        paths@.len() == v@.len(),
        d <= a@.len() + b@.len(),
        -(d as int) <= k <= d,
        (k + d) % 2 == 0,
        d >= 1 ==> round_ok(views(a@), views(b@), v@, paths@, off as int, d - 1, -(d - 1), d - 1),
    ensures
        reach_ok(views(a@), views(b@), d as int, k as int, r.0 as int, r.1@),
        r.0 <= a@.len() + d,
        r.0 - k >= 0,
        r.0 - k <= b@.len() + d,
{
    let n = a.len();
    let m = b.len();
    let ghost ta = views(a@);
    let ghost tb = views(b@);
    let ghost ki = k as int;
    let kk: usize = (k + off as i64) as usize;
    let mut x: usize;
    let mut path: Vec<(usize, usize)>;
    proof {
        if d >= 1 && ki > -(d as int) {
            lemma_round_get(ta, tb, v@, paths@, off as int, d - 1, -(d - 1), d - 1, ki - 1);
        }
        if d >= 1 && ki < d {
            lemma_round_get(ta, tb, v@, paths@, off as int, d - 1, -(d - 1), d - 1, ki + 1);
        }
    }
    if d == 0 {
        x = 0;
        path = Vec::new();
    } else if k == -(d as i64) || (k != d as i64 && v[kk - 1] < v[kk + 1]) {
        x = v[kk + 1];
        path = copy_path(&paths[kk + 1]);
        proof {
            lemma_start(ta, tb, v@, paths@, off as int, d as int, ki, x as int, path@);
        }
    } else {
        proof {
            lemma_round_get(ta, tb, v@, paths@, off as int, d - 1, -(d - 1), d - 1, ki - 1);
        }
        x = v[kk - 1] + 1;
        path = copy_path(&paths[kk - 1]);
        proof {
            lemma_start(ta, tb, v@, paths@, off as int, d as int, ki, x as int, path@);
        }
    }
    let mut y: usize = (x as i64 - k) as usize;
    let ghost s = x as int;
    let ghost p_start = path@;
    proof {
        if d >= 1 {
            if comes_down(ta, tb, d as int, ki) {
                assert(s == furthest(ta, tb, d - 1, ki + 1));
                assert(p_start == furthest_path(ta, tb, d - 1, ki + 1));
            } else {
                assert(s == furthest(ta, tb, d - 1, ki - 1) + 1);
                assert(p_start == furthest_path(ta, tb, d - 1, ki - 1));
            }
        }
        assert(p_start + snake_pairs(ta, tb, ki, s) == furthest_path(ta, tb, d as int, ki));
        assert(snake_end(ta, tb, ki, s) == furthest(ta, tb, d as int, ki));
        assert(path@ + snake_pairs(ta, tb, ki, s) == p_start + snake_pairs(ta, tb, ki, s));
    }
    while x < n && y < m && a[x] == b[y]
        invariant
            n == ta.len(),
            m == tb.len(),
            ta == views(a@),
            tb == views(b@),
            x - y == ki,
            s <= x <= n + d,
            y <= m + d,
            ed(ta, tb, x as int, y as int) <= d,
            path_ok(ta, tb, path@, x as int, y as int, d as int),
            forall|j: int| s <= j < x ==> #[trigger] matched(ta, tb, j, j - ki),
            snake_end(ta, tb, ki, x as int) == snake_end(ta, tb, ki, s),
            path@ + snake_pairs(ta, tb, ki, x as int) == p_start + snake_pairs(ta, tb, ki, s),
        decreases n - x,
    {
        proof {
            lemma_ed_steps(ta, tb, x as int, y as int);
            assert(matched(ta, tb, x as int, x - ki));
            let rest = snake_pairs(ta, tb, ki, x + 1);
            assert(snake_pairs(ta, tb, ki, x as int) == seq![(x, y)] + rest);
            assert(path@.push((x, y)) + rest =~= path@ + (seq![(x, y)] + rest));
        }
        path.push((x, y));
        x = x + 1;
        y = y + 1;
    }
    proof {
        assert(!matched(ta, tb, x as int, x - ki));
        assert(snake_pairs(ta, tb, ki, x as int) == Seq::<(usize, usize)>::empty());
        assert(path@ =~= path@ + snake_pairs(ta, tb, ki, x as int));
    }
    proof {
        lemma_furthest(ta, tb, v@, paths@, off as int, d as int, ki, s, x as int);
        lemma_reach_intro(ta, tb, d as int, ki, x as int, path@);
    }
    (x, path)
}

/// Myers' search: the edit distance of `a` and `b`, and the positions of
/// a longest common subsequence, found by following, round after round,
/// the furthest point each diagonal reaches.
#[verifier::rlimit(100)]
pub fn shortest_edit(a: &Vec<String>, b: &Vec<String>) -> (r: (usize, Vec<(usize, usize)>))
    requires
        a@.len() + b@.len() <= 0x3fff_ffff,
    ensures
        r.0 == edit_distance(views(a@), views(b@)),
        path_ok(views(a@), views(b@), r.1@, a@.len() as int, b@.len() as int, r.0 as int),
        r.1@ == myers_path(views(a@), views(b@)),
{
    let n = a.len();
    let m = b.len();
    let ghost ta = views(a@);
    let ghost tb = views(b@);
    let ghost e = edit_distance(ta, tb);
    proof {
        lemma_ed_bounds(ta, tb, n as int, m as int);
    }
    let max = n + m;
    let off = max + 1;
    let width = 2 * max + 3;
    let mut v: Vec<usize> = Vec::new();
    let mut paths: Vec<Vec<(usize, usize)>> = Vec::new();
    let mut i: usize = 0;
    while i < width
        invariant
            i <= width,
            v@.len() == i,
            paths@.len() == i,
        decreases width - i,
    {
        v.push(0);
        paths.push(Vec::new());
        i = i + 1;
    }
    let mut d: usize = 0;
    while d <= max
        invariant
            n == ta.len(),
            m == tb.len(),
            ta == views(a@),
            tb == views(b@),
            e == edit_distance(ta, tb),
            max == n + m,
            max <= 0x3fff_ffff,
            off == max + 1,
            width == 2 * max + 3,
            v@.len() == width,
            paths@.len() == width,
            d <= e <= max,
            (e + n + m) % 2 == 0,
            n - m <= e,
            m - n <= e,
            d >= 1 ==> round_ok(ta, tb, v@, paths@, off as int, d - 1, -(d - 1), d - 1),
        decreases max + 1 - d,
    {
        let mut k: i64 = -(d as i64);
        proof {
            lemma_round_empty(ta, tb, v@, paths@, off as int, d as int, -(d as int));
        }
        while k <= d as i64
            invariant
                n == ta.len(),
                m == tb.len(),
                ta == views(a@),
                tb == views(b@),
                e == edit_distance(ta, tb),
                max == n + m,
                max <= 0x3fff_ffff,
                off == max + 1,
                width == 2 * max + 3,
                v@.len() == width,
                paths@.len() == width,
                d <= e <= max,
                (e + n + m) % 2 == 0,
                n - m <= e,
                m - n <= e,
                -(d as int) <= k <= d + 2,
                (k + d) % 2 == 0,
                round_ok(ta, tb, v@, paths@, off as int, d as int, -(d as int), k - 2),
                d >= 1 ==> round_ok(ta, tb, v@, paths@, off as int, d - 1, -(d - 1), d - 1),
                e == d ==> k <= n - m,
                first_hit(ta, tb, d as int, -(d as int)) == first_hit(ta, tb, d as int, k as int),
            decreases d + 2 - k,
        {
            let ghost ki = k as int;
            let kk: usize = (k + off as i64) as usize;
            let (x, path) = furthest_on(a, b, &v, &paths, off, d, k);
            let y: usize = (x as i64 - k) as usize;
            let ghost v0 = v@;
            let ghost p0 = paths@;
            v.set(kk, x);
            paths.set(kk, path);
            proof {
                lemma_round_update(ta, tb, v0, p0, v@, paths@, off as int, d as int, -(d as int), ki - 2, kk as int);
                assert(v@[ki + off] == x);
                assert(paths@[ki + off] == path);
                lemma_round_extend(ta, tb, v@, paths@, off as int, d as int, -(d as int), ki);
                if d >= 1 {
                    lemma_round_update(ta, tb, v0, p0, v@, paths@, off as int, d - 1, -(d - 1), d - 1, kk as int);
                }
            }
            if x >= n && y >= m {
                proof {
                    lemma_reach_get(ta, tb, d as int, ki, x as int, paths@[kk as int]@);
                    lemma_found(ta, tb, d as int, x as int, y as int, paths@[kk as int]@);
                    assert(first_hit(ta, tb, d as int, ki) == ki);
                }
                return (d, copy_path(&paths[kk]));
            }
            proof {
                if e == d && ki == n - m {
                    lemma_reach_get(ta, tb, d as int, ki, x as int, path@);
                    assert(ed(ta, tb, n as int, n - ki) <= d);
                }
                lemma_reach_get(ta, tb, d as int, ki, x as int, paths@[kk as int]@);
                assert(first_hit(ta, tb, d as int, ki) == first_hit(ta, tb, d as int, ki + 2));
            }
            k = k + 2;
        }
        d = d + 1;
    }
    proof {
        assert(false);
    }
    (0, Vec::new())
}

/// A sequence is at distance zero from itself.
proof fn lemma_ed_same(a: Tokens, x: int)
    requires
        0 <= x <= a.len(),
    ensures
        ed(a, a, x, x) == 0,
    decreases x,
{
    lemma_ed_bounds(a, a, x, x);
    if x > 0 {
        lemma_ed_same(a, x - 1);
        lemma_ed_steps(a, a, x - 1, x - 1);
    }
}

/// A subsequence is no longer than the sequence.
proof fn lemma_subseq_len(c: Tokens, a: Tokens)
    requires
        is_subseq(c, a),
    ensures
        c.len() <= a.len(),
    decreases a.len(),
{
    if c.len() > 0 {
        if c.last() == a.last() {
            lemma_subseq_len(c.drop_last(), a.drop_last());
        } else {
            lemma_subseq_len(c, a.drop_last());
        }
    }
}

/// A subsequence as long as the sequence is the sequence itself.
proof fn lemma_subseq_full(c: Tokens, a: Tokens)
    requires
        is_subseq(c, a),
        c.len() >= a.len(),
    ensures
        c == a,
    decreases a.len(),
{
    if a.len() == 0 {
        assert(c =~= a);
    } else if c.last() == a.last() {
        lemma_subseq_full(c.drop_last(), a.drop_last());
        assert(c =~= c.drop_last().push(c.last()));
        assert(a =~= a.drop_last().push(a.last()));
    } else {
        lemma_subseq_len(c, a.drop_last());
    }
}

/// The tokens along a path found by the search.
pub open spec fn path_tokens(a: Tokens, p: Seq<(usize, usize)>) -> Tokens {
    Seq::new(p.len(), |j: int| a[p[j].0 as int])
}

/// The tokens along a complete path of the search form a longest common
/// subsequence; for equal sequences that is the whole sequence.
proof fn lemma_path_lcs(a: Tokens, b: Tokens, p: Seq<(usize, usize)>)
    requires
        path_ok(a, b, p, a.len() as int, b.len() as int, edit_distance(a, b)),
    ensures
        is_lcs(path_tokens(a, p), a, b),
        edit_distance(a, b) == 0 <==> a == b,
        a == b ==> path_tokens(a, p) == a,
{
    let c = path_tokens(a, p);
    let ix = Seq::new(p.len(), |j: int| p[j].0 as int);
    let iy = Seq::new(p.len(), |j: int| p[j].1 as int);
    lemma_picked_subseq(c, a, ix);
    lemma_picked_subseq(c, b, iy);
    assert forall|c2: Tokens| #[trigger] is_common(c2, a, b) implies c2.len() <= c.len() by {
        lemma_common_len(a, b, c2);
    }
    lemma_ed_bounds(a, b, a.len() as int, b.len() as int);
    if a == b {
        lemma_ed_same(a, a.len() as int);
        lemma_subseq_full(c, a);
    }
    if edit_distance(a, b) == 0 {
        lemma_subseq_full(c, a);
        lemma_subseq_full(c, b);
    }
}

/// The edit distance of two token sequences and a longest common
/// subsequence of them.
pub fn lcs_tokens(a: &Vec<String>, b: &Vec<String>) -> (r: (i32, Vec<String>))
    requires
        a@.len() + b@.len() <= 0x3fff_ffff,
    ensures
        r.0 == edit_distance(views(a@), views(b@)),
        views(r.1@) == lcs_choice(views(a@), views(b@)),
        is_lcs(views(r.1@), views(a@), views(b@)),
        r.0 == 0 <==> views(a@) == views(b@),
        views(a@) == views(b@) ==> views(r.1@) == views(a@),
{
    let (dist, path) = shortest_edit(a, b);
    let mut c: Vec<String> = Vec::new();
    let mut i: usize = 0;
    while i < path.len()
        invariant
            i <= path@.len(),
            path_ok(views(a@), views(b@), path@, a@.len() as int, b@.len() as int, dist as int),
            views(c@) == path_tokens(views(a@), path@).subrange(0, i as int),
        decreases path@.len() - i,
    {
        let (px, _) = path[i];
        assert(path@[i as int].0 < a@.len());
        let ghost before = views(c@);
        c.push(a[px].clone());
        assert(views(c@) =~= before.push(a@[px as int]@));
        i = i + 1;
        assert(views(c@) =~= path_tokens(views(a@), path@).subrange(0, i as int));
    }
    proof {
        let ct = path_tokens(views(a@), path@);
        assert(ct.subrange(0, ct.len() as int) =~= ct);
        lemma_path_lcs(views(a@), views(b@), path@);
        lemma_ed_bounds(views(a@), views(b@), a@.len() as int, b@.len() as int);
    }
    (dist as i32, c)
}

/// The edit distance of the token sequences of `orig` and `edit` under
/// delimiter `split`, and a longest common subsequence of them, joined with
/// `split`.
pub fn lcs(orig: &str, edit: &str, split: &str) -> (r: (i32, String))
    requires
        orig@.len() + edit@.len() <= crate::MAX_TOTAL_LEN,
    ensures
        r.0 == edit_distance(tokens(orig@, split@), tokens(edit@, split@)),
        is_lcs(lcs_choice(tokens(orig@, split@), tokens(edit@, split@)), tokens(orig@, split@), tokens(edit@, split@)),
        r.1@ == join(lcs_choice(tokens(orig@, split@), tokens(edit@, split@)), split@),
        r.0 == 0 <==> tokens(orig@, split@) == tokens(edit@, split@),
        orig@ == edit@ ==> r.0 == 0 && r.1@ == orig@,
{
    let a = tokenize(orig, split);
    let b = tokenize(edit, split);
    proof {
        lemma_tokens_len(orig@, split@);
        lemma_tokens_len(edit@, split@);
    }
    let (dist, c) = lcs_tokens(&a, &b);
    let common = join_tokens(&c, 0, c.len(), split);
    proof {
        assert(views(c@).subrange(0, c@.len() as int) =~= views(c@));
        if orig@ == edit@ {
            lemma_tokens_join(orig@, split@);
        }
    }
    (dist, common)
}

/// Swapping the two sequences swaps the coordinates.
proof fn lemma_ed_swap(a: Tokens, b: Tokens, x: int, y: int)
    requires
        x >= 0,
        y >= 0,
    ensures
        ed(a, b, x, y) == ed(b, a, y, x),
    decreases x + y,
{
    if x > 0 && y > 0 {
        lemma_ed_swap(a, b, x - 1, y);
        lemma_ed_swap(a, b, x, y - 1);
        lemma_ed_swap(a, b, x - 1, y - 1);
        assert(matched(a, b, x - 1, y - 1) == matched(b, a, y - 1, x - 1));
    }
}

/// Without a single match, every token is deleted or inserted.
proof fn lemma_ed_unmatched(a: Tokens, b: Tokens, x: int, y: int)
    requires
        x >= 0,
        y >= 0,
        forall|i: int, j: int| !#[trigger] matched(a, b, i, j),
    ensures
        ed(a, b, x, y) == x + y,
    decreases x + y,
{
    if x > 0 && y > 0 {
        lemma_ed_unmatched(a, b, x - 1, y);
        lemma_ed_unmatched(a, b, x, y - 1);
        assert(!matched(a, b, x - 1, y - 1));
    }
}

/// The distance of `a` to `b` is the distance of `b` to `a`, for every delimiter.
pub proof fn lemma_distance_symmetric(a: Seq<char>, b: Seq<char>, d: Seq<char>)
    ensures
        edit_distance(tokens(a, d), tokens(b, d)) == edit_distance(tokens(b, d), tokens(a, d)),
{
    let ta = tokens(a, d);
    let tb = tokens(b, d);
    lemma_ed_swap(ta, tb, ta.len() as int, tb.len() as int);
}

/// The distance is at most the two token counts together, and reaches it
/// exactly when no token of `a` equals a token of `b`.
pub proof fn lemma_distance_bound(a: Seq<char>, b: Seq<char>, d: Seq<char>)
    ensures
        edit_distance(tokens(a, d), tokens(b, d)) <= tokens(a, d).len() + tokens(b, d).len(),
        edit_distance(tokens(a, d), tokens(b, d)) == tokens(a, d).len() + tokens(b, d).len() <==> !exists|
            i: int,
            j: int,
        | 0 <= i < tokens(a, d).len() && 0 <= j < tokens(b, d).len() && tokens(a, d)[i] == tokens(
            b,
            d,
        )[j],
{
    let ta = tokens(a, d);
    let tb = tokens(b, d);
    lemma_ed_bounds(ta, tb, ta.len() as int, tb.len() as int);
    if exists|i: int, j: int| 0 <= i < ta.len() && 0 <= j < tb.len() && ta[i] == tb[j] {
        let (i, j) = choose|i: int, j: int| 0 <= i < ta.len() && 0 <= j < tb.len() && ta[i] == tb[j];
        let c = seq![ta[i]];
        lemma_picked_subseq(c, ta, seq![i]);
        lemma_picked_subseq(c, tb, seq![j]);
        lemma_common_len(ta, tb, c);
    } else {
        assert forall|i: int, j: int| !#[trigger] matched(ta, tb, i, j) by {
            if matched(ta, tb, i, j) {
                assert(0 <= i < ta.len() && 0 <= j < tb.len() && ta[i] == tb[j]);
            }
        }
        lemma_ed_unmatched(ta, tb, ta.len() as int, tb.len() as int);
    }
}

} // verus!
